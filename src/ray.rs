//! Exact ray / box intersection. A ray is `origin + t * direction` with
//! integer origin and direction; every slab crossing time is a multiple of
//! `1 / scale(direction)`, so times are handled as integers `tau = t * scale`.
use vstd::prelude::*;
use crate::geometry::{Aabb, Point3};

verus! {

/// Factor that one axis contributes to the time scale: `|v|`, or 1 on an
/// axis the ray is parallel to.
pub open spec fn axis_scale(v: i64) -> int {
    if v == 0 { 1 } else if v > 0 { v as int } else { -(v as int) }
}

/// The time scale of a direction: the product of `axis_scale` over the axes.
pub open spec fn time_scale(d: Point3) -> int {
    axis_scale(d.x) * axis_scale(d.y) * axis_scale(d.z)
}

/// Scaled time at which the ray enters the slab `[lo, hi]` of one axis; `k`
/// is the product of the other axes' `axis_scale`.
pub open spec fn slab_enter(lo: int, hi: int, o: int, d: int, k: int) -> int {
    if d > 0 { (lo - o) * k } else { (o - hi) * k }
}

/// Scaled time at which the ray leaves the slab `[lo, hi]` of one axis.
pub open spec fn slab_exit(lo: int, hi: int, o: int, d: int, k: int) -> int {
    if d > 0 { (hi - o) * k } else { (o - lo) * k }
}

pub open spec fn max0(a: int, b: int) -> int {
    if a >= b { a } else { b }
}

/// Entry time of the ray into the box, clamped below at 0, scaled.
pub open spec fn box_enter(b: Aabb, o: Point3, d: Point3) -> int {
    let kx = axis_scale(d.y) * axis_scale(d.z);
    let ky = axis_scale(d.x) * axis_scale(d.z);
    let kz = axis_scale(d.x) * axis_scale(d.y);
    let ex = if d.x != 0 { slab_enter(b.min.x as int, b.max.x as int, o.x as int, d.x as int, kx) } else { 0 };
    let ey = if d.y != 0 { slab_enter(b.min.y as int, b.max.y as int, o.y as int, d.y as int, ky) } else { 0 };
    let ez = if d.z != 0 { slab_enter(b.min.z as int, b.max.z as int, o.z as int, d.z as int, kz) } else { 0 };
    max0(max0(max0(0, ex), ey), ez)
}

/// One axis admits the clamped entry time `e`: a parallel ray lies within
/// the slab, another leaves the slab no earlier than `e`.
pub open spec fn axis_admits(lo: int, hi: int, o: int, d: int, k: int, e: int) -> bool {
    if d == 0 { lo <= o <= hi } else { e <= slab_exit(lo, hi, o, d, k) }
}

/// The ray meets the box at some time `t >= 0`.
pub open spec fn box_hit(b: Aabb, o: Point3, d: Point3) -> bool {
    let kx = axis_scale(d.y) * axis_scale(d.z);
    let ky = axis_scale(d.x) * axis_scale(d.z);
    let kz = axis_scale(d.x) * axis_scale(d.y);
    let e = box_enter(b, o, d);
    &&& axis_admits(b.min.x as int, b.max.x as int, o.x as int, d.x as int, kx, e)
    &&& axis_admits(b.min.y as int, b.max.y as int, o.y as int, d.y as int, ky, e)
    &&& axis_admits(b.min.z as int, b.max.z as int, o.z as int, d.z as int, kz, e)
}

/// A ray handed to the caster: origin, direction, and the per-axis factors
/// of its time scale.
pub struct Ray {
    pub origin: Point3,
    pub direction: Point3,
    pub kx: i128,
    pub ky: i128,
    pub kz: i128,
    pub scale: i128,
}

impl Ray {
    pub open spec fn wf(&self) -> bool {
        &&& self.origin.in_range()
        &&& self.direction.in_range()
        &&& self.kx == axis_scale(self.direction.y) * axis_scale(self.direction.z)
        &&& self.ky == axis_scale(self.direction.x) * axis_scale(self.direction.z)
        &&& self.kz == axis_scale(self.direction.x) * axis_scale(self.direction.y)
        &&& self.scale == time_scale(self.direction)
        &&& 1 <= self.kx <= 0x4000_0000_0000_0000
        &&& 1 <= self.ky <= 0x4000_0000_0000_0000
        &&& 1 <= self.kz <= 0x4000_0000_0000_0000
        &&& 1 <= self.scale <= 0x2000_0000_0000_0000_0000_0000
    }
}

fn abs_or_one(v: i64) -> (r: i128)
    requires
        -0x7fff_ffff <= v <= 0x7fff_ffff,
    ensures
        r == axis_scale(v),
        1 <= r <= 0x7fff_ffff,
{
    if v == 0 {
        1
    } else if v > 0 {
        v as i128
    } else {
        -(v as i128)
    }
}

/// Builds the ray `origin + t * direction`.
pub fn make_ray(origin: Point3, direction: Point3) -> (r: Ray)
    requires
        origin.in_range(),
        direction.in_range(),
    ensures
        r.wf(),
        r.origin == origin,
        r.direction == direction,
{
    let ax = abs_or_one(direction.x);
    let ay = abs_or_one(direction.y);
    let az = abs_or_one(direction.z);
    assert(ay * az <= 0x4000_0000_0000_0000 && ay * az >= 1) by (nonlinear_arith)
        requires 1 <= ay <= 0x7fff_ffff, 1 <= az <= 0x7fff_ffff;
    assert(ax * az <= 0x4000_0000_0000_0000 && ax * az >= 1) by (nonlinear_arith)
        requires 1 <= ax <= 0x7fff_ffff, 1 <= az <= 0x7fff_ffff;
    assert(ax * ay <= 0x4000_0000_0000_0000 && ax * ay >= 1) by (nonlinear_arith)
        requires 1 <= ax <= 0x7fff_ffff, 1 <= ay <= 0x7fff_ffff;
    let kz = ax * ay;
    assert(kz * az <= 0x2000_0000_0000_0000_0000_0000 && kz * az >= 1) by (nonlinear_arith)
        requires 1 <= kz <= 0x4000_0000_0000_0000, 1 <= az <= 0x7fff_ffff;
    Ray { origin, direction, kx: ay * az, ky: ax * az, kz, scale: kz * az }
}

/// Scaled entry and exit of one axis' slab; for a parallel axis, whether
/// the origin lies in the slab.
fn slab(lo: i64, hi: i64, o: i64, d: i64, k: i128) -> (r: (i128, i128))
    requires
        -0x7fff_ffff <= lo <= 0x7fff_ffff,
        -0x7fff_ffff <= hi <= 0x7fff_ffff,
        -0x7fff_ffff <= o <= 0x7fff_ffff,
        1 <= k <= 0x4000_0000_0000_0000,
        d != 0,
    ensures
        r.0 == slab_enter(lo as int, hi as int, o as int, d as int, k as int),
        r.1 == slab_exit(lo as int, hi as int, o as int, d as int, k as int),
        -TIME_LIMIT <= r.0 <= TIME_LIMIT,
        -TIME_LIMIT <= r.1 <= TIME_LIMIT,
{
    let a: i128 = if d > 0 { lo as i128 - o as i128 } else { o as i128 - hi as i128 };
    let b: i128 = if d > 0 { hi as i128 - o as i128 } else { o as i128 - lo as i128 };
    assert(-0x1_0000_0000_0000_0000_0000_0000 <= a * k <= 0x1_0000_0000_0000_0000_0000_0000) by (nonlinear_arith)
        requires -0x1_0000_0000 <= a <= 0x1_0000_0000, 1 <= k <= 0x4000_0000_0000_0000;
    assert(-0x1_0000_0000_0000_0000_0000_0000 <= b * k <= 0x1_0000_0000_0000_0000_0000_0000) by (nonlinear_arith)
        requires -0x1_0000_0000 <= b <= 0x1_0000_0000, 1 <= k <= 0x4000_0000_0000_0000;
    (a * k, b * k)
}

/// The later of two entry times; none stands for minus infinity.
pub open spec fn later(a: Option<int>, b: Option<int>) -> Option<int> {
    match a {
        Some(x) => match b {
            Some(y) => Some(if x >= y { x } else { y }),
            None => a,
        },
        None => b,
    }
}

/// The earlier of two exit times; none stands for plus infinity.
pub open spec fn earlier(a: Option<int>, b: Option<int>) -> Option<int> {
    match a {
        Some(x) => match b {
            Some(y) => Some(if x <= y { x } else { y }),
            None => a,
        },
        None => b,
    }
}

/// Unclamped scaled time at which the ray enters the box: the latest slab
/// entry over the axes the ray is not parallel to; none (minus infinity)
/// when it is parallel to all of them.
pub open spec fn raw_enter(b: Aabb, o: Point3, d: Point3) -> Option<int> {
    let kx = axis_scale(d.y) * axis_scale(d.z);
    let ky = axis_scale(d.x) * axis_scale(d.z);
    let kz = axis_scale(d.x) * axis_scale(d.y);
    later(
        later(
            if d.x != 0 { Some(slab_enter(b.min.x as int, b.max.x as int, o.x as int, d.x as int, kx)) } else { None },
            if d.y != 0 { Some(slab_enter(b.min.y as int, b.max.y as int, o.y as int, d.y as int, ky)) } else { None },
        ),
        if d.z != 0 { Some(slab_enter(b.min.z as int, b.max.z as int, o.z as int, d.z as int, kz)) } else { None },
    )
}

/// Scaled time at which the ray leaves the box: the earliest slab exit;
/// none (plus infinity) when the ray is parallel to every axis.
pub open spec fn raw_exit(b: Aabb, o: Point3, d: Point3) -> Option<int> {
    let kx = axis_scale(d.y) * axis_scale(d.z);
    let ky = axis_scale(d.x) * axis_scale(d.z);
    let kz = axis_scale(d.x) * axis_scale(d.y);
    earlier(
        earlier(
            if d.x != 0 { Some(slab_exit(b.min.x as int, b.max.x as int, o.x as int, d.x as int, kx)) } else { None },
            if d.y != 0 { Some(slab_exit(b.min.y as int, b.max.y as int, o.y as int, d.y as int, ky)) } else { None },
        ),
        if d.z != 0 { Some(slab_exit(b.min.z as int, b.max.z as int, o.z as int, d.z as int, kz)) } else { None },
    )
}

/// The line of the ray meets the box: on every axis the ray is parallel to,
/// the origin lies in the slab, and the box is entered no later than it is
/// left.
pub open spec fn slabs_meet(b: Aabb, o: Point3, d: Point3) -> bool {
    &&& (d.x != 0 || b.min.x <= o.x <= b.max.x)
    &&& (d.y != 0 || b.min.y <= o.y <= b.max.y)
    &&& (d.z != 0 || b.min.z <= o.z <= b.max.z)
    &&& match (raw_enter(b, o, d), raw_exit(b, o, d)) {
        (Some(e), Some(x)) => e <= x,
        _ => true,
    }
}

/// A time, or the given sentinel where it is infinite.
pub open spec fn or_sentinel(t: Option<int>, sentinel: i128) -> int {
    match t {
        Some(v) => v,
        None => sentinel as int,
    }
}

/// Largest magnitude of a finite scaled slab time.
pub const TIME_LIMIT: i128 = 0x1_0000_0000_0000_0000_0000_0000;

/// Slab intersection of the ray's line with the box: the unclamped scaled
/// entry and exit times, or none where a parallel axis misses the box or
/// the entry comes after the exit. An infinite time is given as `i128::MIN`
/// (entry) or `i128::MAX` (exit); finite ones lie within `TIME_LIMIT`.
pub fn aabb_ray_intersection(b: &Aabb, ray: &Ray) -> (r: Option<(i128, i128)>)
    requires
        b.wf(),
        ray.wf(),
    ensures
        match r {
            Some((e, x)) => slabs_meet(*b, ray.origin, ray.direction)
                && e == or_sentinel(raw_enter(*b, ray.origin, ray.direction), i128::MIN)
                && x == or_sentinel(raw_exit(*b, ray.origin, ray.direction), i128::MAX)
                && (raw_enter(*b, ray.origin, ray.direction) is Some ==> -TIME_LIMIT <= e <= TIME_LIMIT)
                && (raw_exit(*b, ray.origin, ray.direction) is Some ==> -TIME_LIMIT <= x <= TIME_LIMIT),
            None => !slabs_meet(*b, ray.origin, ray.direction),
        },
{
    let o = ray.origin;
    let d = ray.direction;
    let mut enter: i128 = i128::MIN;
    let mut exit: i128 = i128::MAX;
    if d.x != 0 {
        let xs = slab(b.min.x, b.max.x, o.x, d.x, ray.kx);
        if xs.0 > enter {
            enter = xs.0;
        }
        if xs.1 < exit {
            exit = xs.1;
        }
    } else if o.x < b.min.x || o.x > b.max.x {
        return None;
    }
    if d.y != 0 {
        let ys = slab(b.min.y, b.max.y, o.y, d.y, ray.ky);
        if ys.0 > enter {
            enter = ys.0;
        }
        if ys.1 < exit {
            exit = ys.1;
        }
    } else if o.y < b.min.y || o.y > b.max.y {
        return None;
    }
    if d.z != 0 {
        let zs = slab(b.min.z, b.max.z, o.z, d.z, ray.kz);
        if zs.0 > enter {
            enter = zs.0;
        }
        if zs.1 < exit {
            exit = zs.1;
        }
    } else if o.z < b.min.z || o.z > b.max.z {
        return None;
    }
    if enter > exit {
        return None;
    }
    Some((enter, exit))
}

/// The ray (`t >= 0`) meets the box exactly when the slabs meet and the box
/// is not left before time 0; it then enters at the slab entry clamped at 0.
pub proof fn lemma_slabs_box(b: Aabb, o: Point3, d: Point3)
    requires
        b.wf(),
    ensures
        box_hit(b, o, d) == (slabs_meet(b, o, d) && (raw_exit(b, o, d) is None || raw_exit(
            b,
            o,
            d,
        )->0 >= 0)),
        box_enter(b, o, d) == match raw_enter(b, o, d) {
            Some(v) => max0(v, 0),
            None => 0,
        },
{
    let kx = axis_scale(d.y) * axis_scale(d.z);
    let ky = axis_scale(d.x) * axis_scale(d.z);
    let kz = axis_scale(d.x) * axis_scale(d.y);
    assert(kx >= 1 && ky >= 1 && kz >= 1) by (nonlinear_arith)
        requires axis_scale(d.x) >= 1, axis_scale(d.y) >= 1, axis_scale(d.z) >= 1,
            kx == axis_scale(d.y) * axis_scale(d.z), ky == axis_scale(d.x) * axis_scale(d.z),
            kz == axis_scale(d.x) * axis_scale(d.y);
    lemma_slab_order(b.min.x as int, b.max.x as int, o.x as int, d.x as int, kx);
    lemma_slab_order(b.min.y as int, b.max.y as int, o.y as int, d.y as int, ky);
    lemma_slab_order(b.min.z as int, b.max.z as int, o.z as int, d.z as int, kz);
}

proof fn lemma_slab_order(lo: int, hi: int, o: int, d: int, k: int)
    requires
        lo <= hi,
        k >= 1,
    ensures
        slab_enter(lo, hi, o, d, k) <= slab_exit(lo, hi, o, d, k),
{
    assert((lo - o) * k <= (hi - o) * k) by (nonlinear_arith)
        requires lo <= hi, k >= 1;
    assert((o - hi) * k <= (o - lo) * k) by (nonlinear_arith)
        requires lo <= hi, k >= 1;
}

/// A box inside another is met no earlier, and only if the outer one is.
pub proof fn lemma_ray_within(inner: Aabb, outer: Aabb, o: Point3, d: Point3)
    requires
        inner.wf(),
        outer.wf(),
        inner.within(outer),
        box_hit(inner, o, d),
    ensures
        box_hit(outer, o, d),
        box_enter(inner, o, d) >= box_enter(outer, o, d),
{
    let kx = axis_scale(d.y) * axis_scale(d.z);
    let ky = axis_scale(d.x) * axis_scale(d.z);
    let kz = axis_scale(d.x) * axis_scale(d.y);
    assert(kx >= 1 && ky >= 1 && kz >= 1) by (nonlinear_arith)
        requires axis_scale(d.x) >= 1, axis_scale(d.y) >= 1, axis_scale(d.z) >= 1,
            kx == axis_scale(d.y) * axis_scale(d.z), ky == axis_scale(d.x) * axis_scale(d.z),
            kz == axis_scale(d.x) * axis_scale(d.y);
    lemma_slab_within(inner.min.x as int, inner.max.x as int, outer.min.x as int, outer.max.x as int, o.x as int, d.x as int, kx);
    lemma_slab_within(inner.min.y as int, inner.max.y as int, outer.min.y as int, outer.max.y as int, o.y as int, d.y as int, ky);
    lemma_slab_within(inner.min.z as int, inner.max.z as int, outer.min.z as int, outer.max.z as int, o.z as int, d.z as int, kz);
}

proof fn lemma_slab_within(ilo: int, ihi: int, olo: int, ohi: int, o: int, d: int, k: int)
    requires
        olo <= ilo,
        ihi <= ohi,
        k >= 1,
    ensures
        slab_enter(ilo, ihi, o, d, k) >= slab_enter(olo, ohi, o, d, k),
        slab_exit(ilo, ihi, o, d, k) <= slab_exit(olo, ohi, o, d, k),
{
    assert((ilo - o) * k >= (olo - o) * k) by (nonlinear_arith)
        requires olo <= ilo, k >= 1;
    assert((o - ihi) * k >= (o - ohi) * k) by (nonlinear_arith)
        requires ihi <= ohi, k >= 1;
    assert((ihi - o) * k <= (ohi - o) * k) by (nonlinear_arith)
        requires ihi <= ohi, k >= 1;
    assert((o - ilo) * k <= (o - olo) * k) by (nonlinear_arith)
        requires olo <= ilo, k >= 1;
}

} // verus!
