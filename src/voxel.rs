//! Voxel-grid downsampling: the points of each cube of edge `voxel_size`
//! collapse into their centroid.
use vstd::prelude::*;
use std::collections::HashMap;
use vstd::arithmetic::div_mod::{lemma_fundamental_div_mod, lemma_fundamental_div_mod_converse, lemma_div_is_ordered, lemma_mod_bound};
use crate::geometry::LaserPoint;
use crate::octree_view::round_div;

verus! {

broadcast use vstd::std_specs::hash::group_hash_axioms;

/// Below this edge (mm) filtering is off: the grid would be too fine.
pub const MIN_VOXEL_SIZE: u32 = 50;

/// The voxel that holds `p`: each coordinate divided by the edge `v`,
/// rounded down.
pub open spec fn voxel_key(p: LaserPoint, v: int) -> (int, int, int) {
    (p.x as int / v, p.y as int / v, p.z as int / v)
}

/// Sums of x, y, z, reflectivity, and the number, of the points of `s` in
/// voxel `k`.
pub open spec fn bucket(s: Seq<LaserPoint>, k: (int, int, int), v: int) -> (int, int, int, int, int)
    decreases s.len(),
{
    if s.len() == 0 {
        (0, 0, 0, 0, 0)
    } else {
        let b = bucket(s.drop_last(), k, v);
        let p = s.last();
        if voxel_key(p, v) == k {
            (b.0 + p.x as int, b.1 + p.y as int, b.2 + p.z as int, b.3 + p.reflectivity as int, b.4 + 1)
        } else {
            b
        }
    }
}

/// The voxels of the points of `s`, each once, in order of first
/// appearance.
pub open spec fn voxel_keys(s: Seq<LaserPoint>, v: int) -> Seq<(int, int, int)>
    decreases s.len(),
{
    if s.len() == 0 {
        Seq::empty()
    } else {
        let ks = voxel_keys(s.drop_last(), v);
        let k = voxel_key(s.last(), v);
        if ks.contains(k) { ks } else { ks.push(k) }
    }
}

/// The centroid of a bucket: mean coordinates rounded down, reflectivity
/// rounded to nearest.
pub open spec fn centroid(b: (int, int, int, int, int)) -> LaserPoint {
    LaserPoint {
        x: (b.0 / b.4) as i32,
        y: (b.1 / b.4) as i32,
        z: (b.2 / b.4) as i32,
        reflectivity: round_div(b.3 as nat, b.4 as nat) as u8,
    }
}

/// The filter: for an edge of at least `MIN_VOXEL_SIZE`, one centroid per
/// voxel in order of first appearance; else the points unchanged.
pub open spec fn voxel_filter(s: Seq<LaserPoint>, v: int) -> Seq<LaserPoint> {
    if v < MIN_VOXEL_SIZE {
        s
    } else {
        voxel_keys(s, v).map_values(|k: (int, int, int)| centroid(bucket(s, k, v)))
    }
}

/// `a` divided by `b`, rounded down.
fn floor_div(a: i64, b: i64) -> (r: i64)
    requires
        1 <= b <= 0x1_0000_0000,
        -0x4000_0000_0000_0000 <= a <= 0x4000_0000_0000_0000,
    ensures
        r == a as int / b as int,
{
    if a >= 0 {
        let q = (a as u64) / (b as u64);
        q as i64
    } else {
        let c = (-a) as u64;
        let x64 = c + (b as u64) - 1;
        let q = x64 / (b as u64);
        assert(q <= x64) by (nonlinear_arith)
            requires q == x64 / (b as u64), b >= 1;
        assert(x64 <= 0x4000_0001_0000_0000);
        proof {
            let bb = b as int;
            let qq = q as int;
            let x = c + bb - 1;
            let rr = x % bb;
            lemma_fundamental_div_mod(x, bb);
            lemma_mod_bound(x, bb);
            assert(qq == x / bb);
            assert(a as int == (-qq) * bb + (bb - 1 - rr)) by (nonlinear_arith)
                requires c + bb - 1 == bb * qq + rr, a == -c;
            lemma_fundamental_div_mod_converse(a as int, bb, -qq, bb - 1 - rr);
        }
        -(q as i64)
    }
}

/// Mean bounds: `n` values within `[lo, hi]` have a floored mean there too.
proof fn lemma_mean_in_range(s: int, n: int, lo: int, hi: int)
    requires
        n >= 1,
        lo * n <= s <= hi * n,
    ensures
        lo <= s / n <= hi,
{
    lemma_div_is_ordered(lo * n, s, n);
    lemma_div_is_ordered(s, hi * n, n);
    lemma_fundamental_div_mod_converse(lo * n, n, lo, 0);
    lemma_fundamental_div_mod_converse(hi * n, n, hi, 0);
}

/// Offset that makes every voxel index of a 32-bit coordinate positive.
pub const KEY_OFFSET: i64 = 0x100_0000_0000;

/// Each voxel index lies within the range of a 32-bit coordinate.
pub open spec fn key_in_range(k: (int, int, int)) -> bool {
    &&& -0x8000_0000 <= k.0 <= 0x8000_0000
    &&& -0x8000_0000 <= k.1 <= 0x8000_0000
    &&& -0x8000_0000 <= k.2 <= 0x8000_0000
}

/// The three voxel indices packed into one integer, 42 bits each.
pub open spec fn pack_key(k: (int, int, int)) -> int {
    ((k.0 + KEY_OFFSET) * KEY_RADIX + (k.1 + KEY_OFFSET)) * KEY_RADIX + (k.2 + KEY_OFFSET)
}

/// Radix of the packed key: each index takes 42 bits.
pub const KEY_RADIX: u128 = 0x400_0000_0000;

/// Packing keeps voxels apart.
proof fn lemma_pack_injective(a: (int, int, int), b: (int, int, int))
    requires
        key_in_range(a),
        key_in_range(b),
        pack_key(a) == pack_key(b),
    ensures
        a == b,
{
    let m = KEY_RADIX as int;
    let a0 = a.0 + KEY_OFFSET;
    let a1 = a.1 + KEY_OFFSET;
    let a2 = a.2 + KEY_OFFSET;
    let b0 = b.0 + KEY_OFFSET;
    let b1 = b.1 + KEY_OFFSET;
    let b2 = b.2 + KEY_OFFSET;
    lemma_fundamental_div_mod_converse(pack_key(a), m, a0 * m + a1, a2);
    lemma_fundamental_div_mod_converse(pack_key(b), m, b0 * m + b1, b2);
    lemma_fundamental_div_mod_converse(a0 * m + a1, m, a0, a1);
    lemma_fundamental_div_mod_converse(b0 * m + b1, m, b0, b1);
}

/// The packed key of a voxel.
fn pack(k: (i64, i64, i64)) -> (r: u128)
    requires
        key_in_range((k.0 as int, k.1 as int, k.2 as int)),
    ensures
        r == pack_key((k.0 as int, k.1 as int, k.2 as int)),
{
    let a = (k.0 + KEY_OFFSET) as u128;
    let b = (k.1 + KEY_OFFSET) as u128;
    let c = (k.2 + KEY_OFFSET) as u128;
    assert(a < 0x400_0000_0000 && b < 0x400_0000_0000 && c < 0x400_0000_0000);
    assert(a * 0x400_0000_0000 + b < 0x10_0000_0000_0000_0000_0000);
    assert((a * 0x400_0000_0000 + b) * 0x400_0000_0000 + c < 0x4000_0000_0000_0000_0000_0000_0000_0000);
    (a * KEY_RADIX + b) * KEY_RADIX + c
}

/// The voxel index of a 32-bit coordinate lies within its range.
proof fn lemma_key_bound(x: int, v: int)
    requires
        -0x8000_0000 <= x <= 0x8000_0000,
        v >= 1,
    ensures
        -0x8000_0000 <= x / v <= 0x8000_0000,
{
    lemma_fundamental_div_mod(x, v);
    lemma_mod_bound(x, v);
    let q = x / v;
    let r = x % v;
    assert(-0x8000_0000 <= q <= 0x8000_0000) by (nonlinear_arith)
        requires x == v * q + r, 0 <= r < v, v >= 1, -0x8000_0000 <= x <= 0x8000_0000;
}

/// Running sums of one voxel.
struct VoxelAcc {
    key: (i64, i64, i64),
    sx: i64,
    sy: i64,
    sz: i64,
    sr: u64,
    n: u64,
}

impl VoxelAcc {
    spec fn key_int(&self) -> (int, int, int) {
        (self.key.0 as int, self.key.1 as int, self.key.2 as int)
    }

    spec fn stats(&self) -> (int, int, int, int, int) {
        (self.sx as int, self.sy as int, self.sz as int, self.sr as int, self.n as int)
    }

    spec fn bounded(&self) -> bool {
        &&& 1 <= self.n <= u32::MAX
        &&& -0x8000_0000 * self.n <= self.sx <= 0x7fff_ffff * self.n
        &&& -0x8000_0000 * self.n <= self.sy <= 0x7fff_ffff * self.n
        &&& -0x8000_0000 * self.n <= self.sz <= 0x7fff_ffff * self.n
        &&& self.sr <= 255 * self.n
    }
}

/// Downsamples `points` on a grid of edge `voxel_size` (see `voxel_filter`).
pub fn voxel_grid_filter(points: &Vec<LaserPoint>, voxel_size: u32) -> (r: Vec<LaserPoint>)
    requires
        points@.len() <= 0x4000_0000,
    ensures
        r@ == voxel_filter(points@, voxel_size as int),
{
    let n = points.len();
    if voxel_size < MIN_VOXEL_SIZE {
        let mut copy: Vec<LaserPoint> = Vec::with_capacity(n);
        let mut i: usize = 0;
        while i < n
            invariant
                i <= n,
                n == points@.len(),
                copy@ == points@.subrange(0, i as int),
            decreases n - i,
        {
            copy.push(points[i]);
            assert(copy@ =~= points@.subrange(0, i as int + 1));
            i = i + 1;
        }
        assert(copy@ =~= points@);
        return copy;
    }
    let v = voxel_size as i64;
    let ghost vi = voxel_size as int;
    let ghost s = points@;
    let mut accs: Vec<VoxelAcc> = Vec::new();
    // position in `accs` of each voxel's sums, by packed voxel key
    let mut index: HashMap<u128, usize> = HashMap::new();
    let mut i: usize = 0;
    while i < n
        invariant
            i <= n,
            n == s.len(),
            s == points@,
            n <= 0x4000_0000,
            v == vi,
            MIN_VOXEL_SIZE <= vi <= u32::MAX,
            accs@.len() == voxel_keys(s.subrange(0, i as int), vi).len(),
            forall|j: int| 0 <= j < accs@.len() ==> (#[trigger] accs@[j]).key_int() == voxel_keys(s.subrange(0, i as int), vi)[j],
            forall|j: int| 0 <= j < accs@.len() ==> (#[trigger] accs@[j]).stats() == bucket(s.subrange(0, i as int), accs@[j].key_int(), vi),
            forall|j: int| 0 <= j < accs@.len() ==> (#[trigger] accs@[j]).bounded() && accs@[j].n <= i,
            forall|j: int| 0 <= j < accs@.len() ==> key_in_range(#[trigger] accs@[j].key_int()),
            forall|j: int| 0 <= j < accs@.len() ==> index@.contains_key(pack_key(#[trigger] accs@[j].key_int()) as u128)
                && index@[pack_key(accs@[j].key_int()) as u128] == j,
            forall|q: u128| #[trigger] index@.contains_key(q) ==> index@[q] < accs@.len()
                && pack_key(accs@[index@[q] as int].key_int()) == q,
        decreases n - i,
    {
        let p = points[i];
        let key = (floor_div(p.x as i64, v), floor_div(p.y as i64, v), floor_div(p.z as i64, v));
        let ghost pre = s.subrange(0, i as int);
        let ghost post = s.subrange(0, i as int + 1);
        let ghost ks = voxel_keys(pre, vi);
        let ghost kk = (key.0 as int, key.1 as int, key.2 as int);
        proof {
            assert(post.drop_last() =~= pre);
            assert(post.last() == p);
            lemma_key_bound(p.x as int, vi);
            lemma_key_bound(p.y as int, vi);
            lemma_key_bound(p.z as int, vi);
        }
        let packed = pack(key);
        match index.get(&packed) {
            Some(found) => {
                let j = *found;
                proof {
                    lemma_pack_injective(accs@[j as int].key_int(), kk);
                }
                let a = &accs[j];
                let ghost old_accs = accs@;
                let updated = VoxelAcc {
                    key: a.key,
                    sx: a.sx + p.x as i64,
                    sy: a.sy + p.y as i64,
                    sz: a.sz + p.z as i64,
                    sr: a.sr + p.reflectivity as u64,
                    n: a.n + 1,
                };
                accs.set(j, updated);
                proof {
                    assert(ks[j as int] == kk);
                    assert(ks.contains(voxel_key(p, vi)));
                    assert(voxel_keys(post, vi) == ks);
                    assert forall|jj: int| 0 <= jj < accs@.len() implies (#[trigger] accs@[jj]).stats() == bucket(post, accs@[jj].key_int(), vi) by {
                        if jj != j {
                            assert(old_accs[jj].key_int() != ks[j as int]) by {
                                lemma_keys_distinct(pre, vi);
                            }
                        }
                    }
                    assert forall|q: u128| #[trigger] index@.contains_key(q) implies index@[q] < accs@.len()
                        && pack_key(accs@[index@[q] as int].key_int()) == q by {
                        assert(old_accs[index@[q] as int].key_int() == accs@[index@[q] as int].key_int());
                    }
                }
            },
            None => {
                let ghost old_accs = accs@;
                let ghost old_index = index@;
                proof {
                    assert(!ks.contains(kk)) by {
                        if ks.contains(kk) {
                            let j = choose|j: int| 0 <= j < ks.len() && ks[j] == kk;
                            assert(accs@[j].key_int() == kk);
                        }
                    }
                    assert forall|j: int| 0 <= j < old_accs.len() implies pack_key(#[trigger] old_accs[j].key_int()) as u128 != packed by {
                        if pack_key(old_accs[j].key_int()) as u128 == packed {
                            lemma_pack_injective(old_accs[j].key_int(), kk);
                            assert(ks[j] == kk);
                        }
                    }
                }
                index.insert(packed, accs.len());
                accs.push(VoxelAcc {
                    key,
                    sx: p.x as i64,
                    sy: p.y as i64,
                    sz: p.z as i64,
                    sr: p.reflectivity as u64,
                    n: 1,
                });
                proof {
                    assert(voxel_keys(post, vi) == ks.push(voxel_key(p, vi)));
                    lemma_bucket_absent(pre, voxel_key(p, vi), vi);
                    assert forall|j: int| 0 <= j < accs@.len() implies index@.contains_key(pack_key(#[trigger] accs@[j].key_int()) as u128)
                        && index@[pack_key(accs@[j].key_int()) as u128] == j by {
                        if j < old_accs.len() {
                            assert(accs@[j] == old_accs[j]);
                        }
                    }
                    assert forall|q: u128| #[trigger] index@.contains_key(q) implies index@[q] < accs@.len()
                        && pack_key(accs@[index@[q] as int].key_int()) == q by {
                        if q != packed {
                            assert(old_index.contains_key(q));
                            assert(accs@[old_index[q] as int] == old_accs[old_index[q] as int]);
                        }
                    }
                }
            },
        }
        i = i + 1;
    }
    proof {
        assert(s.subrange(0, n as int) =~= s);
    }
    let ghost ks = voxel_keys(s, vi);
    let mut out: Vec<LaserPoint> = Vec::with_capacity(accs.len());
    let mut k: usize = 0;
    while k < accs.len()
        invariant
            k <= accs@.len(),
            accs@.len() == ks.len(),
            ks == voxel_keys(s, vi),
            vi >= MIN_VOXEL_SIZE,
            s.len() <= 0x4000_0000,
            forall|j: int| 0 <= j < accs@.len() ==> (#[trigger] accs@[j]).key_int() == ks[j],
            forall|j: int| 0 <= j < accs@.len() ==> (#[trigger] accs@[j]).stats() == bucket(s, accs@[j].key_int(), vi),
            forall|j: int| 0 <= j < accs@.len() ==> (#[trigger] accs@[j]).bounded() && accs@[j].n <= s.len(),
            out@.len() == k,
            forall|j: int| 0 <= j < k ==> (#[trigger] out@[j]) == centroid(bucket(s, ks[j], vi)),
        decreases accs@.len() - k,
    {
        let a = &accs[k];
        proof {
            lemma_mean_in_range(a.sx as int, a.n as int, -0x8000_0000, 0x7fff_ffff);
            lemma_mean_in_range(a.sy as int, a.n as int, -0x8000_0000, 0x7fff_ffff);
            lemma_mean_in_range(a.sz as int, a.n as int, -0x8000_0000, 0x7fff_ffff);
        }
        assert(-0x4000_0000_0000_0000 <= a.sx <= 0x4000_0000_0000_0000
            && -0x4000_0000_0000_0000 <= a.sy <= 0x4000_0000_0000_0000
            && -0x4000_0000_0000_0000 <= a.sz <= 0x4000_0000_0000_0000) by (nonlinear_arith)
            requires a.bounded(), a.n <= 0x4000_0000;
        let x = floor_div(a.sx, a.n as i64);
        let y = floor_div(a.sy, a.n as i64);
        let z = floor_div(a.sz, a.n as i64);
        let q = (2 * a.sr + a.n) / (2 * a.n);
        assert(q <= 255) by (nonlinear_arith)
            requires q == (2 * a.sr + a.n) / (2 * a.n), a.n >= 1, a.sr <= 255 * a.n;
        out.push(LaserPoint { x: x as i32, y: y as i32, z: z as i32, reflectivity: q as u8 });
        k = k + 1;
    }
    proof {
        assert(out@ =~= voxel_filter(s, vi));
    }
    out
}

/// There are no more voxels than points.
pub proof fn lemma_voxel_keys_len(s: Seq<LaserPoint>, v: int)
    ensures
        voxel_keys(s, v).len() <= s.len(),
        voxel_filter(s, v).len() <= s.len(),
    decreases s.len(),
{
    if s.len() > 0 {
        lemma_voxel_keys_len(s.drop_last(), v);
    }
}

/// The keys listed are pairwise distinct.
proof fn lemma_keys_distinct(s: Seq<LaserPoint>, v: int)
    ensures
        forall|a: int, b: int|
            0 <= a < b < voxel_keys(s, v).len() ==> voxel_keys(s, v)[a] != voxel_keys(s, v)[b],
    decreases s.len(),
{
    if s.len() > 0 {
        lemma_keys_distinct(s.drop_last(), v);
        let ks = voxel_keys(s.drop_last(), v);
        let k = voxel_key(s.last(), v);
        if !ks.contains(k) {
            assert(forall|a: int| 0 <= a < ks.len() ==> ks[a] != k);
        }
    }
}

/// A voxel that no point falls in has an empty bucket.
proof fn lemma_bucket_absent(s: Seq<LaserPoint>, k: (int, int, int), v: int)
    requires
        !voxel_keys(s, v).contains(k),
    ensures
        bucket(s, k, v) == (0int, 0int, 0int, 0int, 0int),
    decreases s.len(),
{
    if s.len() > 0 {
        let ks = voxel_keys(s.drop_last(), v);
        if ks.contains(k) {
            let j = choose|j: int| 0 <= j < ks.len() && ks[j] == k;
            assert(voxel_keys(s, v).contains(k)) by {
                let kk = voxel_keys(s, v);
                assert(kk[j] == k);
            }
        }
        lemma_bucket_absent(s.drop_last(), k, v);
        if voxel_key(s.last(), v) == k {
            assert(voxel_keys(s, v).contains(k)) by {
                let kk = voxel_keys(s, v);
                if ks.contains(voxel_key(s.last(), v)) {
                } else {
                    assert(kk[kk.len() - 1] == k);
                }
            }
        }
    }
}

pub open spec fn lo_of(c: int, v: int) -> int {
    if c * v >= -0x8000_0000 { c * v } else { -0x8000_0000 }
}

pub open spec fn hi_of(c: int, v: int) -> int {
    if c * v + v - 1 <= 0x7fff_ffff { c * v + v - 1 } else { 0x7fff_ffff }
}

/// A coordinate lies in its voxel's slab, and in the 32-bit range.
proof fn lemma_coord_in_voxel(x: int, v: int)
    requires
        v >= 1,
        -0x8000_0000 <= x <= 0x7fff_ffff,
    ensures
        lo_of(x / v, v) <= x <= hi_of(x / v, v),
{
    lemma_fundamental_div_mod(x, v);
    lemma_mod_bound(x, v);
    assert((x / v) * v == v * (x / v)) by (nonlinear_arith);
}

proof fn lemma_add_bounds(sum: int, n: int, x: int, lo: int, hi: int)
    requires
        lo * n <= sum <= hi * n,
        lo <= x <= hi,
    ensures
        lo * (n + 1) <= sum + x <= hi * (n + 1),
{
    assert(lo * (n + 1) == lo * n + lo) by (nonlinear_arith);
    assert(hi * (n + 1) == hi * n + hi) by (nonlinear_arith);
}

/// Every bucket's sums lie between its count times the bounds of its
/// voxel's slab.
proof fn lemma_bucket_bounds(s: Seq<LaserPoint>, k: (int, int, int), v: int)
    requires
        v >= 1,
    ensures
        ({
            let b = bucket(s, k, v);
            &&& b.4 >= 0
            &&& lo_of(k.0, v) * b.4 <= b.0 <= hi_of(k.0, v) * b.4
            &&& lo_of(k.1, v) * b.4 <= b.1 <= hi_of(k.1, v) * b.4
            &&& lo_of(k.2, v) * b.4 <= b.2 <= hi_of(k.2, v) * b.4
            &&& 0 <= b.3 <= 255 * b.4
        }),
    decreases s.len(),
{
    if s.len() > 0 {
        lemma_bucket_bounds(s.drop_last(), k, v);
        let p = s.last();
        let b = bucket(s.drop_last(), k, v);
        if voxel_key(p, v) == k {
            lemma_coord_in_voxel(p.x as int, v);
            lemma_coord_in_voxel(p.y as int, v);
            lemma_coord_in_voxel(p.z as int, v);
            lemma_add_bounds(b.0, b.4, p.x as int, lo_of(k.0, v), hi_of(k.0, v));
            lemma_add_bounds(b.1, b.4, p.y as int, lo_of(k.1, v), hi_of(k.1, v));
            lemma_add_bounds(b.2, b.4, p.z as int, lo_of(k.2, v), hi_of(k.2, v));
        }
    }
}

/// A voxel that holds a point has a non-empty bucket.
proof fn lemma_bucket_nonempty(s: Seq<LaserPoint>, k: (int, int, int), v: int)
    requires
        voxel_keys(s, v).contains(k),
        v >= 1,
    ensures
        bucket(s, k, v).4 >= 1,
    decreases s.len(),
{
    let ks = voxel_keys(s.drop_last(), v);
    lemma_bucket_bounds(s.drop_last(), k, v);
    if ks.contains(k) {
        lemma_bucket_nonempty(s.drop_last(), k, v);
    } else {
        let kk = voxel_keys(s, v);
        let j = choose|j: int| 0 <= j < kk.len() && kk[j] == k;
        if !ks.contains(voxel_key(s.last(), v)) {
            if j < ks.len() {
                assert(ks[j] == k);
            }
        }
    }
}

/// The centroid of a voxel's bucket lies in that voxel.
proof fn lemma_centroid_in_voxel(s: Seq<LaserPoint>, k: (int, int, int), v: int)
    requires
        voxel_keys(s, v).contains(k),
        v >= 1,
    ensures
        voxel_key(centroid(bucket(s, k, v)), v) == k,
{
    lemma_bucket_bounds(s, k, v);
    lemma_bucket_nonempty(s, k, v);
    let b = bucket(s, k, v);
    lemma_mean_in_range(b.0, b.4, lo_of(k.0, v), hi_of(k.0, v));
    lemma_mean_in_range(b.1, b.4, lo_of(k.1, v), hi_of(k.1, v));
    lemma_mean_in_range(b.2, b.4, lo_of(k.2, v), hi_of(k.2, v));
    lemma_mean_key(b.0 / b.4, k.0, v);
    lemma_mean_key(b.1 / b.4, k.1, v);
    lemma_mean_key(b.2 / b.4, k.2, v);
}

proof fn lemma_mean_key(m: int, c: int, v: int)
    requires
        v >= 1,
        lo_of(c, v) <= m <= hi_of(c, v),
    ensures
        -0x8000_0000 <= m <= 0x7fff_ffff,
        m / v == c,
{
    assert(c * v == v * c) by (nonlinear_arith);
    lemma_fundamental_div_mod_converse(m, v, c, m - c * v);
}

/// A list whose points lie in pairwise distinct voxels: its voxels are its
/// points' voxels in order, and each bucket holds one point.
proof fn lemma_distinct_voxels(t: Seq<LaserPoint>, v: int)
    requires
        forall|i: int, j: int| 0 <= i < j < t.len() ==> voxel_key(t[i], v) != voxel_key(t[j], v),
    ensures
        voxel_keys(t, v) == t.map_values(|p: LaserPoint| voxel_key(p, v)),
        forall|i: int| 0 <= i < t.len() ==> #[trigger] bucket(t, voxel_key(t[i], v), v) == (
            t[i].x as int,
            t[i].y as int,
            t[i].z as int,
            t[i].reflectivity as int,
            1int,
        ),
    decreases t.len(),
{
    if t.len() > 0 {
        let u = t.drop_last();
        let q = t.last();
        lemma_distinct_voxels(u, v);
        let ks = voxel_keys(u, v);
        assert(!ks.contains(voxel_key(q, v))) by {
            if ks.contains(voxel_key(q, v)) {
                let j = choose|j: int| 0 <= j < ks.len() && ks[j] == voxel_key(q, v);
                assert(u[j] == t[j]);
            }
        }
        assert(voxel_keys(t, v) =~= t.map_values(|p: LaserPoint| voxel_key(p, v)));
        lemma_bucket_absent(u, voxel_key(q, v), v);
        assert forall|i: int| 0 <= i < t.len() implies #[trigger] bucket(t, voxel_key(t[i], v), v) == (
            t[i].x as int,
            t[i].y as int,
            t[i].z as int,
            t[i].reflectivity as int,
            1int,
        ) by {
            if i < t.len() - 1 {
                assert(u[i] == t[i]);
                assert(bucket(u, voxel_key(u[i], v), v) == (
                    u[i].x as int,
                    u[i].y as int,
                    u[i].z as int,
                    u[i].reflectivity as int,
                    1int,
                ));
            }
        }
    }
}

/// Filtering is idempotent at its own scale: filtering the output again
/// with the same edge gives the output back.
pub proof fn lemma_voxel_filter_idempotent(s: Seq<LaserPoint>, v: int)
    ensures
        voxel_filter(voxel_filter(s, v), v) == voxel_filter(s, v),
{
    if v >= MIN_VOXEL_SIZE {
        let ks = voxel_keys(s, v);
        let out = voxel_filter(s, v);
        assert forall|i: int| 0 <= i < out.len() implies voxel_key(#[trigger] out[i], v) == ks[i] by {
            assert(ks.contains(ks[i]));
            lemma_centroid_in_voxel(s, ks[i], v);
        }
        lemma_keys_distinct(s, v);
        lemma_distinct_voxels(out, v);
        let out2 = voxel_filter(out, v);
        assert forall|i: int| 0 <= i < out.len() implies #[trigger] out2[i] == out[i] by {
            let b = bucket(out, voxel_key(out[i], v), v);
            assert(b.4 == 1);
            assert(voxel_keys(out, v)[i] == voxel_key(out[i], v));
            assert(out2[i] == centroid(b));
            let p = out[i];
            assert(b.0 / b.4 == p.x as int && b.1 / b.4 == p.y as int && b.2 / b.4 == p.z as int);
            let r = out[i].reflectivity as int;
            lemma_fundamental_div_mod_converse(2 * r + 1, 2, r, 1);
            assert(round_div(r as nat, 1) == r);
        }
        assert(out2 =~= out);
    }
}

} // verus!
