//! Integer square root and scaling of a vector to a given length, exact to
//! the rounding that they state.
use vstd::prelude::*;
use crate::geometry::Point3;

verus! {

/// `r` is the floor of the square root of `n`.
pub open spec fn is_sqrt_floor(n: int, r: int) -> bool {
    0 <= r && r * r <= n < (r + 1) * (r + 1)
}

spec fn sqrt_search(n: nat, r: nat) -> nat
    decreases n - r,
{
    if r >= n || (r + 1) * (r + 1) > n { r } else { sqrt_search(n, r + 1) }
}

/// Floor of the square root of `n`.
pub open spec fn sqrt_floor(n: nat) -> nat {
    choose|r: nat| is_sqrt_floor(n as int, r as int)
}

proof fn lemma_sqrt_search(n: nat, r: nat)
    requires
        r * r <= n,
    ensures
        is_sqrt_floor(n as int, sqrt_search(n, r) as int),
    decreases n - r,
{
    if r >= n {
        assert((r + 1) * (r + 1) > n) by (nonlinear_arith)
            requires r >= n;
    } else if (r + 1) * (r + 1) > n {
    } else {
        lemma_sqrt_search(n, r + 1);
    }
}

/// The floor square root exists and is unique.
pub proof fn lemma_sqrt_floor(n: nat, r: int)
    ensures
        is_sqrt_floor(n as int, sqrt_floor(n) as int),
        is_sqrt_floor(n as int, r) ==> r == sqrt_floor(n),
{
    lemma_sqrt_search(n, 0);
    let s = sqrt_floor(n) as int;
    assert(is_sqrt_floor(n as int, s));
    if is_sqrt_floor(n as int, r) {
        if r < s {
            assert((r + 1) * (r + 1) <= s * s) by (nonlinear_arith)
                requires 0 <= r < s;
        }
        if s < r {
            assert((s + 1) * (s + 1) <= r * r) by (nonlinear_arith)
                requires 0 <= s < r;
        }
    }
}

/// Floor of the square root of `n`.
pub fn isqrt(n: u128) -> (r: u64)
    ensures
        r == sqrt_floor(n as nat),
{
    let mut lo: u128 = 0;
    let mut hi: u128 = 0x1_0000_0000_0000_0000;
    assert(hi * hi > n) by (nonlinear_arith)
        requires hi == 0x1_0000_0000_0000_0000, n <= u128::MAX;
    while hi - lo > 1
        invariant
            lo < hi <= 0x1_0000_0000_0000_0000,
            lo * lo <= n,
            n < hi * hi,
        decreases hi - lo,
    {
        let mid = lo + (hi - lo) / 2;
        assert(mid * mid < 0x1_0000_0000_0000_0000_0000_0000_0000_0000) by (nonlinear_arith)
            requires mid < 0x1_0000_0000_0000_0000;
        if mid * mid <= n {
            lo = mid;
        } else {
            hi = mid;
        }
    }
    proof {
        lemma_sqrt_floor(n as nat, lo as int);
    }
    lo as u64
}

pub open spec fn abs(v: int) -> int {
    if v < 0 { -v } else { v }
}

/// Division rounding toward zero, for a positive divisor.
pub open spec fn div_trunc(a: int, b: int) -> int {
    if a >= 0 { a / b } else { -((-a) / b) }
}

/// Largest magnitude that `unit_scaled` brings its input down to before it
/// takes the length.
pub const REDUCED_LIMIT: i128 = 0x1000_0000_0000_0000;

/// The factor by which `unit_scaled` divides a vector first, so that its
/// squared length fits in 128 bits.
pub open spec fn reduce_factor(x: int, y: int, z: int) -> int {
    let m = if abs(x) >= abs(y) && abs(x) >= abs(z) {
        abs(x)
    } else if abs(y) >= abs(z) {
        abs(y)
    } else {
        abs(z)
    };
    m / (REDUCED_LIMIT as int) + 1
}

/// The vector `(x, y, z)` scaled to length `len`: each component of the
/// vector, first divided by `reduce_factor`, times `len` over the floor of
/// the reduced vector's length, rounded toward zero. `None` for the zero
/// vector.
pub open spec fn unit_scaled(x: int, y: int, z: int, len: int) -> Option<(int, int, int)> {
    let g = reduce_factor(x, y, z);
    let a = div_trunc(x, g);
    let b = div_trunc(y, g);
    let c = div_trunc(z, g);
    let m = sqrt_floor((a * a + b * b + c * c) as nat) as int;
    if x == 0 && y == 0 && z == 0 {
        None
    } else {
        Some((div_trunc(len * a, m), div_trunc(len * b, m), div_trunc(len * c, m)))
    }
}

fn abs128(v: i128) -> (r: u128)
    requires
        v > i128::MIN,
    ensures
        r == abs(v as int),
{
    if v < 0 {
        (-v) as u128
    } else {
        v as u128
    }
}

pub(crate) fn div_trunc128(a: i128, b: u128) -> (r: i128)
    requires
        a > i128::MIN,
        b >= 1,
    ensures
        r == div_trunc(a as int, b as int),
{
    let q = abs128(a) / b;
    assert(q <= abs(a as int)) by (nonlinear_arith)
        requires q == abs(a as int) / (b as int), b >= 1, abs(a as int) >= 0;
    if a < 0 {
        -(q as i128)
    } else {
        q as i128
    }
}

/// `len` times the direction of `(x, y, z)` (see `unit_scaled`); `None` for
/// the zero vector.
pub fn scale_to_length(x: i128, y: i128, z: i128, len: i64) -> (r: Option<Point3>)
    requires
        x > i128::MIN,
        y > i128::MIN,
        z > i128::MIN,
        0 <= len,
    ensures
        match unit_scaled(x as int, y as int, z as int, len as int) {
            None => r is None,
            Some(v) => r is Some && (v.0, v.1, v.2) == (r->0.x as int, r->0.y as int, r->0.z as int),
        },
        r is Some ==> abs(r->0.x as int) <= len && abs(r->0.y as int) <= len && abs(r->0.z as int) <= len,
{
    if x == 0 && y == 0 && z == 0 {
        return None;
    }
    let ax = abs128(x);
    let ay = abs128(y);
    let az = abs128(z);
    let m = if ax >= ay && ax >= az {
        ax
    } else if ay >= az {
        ay
    } else {
        az
    };
    let g = m / (REDUCED_LIMIT as u128) + 1;
    let a = div_trunc128(x, g);
    let b = div_trunc128(y, g);
    let c = div_trunc128(z, g);
    proof {
        lemma_reduced(x as int, g as int);
        lemma_reduced(y as int, g as int);
        lemma_reduced(z as int, g as int);
    }
    let aa = abs128(a);
    let bb = abs128(b);
    let cc = abs128(c);
    assert(aa * aa <= 0x100_0000_0000_0000_0000_0000_0000_0000) by (nonlinear_arith)
        requires aa <= 0x1000_0000_0000_0000;
    assert(bb * bb <= 0x100_0000_0000_0000_0000_0000_0000_0000) by (nonlinear_arith)
        requires bb <= 0x1000_0000_0000_0000;
    assert(cc * cc <= 0x100_0000_0000_0000_0000_0000_0000_0000) by (nonlinear_arith)
        requires cc <= 0x1000_0000_0000_0000;
    let n = aa * aa + bb * bb + cc * cc;
    assert(aa * aa == a * a && bb * bb == b * b && cc * cc == c * c) by (nonlinear_arith)
        requires aa == abs(a as int), bb == abs(b as int), cc == abs(c as int);
    let root = isqrt(n);
    proof {
        lemma_sqrt_floor(n as nat, root as int);
        lemma_component_le_norm(a as int, b as int, c as int, root as int);
        lemma_component_le_norm(b as int, a as int, c as int, root as int);
        lemma_component_le_norm(c as int, a as int, b as int, root as int);
        lemma_nonzero_reduced(x as int, y as int, z as int, g as int);
    }
    let r = root as u128;
    proof {
        lemma_scaled_bound(len as int, a as int, root as int);
        lemma_scaled_bound(len as int, b as int, root as int);
        lemma_scaled_bound(len as int, c as int, root as int);
    }
    let px = div_trunc128(len as i128 * a, r);
    let py = div_trunc128(len as i128 * b, r);
    let pz = div_trunc128(len as i128 * c, r);
    Some(Point3 { x: px as i64, y: py as i64, z: pz as i64 })
}

proof fn lemma_reduced(v: int, g: int)
    requires
        g >= 1,
        abs(v) / (REDUCED_LIMIT as int) + 1 <= g,
    ensures
        abs(div_trunc(v, g)) <= REDUCED_LIMIT as int,
{
    let a = abs(v);
    assert(a / g <= REDUCED_LIMIT) by (nonlinear_arith)
        requires a >= 0, g >= 1, a / (REDUCED_LIMIT as int) + 1 <= g;
}

/// A non-zero vector stays non-zero after `reduce_factor`.
pub proof fn lemma_reduce_keeps_sign(x: int, y: int, z: int, g: int)
    requires
        !(x == 0 && y == 0 && z == 0),
        g == reduce_factor(x, y, z),
    ensures
        g >= 1,
        !(div_trunc(x, g) == 0 && div_trunc(y, g) == 0 && div_trunc(z, g) == 0),
        x > 0 ==> div_trunc(x, g) >= 0,
        x < 0 ==> div_trunc(x, g) <= 0,
{
    lemma_nonzero_reduced(x, y, z, g);
    assert(g >= 1);
    if x > 0 {
        assert(x / g >= 0) by (nonlinear_arith)
            requires x > 0, g >= 1;
    }
    if x < 0 {
        assert((-x) / g >= 0) by (nonlinear_arith)
            requires x < 0, g >= 1;
    }
}

proof fn lemma_nonzero_reduced(x: int, y: int, z: int, g: int)
    requires
        !(x == 0 && y == 0 && z == 0),
        g == reduce_factor(x, y, z),
    ensures
        !(div_trunc(x, g) == 0 && div_trunc(y, g) == 0 && div_trunc(z, g) == 0),
{
    let m = if abs(x) >= abs(y) && abs(x) >= abs(z) {
        abs(x)
    } else if abs(y) >= abs(z) {
        abs(y)
    } else {
        abs(z)
    };
    assert(m >= 1);
    assert(m / g >= 1) by (nonlinear_arith)
        requires m >= 1, g == m / (REDUCED_LIMIT as int) + 1;
}

proof fn lemma_component_le_norm(a: int, b: int, c: int, r: int)
    requires
        is_sqrt_floor(a * a + b * b + c * c, r),
    ensures
        abs(a) <= r,
        !(a == 0 && b == 0 && c == 0) ==> r >= 1,
{
    let s = abs(a);
    assert(s * s == a * a) by (nonlinear_arith)
        requires s == abs(a);
    assert(b * b >= 0 && c * c >= 0) by (nonlinear_arith);
    if s > r {
        assert((r + 1) * (r + 1) <= s * s) by (nonlinear_arith)
            requires s > r, r >= 0;
    }
    if !(a == 0 && b == 0 && c == 0) {
        assert(a * a + b * b + c * c >= 1) by (nonlinear_arith)
            requires !(a == 0 && b == 0 && c == 0);
    }
}

proof fn lemma_scaled_bound(len: int, a: int, r: int)
    requires
        0 <= len <= i64::MAX,
        abs(a) <= r,
        r >= 1,
        abs(a) <= REDUCED_LIMIT as int,
    ensures
        abs(div_trunc(len * a, r)) <= len,
        -0x8000_0000_0000_0000_0000_0000_0000_0000 < len * a < 0x7fff_ffff_ffff_ffff_ffff_ffff_ffff_ffff,
{
    let s = abs(a);
    assert(abs(len * a) == len * s) by (nonlinear_arith)
        requires s == abs(a), len >= 0;
    assert(len * s / r <= len) by (nonlinear_arith)
        requires 0 <= s <= r, r >= 1, len >= 0;
    assert(len * s <= 0x7fff_ffff_ffff_ffff * 0x1000_0000_0000_0000) by (nonlinear_arith)
        requires 0 <= s <= 0x1000_0000_0000_0000, 0 <= len <= 0x7fff_ffff_ffff_ffff;
}

} // verus!
