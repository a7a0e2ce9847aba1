//! Colour ramp for reflectivity: blue, cyan, yellow, red.
use vstd::prelude::*;

verus! {

/// Channel value at `r` on the segment from `(s, a)` to `(e, b)`, rounded to
/// nearest: `a + (r - s) * (b - a) / (e - s)`.
pub open spec fn interp(a: int, b: int, r: int, s: int, e: int) -> int {
    (2 * (a * (e - s) + (r - s) * (b - a)) + (e - s)) / (2 * (e - s))
}

/// The colour of a reflectivity: piecewise linear through blue at 0, cyan
/// at 85, yellow at 170 and red at 255.
pub open spec fn ramp(r: int) -> (int, int, int) {
    if r <= 85 {
        (interp(0, 0, r, 0, 85), interp(0, 255, r, 0, 85), interp(255, 255, r, 0, 85))
    } else if r <= 170 {
        (interp(0, 255, r, 85, 170), interp(255, 255, r, 85, 170), interp(255, 0, r, 85, 170))
    } else {
        (interp(255, 255, r, 170, 255), interp(255, 0, r, 170, 255), interp(0, 0, r, 170, 255))
    }
}

/// One channel between `a` and `b` over a segment of length 85.
fn interpolate_channel(a: u8, b: u8, t: u8) -> (r: u8)
    requires
        t <= 85,
    ensures
        r == interp(a as int, b as int, t as int, 0, 85),
{
    let d = b as i64 - a as i64;
    let tt = t as i64;
    assert(-255 * 85 <= tt * d <= 255 * 85) by (nonlinear_arith)
        requires 0 <= tt <= 85, -255 <= d <= 255;
    let num: i64 = 2 * (a as i64 * 85 + tt * d) + 85;
    assert(0 <= num <= 2 * 255 * 85 + 85) by (nonlinear_arith)
        requires num == 2 * (a * 85 + tt * d) + 85, 0 <= tt <= 85, 0 <= a <= 255, 0 <= b <= 255, d == b - a;
    let q = num / 170;
    assert(q <= 255);
    q as u8
}

/// RGB colour of a reflectivity (see `ramp`).
pub fn reflectivity_to_rgb(reflectivity: u8) -> (r: (u8, u8, u8))
    ensures
        (r.0 as int, r.1 as int, r.2 as int) == ramp(reflectivity as int),
{
    if reflectivity <= 85 {
        let t = reflectivity;
        (interpolate_channel(0, 0, t), interpolate_channel(0, 255, t), interpolate_channel(255, 255, t))
    } else if reflectivity <= 170 {
        let t = reflectivity - 85;
        (interpolate_channel(0, 255, t), interpolate_channel(255, 255, t), interpolate_channel(255, 0, t))
    } else {
        let t = reflectivity - 170;
        (interpolate_channel(255, 255, t), interpolate_channel(255, 0, t), interpolate_channel(0, 0, t))
    }
}

} // verus!
