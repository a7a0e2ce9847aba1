//! Conversions among the sensor ("mid360": X forward, Y left, Z up), render
//! world ("bevy") and autopilot (forward-right-down) frames.
use vstd::prelude::*;

verus! {

/// A coordinate that can be negated without overflow.
pub open spec fn negatable(v: i64) -> bool {
    v > i64::MIN
}

pub open spec fn mid360_to_bevy_spec(x: int, y: int, z: int) -> (int, int, int) {
    (-y, z, -x)
}

pub open spec fn bevy_to_mid360_spec(x: int, y: int, z: int) -> (int, int, int) {
    (-z, -x, y)
}

pub open spec fn mid360_to_frd_spec(x: int, y: int, z: int) -> (int, int, int) {
    (x, -y, -z)
}

pub open spec fn frd_to_bevy_spec(x: int, y: int, z: int) -> (int, int, int) {
    (y, -z, -x)
}

/// Sensor frame to render frame: `(x, y, z) -> (-y, z, -x)`.
pub fn mid360_to_bevy(x: i64, y: i64, z: i64) -> (r: (i64, i64, i64))
    requires
        negatable(x),
        negatable(y),
    ensures
        (r.0 as int, r.1 as int, r.2 as int) == mid360_to_bevy_spec(x as int, y as int, z as int),
{
    (-y, z, -x)
}

/// Render frame to sensor frame: `(x, y, z) -> (-z, -x, y)`.
pub fn bevy_to_mid360(x: i64, y: i64, z: i64) -> (r: (i64, i64, i64))
    requires
        negatable(x),
        negatable(z),
    ensures
        (r.0 as int, r.1 as int, r.2 as int) == bevy_to_mid360_spec(x as int, y as int, z as int),
{
    (-z, -x, y)
}

/// Sensor frame to forward-right-down: `(x, y, z) -> (x, -y, -z)`.
pub fn mid360_to_frd(x: i64, y: i64, z: i64) -> (r: (i64, i64, i64))
    requires
        negatable(y),
        negatable(z),
    ensures
        (r.0 as int, r.1 as int, r.2 as int) == mid360_to_frd_spec(x as int, y as int, z as int),
{
    (x, -y, -z)
}

/// Forward-right-down to render frame: `(x, y, z) -> (y, -z, -x)`.
pub fn frd_to_bevy(x: i64, y: i64, z: i64) -> (r: (i64, i64, i64))
    requires
        negatable(x),
        negatable(z),
    ensures
        (r.0 as int, r.1 as int, r.2 as int) == frd_to_bevy_spec(x as int, y as int, z as int),
{
    (y, -z, -x)
}

/// Going from the sensor frame to the render frame and back gives the point
/// back exactly.
pub proof fn lemma_mid360_bevy_round_trip(x: int, y: int, z: int)
    ensures
        ({
            let b = mid360_to_bevy_spec(x, y, z);
            bevy_to_mid360_spec(b.0, b.1, b.2)
        }) == (x, y, z),
        ({
            let m = bevy_to_mid360_spec(x, y, z);
            mid360_to_bevy_spec(m.0, m.1, m.2)
        }) == (x, y, z),
{
}

/// The sensor to forward-right-down map is its own inverse.
pub proof fn lemma_mid360_frd_round_trip(x: int, y: int, z: int)
    ensures
        ({
            let f = mid360_to_frd_spec(x, y, z);
            mid360_to_frd_spec(f.0, f.1, f.2)
        }) == (x, y, z),
{
}

/// Sensor to forward-right-down, then to the render frame, agrees with the
/// direct sensor to render map.
pub proof fn lemma_frd_bevy_consistent(x: int, y: int, z: int)
    ensures
        ({
            let f = mid360_to_frd_spec(x, y, z);
            frd_to_bevy_spec(f.0, f.1, f.2)
        }) == mid360_to_bevy_spec(x, y, z),
{
}

} // verus!
