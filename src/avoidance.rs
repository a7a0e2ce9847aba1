//! Reactive obstacle avoidance: a repulsive field over nearby occupied
//! cells, turned into a velocity command for the autopilot.
use vstd::prelude::*;
use crate::arith::{isqrt, scale_to_length, sqrt_floor, unit_scaled};
use crate::geometry::LaserPoint;
use crate::octree::Octree;
use crate::octree_view::NodeView;

verus! {

/// Type mask: the velocity fields (forward-right-down) are authoritative.
pub const MASK_VELOCITY: u16 = 0b0000001000000000;
/// Type mask: only the yaw rate is authoritative (hold position).
pub const MASK_YAW_RATE: u16 = 0b010111111111;
/// Speed of an avoidance manoeuvre, in mm/s.
pub const MAX_SPEED: i64 = 1000;
/// Yaw rate of the spin-in-place command, in mrad/s.
pub const SPIN_YAW_RATE: i64 = 500;
/// Numerator of the inverse-cube weight `WEIGHT / (d^3 + WEIGHT_EPSILON)`.
pub const WEIGHT: i128 = 0x1000_0000_0000_0000;
/// Regulariser of the weight: 1e-6 cubic metres in cubic millimetres.
pub const WEIGHT_EPSILON: i128 = 1000;
/// Largest obstacle distance the controller weighs, in millimetres.
pub const MAX_OBSTACLE_DISTANCE: u64 = 0x1_0000_0000;

/// The autopilot's position/velocity target message. Positions in mm,
/// velocities in mm/s, accelerations in mm/s^2, yaw in mrad, yaw rate in
/// mrad/s.
#[derive(Clone, Copy, Debug, PartialEq, Eq, Structural)]
pub struct MavlinkArgs {
    pub time_boot_ms: u32,
    pub target_system: u8,
    pub target_component: u8,
    pub coordinate_frame: u8,
    pub type_mask: u16,
    pub x: i64,
    pub y: i64,
    pub z: i64,
    pub vx: i64,
    pub vy: i64,
    pub vz: i64,
    pub afx: i64,
    pub afy: i64,
    pub afz: i64,
    pub yaw: i64,
    pub yaw_rate: i64,
}

impl MavlinkArgs {
    pub fn new(
        time_boot_ms: u32,
        target_system: u8,
        target_component: u8,
        coordinate_frame: u8,
        type_mask: u16,
        x: i64,
        y: i64,
        z: i64,
        vx: i64,
        vy: i64,
        vz: i64,
        afx: i64,
        afy: i64,
        afz: i64,
        yaw: i64,
        yaw_rate: i64,
    ) -> (r: MavlinkArgs)
        ensures
            r == (MavlinkArgs {
                time_boot_ms,
                target_system,
                target_component,
                coordinate_frame,
                type_mask,
                x,
                y,
                z,
                vx,
                vy,
                vz,
                afx,
                afy,
                afz,
                yaw,
                yaw_rate,
            }),
    {
        MavlinkArgs {
            time_boot_ms,
            target_system,
            target_component,
            coordinate_frame,
            type_mask,
            x,
            y,
            z,
            vx,
            vy,
            vz,
            afx,
            afy,
            afz,
            yaw,
            yaw_rate,
        }
    }
}

/// The zero-velocity command: velocity authoritative, every value 0.
pub open spec fn hold_command() -> MavlinkArgs {
    MavlinkArgs {
        time_boot_ms: 0,
        target_system: 1,
        target_component: 1,
        coordinate_frame: 9,
        type_mask: MASK_VELOCITY,
        x: 0,
        y: 0,
        z: 0,
        vx: 0,
        vy: 0,
        vz: 0,
        afx: 0,
        afy: 0,
        afz: 0,
        yaw: 0,
        yaw_rate: 0,
    }
}

/// Fly at velocity `v` given in the sensor frame; the command carries it in
/// forward-right-down, `(x, y, z) -> (x, -y, -z)`.
pub open spec fn velocity_command(v: (int, int, int)) -> MavlinkArgs {
    MavlinkArgs { vx: v.0 as i64, vy: -v.1 as i64, vz: -v.2 as i64, ..hold_command() }
}

/// Spin in place: yaw rate only.
pub open spec fn spin_command() -> MavlinkArgs {
    MavlinkArgs { type_mask: MASK_YAW_RATE, yaw_rate: SPIN_YAW_RATE, ..hold_command() }
}

/// An occupied cell near the vehicle: its distance from the sensor origin
/// (floor of the Euclidean length, mm) and its position.
#[derive(Clone, Copy, Debug, PartialEq, Eq, Structural)]
pub struct Obstacle {
    pub distance: u64,
    pub x: i32,
    pub y: i32,
    pub z: i32,
}

pub open spec fn dist_sq(p: LaserPoint) -> nat {
    (p.x * p.x + p.y * p.y + p.z * p.z) as nat
}

/// The obstacle that a point stands for.
pub open spec fn obstacle_of(p: LaserPoint) -> Obstacle {
    Obstacle { distance: sqrt_floor(dist_sq(p)) as u64, x: p.x, y: p.y, z: p.z }
}

/// The points of `s` closer to the origin than `limit`, as obstacles, in
/// order.
pub open spec fn obstacles_within(s: Seq<LaserPoint>, limit: int) -> Seq<Obstacle>
    decreases s.len(),
{
    if s.len() == 0 {
        Seq::empty()
    } else if sqrt_floor(dist_sq(s.last())) < limit {
        obstacles_within(s.drop_last(), limit).push(obstacle_of(s.last()))
    } else {
        obstacles_within(s.drop_last(), limit)
    }
}

/// The points of the tree's map: depth 0 first, each depth in order.
pub open spec fn map_points(t: NodeView, k: int) -> Seq<LaserPoint>
    decreases k,
{
    if k <= 0 { Seq::empty() } else { map_points(t, k - 1) + t.points_at_depth((k - 1) as nat) }
}

/// Index of the first obstacle of least distance among the first `k`.
pub open spec fn nearest_index(s: Seq<Obstacle>, k: int) -> int
    decreases k,
{
    if k <= 1 {
        0
    } else {
        let j = nearest_index(s, k - 1);
        if s[k - 1].distance < s[j].distance { k - 1 } else { j }
    }
}

/// Inverse-cube weight of an obstacle at distance `d`.
pub open spec fn weight(d: int) -> int {
    (WEIGHT as int) / (d * d * d + WEIGHT_EPSILON as int)
}

/// Sum over the first `k` obstacles of `-p * weight(d)`.
pub open spec fn repulsion(s: Seq<Obstacle>, k: int) -> (int, int, int)
    decreases k,
{
    if k <= 0 {
        (0, 0, 0)
    } else {
        let r = repulsion(s, k - 1);
        let o = s[k - 1];
        let w = weight(o.distance as int);
        (r.0 - o.x * w, r.1 - o.y * w, r.2 - o.z * w)
    }
}

/// The command for an obstacle list: hold when it is empty or its nearest
/// obstacle is beyond `warn`; else fly at `MAX_SPEED` along the repulsion,
/// or straight away from the nearest obstacle where the repulsion cancels,
/// or spin in place where that obstacle sits at the origin.
pub open spec fn avoidance(s: Seq<Obstacle>, warn: int) -> MavlinkArgs {
    if s.len() == 0 {
        hold_command()
    } else {
        let o = s[nearest_index(s, s.len() as int)];
        if o.distance > warn {
            hold_command()
        } else {
            let f = repulsion(s, s.len() as int);
            match unit_scaled(f.0, f.1, f.2, MAX_SPEED as int) {
                Some(v) => velocity_command(v),
                None => match unit_scaled(-o.x, -o.y, -o.z, MAX_SPEED as int) {
                    Some(v) => velocity_command(v),
                    None => spin_command(),
                },
            }
        }
    }
}

/// Squared distance of a point from the origin.
fn dist_sq_of(x: i32, y: i32, z: i32) -> (r: u128)
    ensures
        r == x * x + y * y + z * z,
{
    let a = x as i128;
    let b = y as i128;
    let c = z as i128;
    assert(0 <= a * a <= 0x4000_0000_0000_0000) by (nonlinear_arith)
        requires -0x8000_0000 <= a <= 0x7fff_ffff;
    assert(0 <= b * b <= 0x4000_0000_0000_0000) by (nonlinear_arith)
        requires -0x8000_0000 <= b <= 0x7fff_ffff;
    assert(0 <= c * c <= 0x4000_0000_0000_0000) by (nonlinear_arith)
        requires -0x8000_0000 <= c <= 0x7fff_ffff;
    (a * a + b * b + c * c) as u128
}

/// Distance of a point from the sensor origin, floored to a millimetre.
fn distance_calculator(x: i32, y: i32, z: i32) -> (r: u64)
    ensures
        r == sqrt_floor((x * x + y * y + z * z) as nat),
{
    isqrt(dist_sq_of(x, y, z))
}

/// Whether a point lies closer to the sensor than `warn_trigger_distance`.
pub fn crash_warn_for_point(point: LaserPoint, warn_trigger_distance: u64) -> (r: bool)
    ensures
        r == (sqrt_floor(dist_sq(point)) < warn_trigger_distance),
{
    distance_calculator(point.x, point.y, point.z) < warn_trigger_distance
}

/// Scans the tree's map for occupied cells closer than three times
/// `warn_trigger_distance`; returns whether there is any, and them.
pub fn crash_warn_for_octree(octree_input: &Octree, warn_trigger_distance: u64) -> (r: (
    bool,
    Vec<Obstacle>,
))
    requires
        octree_input.wf(),
        warn_trigger_distance <= MAX_OBSTACLE_DISTANCE,
    ensures
        r.1@ == obstacles_within(
            map_points(octree_input@, octree_input@.depth_span() as int),
            3 * warn_trigger_distance,
        ),
        r.0 == (r.1@.len() > 0),
{
    let octree_map = octree_input.depth_rows();
    let limit = 3 * warn_trigger_distance;
    let mut obstacle_list: Vec<Obstacle> = Vec::new();
    let ghost t = octree_input@;
    let mut d: usize = 0;
    while d < octree_map.len()
        invariant
            d <= octree_map@.len(),
            octree_map@.len() == t.depth_span(),
            forall|j: int| 0 <= j < octree_map@.len() ==> (#[trigger] octree_map@[j])@ == t.points_at_depth(j as nat),
            limit == 3 * warn_trigger_distance,
            obstacle_list@ == obstacles_within(map_points(t, d as int), limit as int),
        decreases octree_map@.len() - d,
    {
        let points = &octree_map[d];
        let ghost base = map_points(t, d as int);
        let mut i: usize = 0;
        while i < points.len()
            invariant
                i <= points@.len(),
                points@ == t.points_at_depth(d as nat),
                limit == 3 * warn_trigger_distance,
                obstacle_list@ == obstacles_within(base + points@.subrange(0, i as int), limit as int),
            decreases points@.len() - i,
        {
            let p = points[i];
            proof {
                let s = base + points@.subrange(0, i as int + 1);
                assert(s.drop_last() =~= base + points@.subrange(0, i as int));
                assert(s.last() == p);
            }
            let dist = distance_calculator(p.x, p.y, p.z);
            if dist < limit {
                obstacle_list.push(Obstacle { distance: dist, x: p.x, y: p.y, z: p.z });
            }
            i = i + 1;
        }
        proof {
            assert(base + points@.subrange(0, points@.len() as int) =~= map_points(t, d as int + 1));
        }
        d = d + 1;
    }
    (obstacle_list.len() > 0, obstacle_list)
}

/// Inverse-cube weight of an obstacle at distance `d`.
fn weight_of(d: u64) -> (r: i128)
    requires
        d <= MAX_OBSTACLE_DISTANCE,
    ensures
        r == weight(d as int),
        0 <= r <= WEIGHT,
{
    let dd = d as i128;
    assert(0 <= dd * dd <= 0x1_0000_0000_0000_0000) by (nonlinear_arith)
        requires 0 <= dd <= 0x1_0000_0000;
    assert(0 <= dd * dd * dd <= 0x1_0000_0000_0000_0000_0000_0000) by (nonlinear_arith)
        requires 0 <= dd <= 0x1_0000_0000, 0 <= dd * dd <= 0x1_0000_0000_0000_0000;
    let den = dd * dd * dd + WEIGHT_EPSILON;
    let w = WEIGHT / den;
    assert(w <= WEIGHT) by (nonlinear_arith)
        requires den >= 1, w == WEIGHT / den, WEIGHT >= 0;
    w
}

/// The command that steers away from the obstacles (see `avoidance`).
pub fn obstacle_avoidance(obstacle_list: &Vec<Obstacle>, warn_trigger_distance: u64) -> (r:
    MavlinkArgs)
    requires
        obstacle_list@.len() <= u32::MAX,
        forall|i: int|
            0 <= i < obstacle_list@.len() ==> (#[trigger] obstacle_list@[i]).distance
                <= MAX_OBSTACLE_DISTANCE,
    ensures
        r == avoidance(obstacle_list@, warn_trigger_distance as int),
{
    let result = MavlinkArgs::new(0, 1, 1, 9, MASK_VELOCITY, 0, 0, 0, 0, 0, 0, 0, 0, 0, 0, 0);
    let n = obstacle_list.len();
    if n == 0 {
        return result;
    }
    let ghost s = obstacle_list@;
    let mut k: usize = 0;
    let mut i: usize = 1;
    while i < n
        invariant
            1 <= i <= n,
            n == s.len(),
            s == obstacle_list@,
            k == nearest_index(s, i as int),
            k < i,
        decreases n - i,
    {
        if obstacle_list[i].distance < obstacle_list[k].distance {
            k = i;
        }
        i = i + 1;
    }
    let nearest = obstacle_list[k];
    if nearest.distance > warn_trigger_distance {
        return result;
    }
    let mut sx: i128 = 0;
    let mut sy: i128 = 0;
    let mut sz: i128 = 0;
    let mut j: usize = 0;
    while j < n
        invariant
            j <= n,
            n == s.len(),
            n <= u32::MAX,
            s == obstacle_list@,
            forall|i: int| 0 <= i < s.len() ==> (#[trigger] s[i]).distance <= MAX_OBSTACLE_DISTANCE,
            (sx as int, sy as int, sz as int) == repulsion(s, j as int),
            -(j as int) * 0x800_0000_0000_0000_0000_0000 <= sx <= (j as int) * 0x800_0000_0000_0000_0000_0000,
            -(j as int) * 0x800_0000_0000_0000_0000_0000 <= sy <= (j as int) * 0x800_0000_0000_0000_0000_0000,
            -(j as int) * 0x800_0000_0000_0000_0000_0000 <= sz <= (j as int) * 0x800_0000_0000_0000_0000_0000,
        decreases n - j,
    {
        let o = obstacle_list[j];
        let w = weight_of(o.distance);
        let x = o.x as i128;
        let y = o.y as i128;
        let z = o.z as i128;
        assert(-0x800_0000_0000_0000_0000_0000 <= x * w <= 0x800_0000_0000_0000_0000_0000) by (nonlinear_arith)
            requires -0x8000_0000 <= x <= 0x7fff_ffff, 0 <= w <= 0x1000_0000_0000_0000;
        assert(-0x800_0000_0000_0000_0000_0000 <= y * w <= 0x800_0000_0000_0000_0000_0000) by (nonlinear_arith)
            requires -0x8000_0000 <= y <= 0x7fff_ffff, 0 <= w <= 0x1000_0000_0000_0000;
        assert(-0x800_0000_0000_0000_0000_0000 <= z * w <= 0x800_0000_0000_0000_0000_0000) by (nonlinear_arith)
            requires -0x8000_0000 <= z <= 0x7fff_ffff, 0 <= w <= 0x1000_0000_0000_0000;
        sx = sx - x * w;
        sy = sy - y * w;
        sz = sz - z * w;
        j = j + 1;
    }
    match scale_to_length(sx, sy, sz, MAX_SPEED) {
        Some(v) => MavlinkArgs { vx: v.x, vy: -v.y, vz: -v.z, ..result },
        None => {
            match scale_to_length(
                -(nearest.x as i128),
                -(nearest.y as i128),
                -(nearest.z as i128),
                MAX_SPEED,
            ) {
                Some(v) => MavlinkArgs { vx: v.x, vy: -v.y, vz: -v.z, ..result },
                None => MavlinkArgs { type_mask: MASK_YAW_RATE, yaw_rate: SPIN_YAW_RATE, ..result },
            }
        },
    }
}

} // verus!
