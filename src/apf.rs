//! Artificial potential field planner: the goal attracts, occupied cells
//! within an influence radius repel, and the path advances a fixed step
//! along the total force.
use vstd::prelude::*;
use crate::arith::{abs, div_trunc, div_trunc128, isqrt, is_sqrt_floor, lemma_sqrt_floor, scale_to_length, sqrt_floor, unit_scaled, reduce_factor};
use crate::avoidance::map_points;
use crate::geometry::{LaserPoint, Point3};
use crate::octree::Octree;

verus! {

/// Planner settings. Gains are in thousandths; lengths in millimetres.
#[derive(Clone, Copy, Debug, PartialEq, Eq, Structural)]
pub struct ApfConfig {
    /// Attractive gain, in thousandths.
    pub k_att: u32,
    /// Repulsive gain, in thousandths.
    pub k_rep: u32,
    /// Influence radius of an obstacle.
    pub d0: u32,
    /// Length of one step.
    pub step_size: u32,
    /// Goal radius.
    pub epsilon: u32,
    /// Most steps taken before giving up.
    pub max_steps: u32,
}

/// Largest gain the planner takes, in thousandths.
pub const MAX_GAIN: u32 = 1_000_000;
/// Largest influence radius and step the planner takes, in millimetres.
pub const MAX_LENGTH: u32 = 10_000_000;
/// Scale that brings the repulsive term to the units of the attractive one.
pub const REPULSION_SCALE: i128 = 1_000_000_000;

impl ApfConfig {
    /// The settings lie in the ranges the planner's arithmetic holds.
    pub open spec fn wf(self) -> bool {
        &&& self.k_att <= MAX_GAIN
        &&& self.k_rep <= MAX_GAIN
        &&& self.d0 <= MAX_LENGTH
        &&& self.step_size <= MAX_LENGTH
    }
}

impl Default for ApfConfig {
    /// Gains 2.5, influence radius 0.7 m, step 0.1 m, goal radius 0.1 m,
    /// at most 500 steps.
    fn default() -> (r: ApfConfig)
        ensures
            r == (ApfConfig {
                k_att: 2500,
                k_rep: 2500,
                d0: 700,
                step_size: 100,
                epsilon: 100,
                max_steps: 500,
            }),
    {
        ApfConfig { k_att: 2500, k_rep: 2500, d0: 700, step_size: 100, epsilon: 100, max_steps: 500 }
    }
}

/// Why the planner gave no path.
#[derive(Clone, Copy, Debug, PartialEq, Eq, Structural)]
pub enum ApfError {
    /// The forces cancel exactly.
    LocalMinimum,
    /// The goal was not reached within `max_steps`.
    MaxStepsReached,
}

pub open spec fn sq_dist(a: Point3, b: Point3) -> int {
    (a.x - b.x) * (a.x - b.x) + (a.y - b.y) * (a.y - b.y) + (a.z - b.z) * (a.z - b.z)
}

/// The goal has been reached: within `epsilon` of it.
pub open spec fn reached(cur: Point3, goal: Point3, epsilon: int) -> bool {
    sq_dist(cur, goal) <= epsilon * epsilon
}

/// Attractive force `k_att * (goal - cur)`.
pub open spec fn attraction(cur: Point3, goal: Point3, k_att: int) -> (int, int, int) {
    (k_att * (goal.x - cur.x), k_att * (goal.y - cur.y), k_att * (goal.z - cur.z))
}

/// Repulsion of one obstacle `p` at distance `d` (floor), for `0 < d < d0`:
/// `k_rep * (1/d - 1/d0) / d^2 * (cur - p)`, in the units of the
/// attractive force, each component rounded toward zero.
pub open spec fn repulsion_term(cur: Point3, p: LaserPoint, k_rep: int, d0: int) -> (int, int, int) {
    let q = Point3 { x: p.x as i64, y: p.y as i64, z: p.z as i64 };
    let n = sq_dist(cur, q);
    if 0 < n < d0 * d0 {
        let d = sqrt_floor(n as nat) as int;
        let k = k_rep * REPULSION_SCALE * (d0 - d);
        let den = d * d * d * d0;
        (
            div_trunc(k * (cur.x - p.x), den),
            div_trunc(k * (cur.y - p.y), den),
            div_trunc(k * (cur.z - p.z), den),
        )
    } else {
        (0, 0, 0)
    }
}

/// Sum of the repulsion of the first `k` obstacles.
pub open spec fn repulsion_sum(cur: Point3, obs: Seq<LaserPoint>, k: int, k_rep: int, d0: int) -> (
    int,
    int,
    int,
)
    decreases k,
{
    if k <= 0 {
        (0, 0, 0)
    } else {
        let r = repulsion_sum(cur, obs, k - 1, k_rep, d0);
        let t = repulsion_term(cur, obs[k - 1], k_rep, d0);
        (r.0 + t.0, r.1 + t.1, r.2 + t.2)
    }
}

/// Total force at `cur`.
pub open spec fn total_force(cur: Point3, goal: Point3, obs: Seq<LaserPoint>, c: ApfConfig) -> (
    int,
    int,
    int,
) {
    let a = attraction(cur, goal, c.k_att as int);
    let r = repulsion_sum(cur, obs, obs.len() as int, c.k_rep as int, c.d0 as int);
    (a.0 + r.0, a.1 + r.1, a.2 + r.2)
}

/// The next waypoint: one step of `step_size` along the total force; none
/// where the force is zero.
pub open spec fn next_waypoint(cur: Point3, goal: Point3, obs: Seq<LaserPoint>, c: ApfConfig) -> Option<
    Point3,
> {
    let f = total_force(cur, goal, obs, c);
    match unit_scaled(f.0, f.1, f.2, c.step_size as int) {
        Some(v) => Some(
            Point3 { x: (cur.x + v.0) as i64, y: (cur.y + v.1) as i64, z: (cur.z + v.2) as i64 },
        ),
        None => None,
    }
}

/// The planner's run from `cur`, having taken `steps` steps along `path`.
pub open spec fn plan_from(
    cur: Point3,
    goal: Point3,
    obs: Seq<LaserPoint>,
    c: ApfConfig,
    steps: nat,
    path: Seq<Point3>,
) -> Result<Seq<Point3>, ApfError>
    decreases c.max_steps - steps,
{
    if reached(cur, goal, c.epsilon as int) {
        Ok(path)
    } else if steps >= c.max_steps {
        Err(ApfError::MaxStepsReached)
    } else {
        match next_waypoint(cur, goal, obs, c) {
            None => Err(ApfError::LocalMinimum),
            Some(n) => plan_from(n, goal, obs, c, steps + 1, path.push(n)),
        }
    }
}

/// Squared distance between two points, exact.
fn sq_distance(a: &Point3, b: &Point3) -> (r: u128)
    requires
        -0x0200_0000_0000_0000 <= a.x <= 0x0200_0000_0000_0000,
        -0x0200_0000_0000_0000 <= a.y <= 0x0200_0000_0000_0000,
        -0x0200_0000_0000_0000 <= a.z <= 0x0200_0000_0000_0000,
        -0x8000_0000 <= b.x <= 0x8000_0000,
        -0x8000_0000 <= b.y <= 0x8000_0000,
        -0x8000_0000 <= b.z <= 0x8000_0000,
    ensures
        r == sq_dist(*a, *b),
{
    let dx = a.x as i128 - b.x as i128;
    let dy = a.y as i128 - b.y as i128;
    let dz = a.z as i128 - b.z as i128;
    assert(0 <= dx * dx <= 0x10_0000_0000_0000_0000_0000_0000_0000) by (nonlinear_arith)
        requires -0x0400_0000_0000_0000 <= dx <= 0x0400_0000_0000_0000;
    assert(0 <= dy * dy <= 0x10_0000_0000_0000_0000_0000_0000_0000) by (nonlinear_arith)
        requires -0x0400_0000_0000_0000 <= dy <= 0x0400_0000_0000_0000;
    assert(0 <= dz * dz <= 0x10_0000_0000_0000_0000_0000_0000_0000) by (nonlinear_arith)
        requires -0x0400_0000_0000_0000 <= dz <= 0x0400_0000_0000_0000;
    (dx * dx + dy * dy + dz * dz) as u128
}

/// Distance between two points, floored to a millimetre.
fn distance(a: &Point3, b: &Point3) -> (r: u64)
    requires
        -0x0200_0000_0000_0000 <= a.x <= 0x0200_0000_0000_0000,
        -0x0200_0000_0000_0000 <= a.y <= 0x0200_0000_0000_0000,
        -0x0200_0000_0000_0000 <= a.z <= 0x0200_0000_0000_0000,
        -0x8000_0000 <= b.x <= 0x8000_0000,
        -0x8000_0000 <= b.y <= 0x8000_0000,
        -0x8000_0000 <= b.z <= 0x8000_0000,
    ensures
        r == sqrt_floor(sq_dist(*a, *b) as nat),
{
    isqrt(sq_distance(a, b))
}

/// Bound on a planner position: the sensor range plus `max_steps` steps.
pub open spec fn pos_ok(p: Point3) -> bool {
    &&& -0x0200_0000_0000_0000 <= p.x <= 0x0200_0000_0000_0000
    &&& -0x0200_0000_0000_0000 <= p.y <= 0x0200_0000_0000_0000
    &&& -0x0200_0000_0000_0000 <= p.z <= 0x0200_0000_0000_0000
}

/// Largest magnitude of one obstacle's repulsion component.
pub const TERM_LIMIT: i128 = 0x4_0000_0000_0000;

proof fn lemma_component_le_dist(a: int, b: int, c: int, d: int)
    requires
        is_sqrt_floor(a * a + b * b + c * c, d),
    ensures
        abs(a) <= d,
{
    let s = abs(a);
    assert(s * s == a * a) by (nonlinear_arith)
        requires s == abs(a);
    assert(b * b >= 0 && c * c >= 0) by (nonlinear_arith);
    if s > d {
        assert((d + 1) * (d + 1) <= s * s) by (nonlinear_arith)
            requires s > d, d >= 0;
    }
}

proof fn lemma_term_bound(kr: int, d0: int, d: int, e: int)
    requires
        0 <= kr <= MAX_GAIN,
        1 <= d < d0 <= MAX_LENGTH,
        abs(e) <= d,
    ensures
        abs(div_trunc(kr * REPULSION_SCALE * (d0 - d) * e, d * d * d * d0)) <= TERM_LIMIT,
        abs(kr * REPULSION_SCALE * (d0 - d) * e) <= 0x10_0000_0000_0000_0000_0000_0000,
        1 <= d * d * d * d0 <= 0x1_0000_0000_0000_0000_0000_0000,
{
    let big_k = kr * REPULSION_SCALE;
    let k = big_k * (d0 - d);
    let s = abs(e);
    let den = d * d * d * d0;
    assert(0 <= big_k <= 1_000_000_000_000_000);
    assert(1 <= d * d <= 100_000_000_000_000) by (nonlinear_arith)
        requires 1 <= d <= 10_000_000;
    assert(1 <= d * d * d <= 1_000_000_000_000_000_000_000) by (nonlinear_arith)
        requires 1 <= d <= 10_000_000, 1 <= d * d <= 100_000_000_000_000;
    assert(1 <= den <= 10_000_000_000_000_000_000_000_000_000) by (nonlinear_arith)
        requires 1 <= d * d * d <= 1_000_000_000_000_000_000_000, 1 <= d0 <= 10_000_000, den == d * d * d * d0;
    assert(0 <= k <= 10_000_000_000_000_000_000_000) by (nonlinear_arith)
        requires 0 <= big_k <= 1_000_000_000_000_000, 0 <= d0 - d <= 10_000_000, k == big_k * (d0 - d);
    assert(abs(k * e) == k * s) by (nonlinear_arith)
        requires s == abs(e), k >= 0;
    assert(k * s <= 100_000_000_000_000_000_000_000_000_000) by (nonlinear_arith)
        requires 0 <= k <= 10_000_000_000_000_000_000_000, 0 <= s <= 10_000_000;
    assert(k * s <= big_k * den) by (nonlinear_arith)
        requires k == big_k * (d0 - d), 0 <= s <= d, 1 <= d < d0, big_k >= 0, den == d * d * d * d0;
    assert((k * s) / den <= big_k) by (nonlinear_arith)
        requires k * s <= big_k * den, den >= 1, k * s >= 0;
    assert(abs(div_trunc(k * e, den)) == (k * s) / den) by (nonlinear_arith)
        requires s == abs(e), k >= 0, den >= 1;
    assert(k * s <= 0x10_0000_0000_0000_0000_0000_0000);
}

/// Repulsion of one obstacle (see `repulsion_term`).
fn repulsion_of(cur: &Point3, p: &LaserPoint, k_rep: u32, d0: u32) -> (r: (i128, i128, i128))
    requires
        pos_ok(*cur),
        k_rep <= MAX_GAIN,
        d0 <= MAX_LENGTH,
    ensures
        (r.0 as int, r.1 as int, r.2 as int) == repulsion_term(*cur, *p, k_rep as int, d0 as int),
        -TERM_LIMIT <= r.0 <= TERM_LIMIT,
        -TERM_LIMIT <= r.1 <= TERM_LIMIT,
        -TERM_LIMIT <= r.2 <= TERM_LIMIT,
{
    let q = Point3 { x: p.x as i64, y: p.y as i64, z: p.z as i64 };
    let n = sq_distance(cur, &q);
    assert((d0 as u128) * (d0 as u128) <= 0x1_0000_0000_0000_0000) by (nonlinear_arith)
        requires d0 <= u32::MAX;
    let d0s = (d0 as u128) * (d0 as u128);
    if n == 0 || n >= d0s {
        return (0, 0, 0);
    }
    assert(d0 >= 1) by {
        if d0 == 0 {
            assert(d0s == 0);
        }
    }
    let d = isqrt(n) as i128;
    let dd0 = d0 as i128;
    let ex = cur.x as i128 - p.x as i128;
    let ey = cur.y as i128 - p.y as i128;
    let ez = cur.z as i128 - p.z as i128;
    proof {
        lemma_sqrt_floor(n as nat, d as int);
        assert(d >= 1) by (nonlinear_arith)
            requires is_sqrt_floor(n as int, d as int), n >= 1;
        assert(d < dd0) by (nonlinear_arith)
            requires is_sqrt_floor(n as int, d as int), n < dd0 * dd0, dd0 >= 1;
        lemma_component_le_dist(ex as int, ey as int, ez as int, d as int);
        lemma_component_le_dist(ey as int, ex as int, ez as int, d as int);
        lemma_component_le_dist(ez as int, ex as int, ey as int, d as int);
        lemma_term_bound(k_rep as int, dd0 as int, d as int, ex as int);
        lemma_term_bound(k_rep as int, dd0 as int, d as int, ey as int);
        lemma_term_bound(k_rep as int, dd0 as int, d as int, ez as int);
    }
    assert(k_rep as i128 * REPULSION_SCALE <= 1_000_000_000_000_000);
    assert((k_rep as i128 * REPULSION_SCALE) * (dd0 - d) <= 10_000_000_000_000_000_000_000) by (nonlinear_arith)
        requires 0 <= k_rep as i128 * REPULSION_SCALE <= 1_000_000_000_000_000, 0 <= dd0 - d <= 10_000_000;
    let k = k_rep as i128 * REPULSION_SCALE * (dd0 - d);
    assert(d * d <= 100_000_000_000_000) by (nonlinear_arith)
        requires 1 <= d <= 10_000_000;
    assert(d * d * d <= 1_000_000_000_000_000_000_000) by (nonlinear_arith)
        requires 1 <= d <= 10_000_000, d * d <= 100_000_000_000_000;
    let den = d * d * d * dd0;
    let tx = div_trunc128(k * ex, den as u128);
    let ty = div_trunc128(k * ey, den as u128);
    let tz = div_trunc128(k * ez, den as u128);
    (tx, ty, tz)
}

/// Sum of the repulsion of all obstacles at `cur`.
fn compute_repulsive_force(cur: &Point3, obstacles: &Vec<LaserPoint>, k_rep: u32, d0: u32) -> (r: (
    i128,
    i128,
    i128,
))
    requires
        pos_ok(*cur),
        k_rep <= MAX_GAIN,
        d0 <= MAX_LENGTH,
    ensures
        (r.0 as int, r.1 as int, r.2 as int) == repulsion_sum(
            *cur,
            obstacles@,
            obstacles@.len() as int,
            k_rep as int,
            d0 as int,
        ),
        -0x4_0000_0000_0000_0000_0000_0000_0000 <= r.0 <= 0x4_0000_0000_0000_0000_0000_0000_0000,
        -0x4_0000_0000_0000_0000_0000_0000_0000 <= r.1 <= 0x4_0000_0000_0000_0000_0000_0000_0000,
        -0x4_0000_0000_0000_0000_0000_0000_0000 <= r.2 <= 0x4_0000_0000_0000_0000_0000_0000_0000,
{
    let mut fx: i128 = 0;
    let mut fy: i128 = 0;
    let mut fz: i128 = 0;
    let mut i: usize = 0;
    while i < obstacles.len()
        invariant
            i <= obstacles@.len(),
            pos_ok(*cur),
            k_rep <= MAX_GAIN,
            d0 <= MAX_LENGTH,
            (fx as int, fy as int, fz as int) == repulsion_sum(*cur, obstacles@, i as int, k_rep as int, d0 as int),
            -(i as int) * TERM_LIMIT <= fx <= (i as int) * TERM_LIMIT,
            -(i as int) * TERM_LIMIT <= fy <= (i as int) * TERM_LIMIT,
            -(i as int) * TERM_LIMIT <= fz <= (i as int) * TERM_LIMIT,
        decreases obstacles@.len() - i,
    {
        let t = repulsion_of(cur, &obstacles[i], k_rep, d0);
        fx = fx + t.0;
        fy = fy + t.1;
        fz = fz + t.2;
        i = i + 1;
    }
    (fx, fy, fz)
}

/// Attractive force `k_att * (goal - cur)`.
fn compute_attractive_force(cur: &Point3, goal: &Point3, k_att: u32) -> (r: (i128, i128, i128))
    requires
        pos_ok(*cur),
        goal.in_range(),
        k_att <= MAX_GAIN,
    ensures
        (r.0 as int, r.1 as int, r.2 as int) == attraction(*cur, *goal, k_att as int),
        -0x1_0000_0000_0000_0000_0000 <= r.0 <= 0x1_0000_0000_0000_0000_0000,
        -0x1_0000_0000_0000_0000_0000 <= r.1 <= 0x1_0000_0000_0000_0000_0000,
        -0x1_0000_0000_0000_0000_0000 <= r.2 <= 0x1_0000_0000_0000_0000_0000,
{
    let k = k_att as i128;
    let ex = goal.x as i128 - cur.x as i128;
    let ey = goal.y as i128 - cur.y as i128;
    let ez = goal.z as i128 - cur.z as i128;
    assert(-0x1_0000_0000_0000_0000_0000 <= k * ex <= 0x1_0000_0000_0000_0000_0000) by (nonlinear_arith)
        requires 0 <= k <= 1_000_000, -0x0400_0000_0000_0000 <= ex <= 0x0400_0000_0000_0000;
    assert(-0x1_0000_0000_0000_0000_0000 <= k * ey <= 0x1_0000_0000_0000_0000_0000) by (nonlinear_arith)
        requires 0 <= k <= 1_000_000, -0x0400_0000_0000_0000 <= ey <= 0x0400_0000_0000_0000;
    assert(-0x1_0000_0000_0000_0000_0000 <= k * ez <= 0x1_0000_0000_0000_0000_0000) by (nonlinear_arith)
        requires 0 <= k <= 1_000_000, -0x0400_0000_0000_0000 <= ez <= 0x0400_0000_0000_0000;
    (k * ex, k * ey, k * ez)
}

/// Componentwise sum of two forces.
fn add_forces(a: (i128, i128, i128), b: (i128, i128, i128)) -> (r: (i128, i128, i128))
    requires
        -0x1_0000_0000_0000_0000_0000 <= a.0 <= 0x1_0000_0000_0000_0000_0000,
        -0x1_0000_0000_0000_0000_0000 <= a.1 <= 0x1_0000_0000_0000_0000_0000,
        -0x1_0000_0000_0000_0000_0000 <= a.2 <= 0x1_0000_0000_0000_0000_0000,
        -0x4_0000_0000_0000_0000_0000_0000_0000 <= b.0 <= 0x4_0000_0000_0000_0000_0000_0000_0000,
        -0x4_0000_0000_0000_0000_0000_0000_0000 <= b.1 <= 0x4_0000_0000_0000_0000_0000_0000_0000,
        -0x4_0000_0000_0000_0000_0000_0000_0000 <= b.2 <= 0x4_0000_0000_0000_0000_0000_0000_0000,
    ensures
        r.0 == a.0 + b.0,
        r.1 == a.1 + b.1,
        r.2 == a.2 + b.2,
{
    (a.0 + b.0, a.1 + b.1, a.2 + b.2)
}

/// The points of a depth-indexed map, depth 0 first.
fn flatten_map(map: &Vec<Vec<LaserPoint>>, Ghost(t): Ghost<crate::octree_view::NodeView>) -> (r: Vec<LaserPoint>)
    requires
        forall|j: int| 0 <= j < map@.len() ==> (#[trigger] map@[j])@ == t.points_at_depth(j as nat),
    ensures
        r@ == map_points(t, map@.len() as int),
{
    let mut out: Vec<LaserPoint> = Vec::new();
    let mut d: usize = 0;
    while d < map.len()
        invariant
            d <= map@.len(),
            forall|j: int| 0 <= j < map@.len() ==> (#[trigger] map@[j])@ == t.points_at_depth(j as nat),
            out@ == map_points(t, d as int),
        decreases map@.len() - d,
    {
        let row = &map[d];
        let ghost base = out@;
        let mut i: usize = 0;
        while i < row.len()
            invariant
                i <= row@.len(),
                out@ == base + row@.subrange(0, i as int),
            decreases row@.len() - i,
        {
            out.push(row[i]);
            proof {
                assert(base + row@.subrange(0, i as int + 1) =~= (base + row@.subrange(0, i as int)).push(row@[i as int]));
            }
            i = i + 1;
        }
        proof {
            assert(row@.subrange(0, row@.len() as int) =~= row@);
        }
        d = d + 1;
    }
    out
}

/// Plans a path from `start` toward `goal` through the potential field of
/// the tree's occupied cells (see `plan_from`): the path starts at `start`
/// and, on success, ends within `epsilon` of the goal.
pub fn apf_plan(start: Point3, goal: Point3, octree: &Octree, config: ApfConfig) -> (r: Result<
    Vec<Point3>,
    ApfError,
>)
    requires
        start.in_range(),
        goal.in_range(),
        octree.wf(),
        config.wf(),
    ensures
        match r {
            Ok(path) => plan_from(
                start,
                goal,
                map_points(octree@, octree@.depth_span() as int),
                config,
                0,
                seq![start],
            ) == Ok::<Seq<Point3>, ApfError>(path@),
            Err(e) => plan_from(
                start,
                goal,
                map_points(octree@, octree@.depth_span() as int),
                config,
                0,
                seq![start],
            ) == Err::<Seq<Point3>, ApfError>(e),
        },
{
    let octree_map = octree.depth_rows();
    let obstacles = flatten_map(&octree_map, Ghost(octree@));
    let ghost obs = obstacles@;
    let ghost whole = plan_from(start, goal, obs, config, 0, seq![start]);
    let mut path: Vec<Point3> = vec![start];
    let mut current_pos = start;
    let mut steps: u32 = 0;
    assert((config.epsilon as u128) * (config.epsilon as u128) <= 0x1_0000_0000_0000_0000) by (nonlinear_arith)
        requires config.epsilon <= u32::MAX;
    let eps_sq = (config.epsilon as u128) * (config.epsilon as u128);
    assert(path@ =~= seq![start]);
    loop
        invariant
            steps <= config.max_steps,
            config.wf(),
            goal.in_range(),
            start.in_range(),
            obs == obstacles@,
            obs == map_points(octree@, octree@.depth_span() as int),
            whole == plan_from(start, goal, obs, config, 0, seq![start]),
            eps_sq == config.epsilon * config.epsilon,
            plan_from(current_pos, goal, obs, config, steps as nat, path@) == whole,
            -0x8000_0000 - steps * MAX_LENGTH <= current_pos.x <= 0x8000_0000 + steps * MAX_LENGTH,
            -0x8000_0000 - steps * MAX_LENGTH <= current_pos.y <= 0x8000_0000 + steps * MAX_LENGTH,
            -0x8000_0000 - steps * MAX_LENGTH <= current_pos.z <= 0x8000_0000 + steps * MAX_LENGTH,
        decreases config.max_steps - steps,
    {
        assert(steps * MAX_LENGTH <= 0x100_0000_0000_0000) by (nonlinear_arith)
            requires steps <= u32::MAX;
        if sq_distance(&current_pos, &goal) <= eps_sq {
            return Ok(path);
        }
        if steps >= config.max_steps {
            return Err(ApfError::MaxStepsReached);
        }
        let f_att = compute_attractive_force(&current_pos, &goal, config.k_att);
        let f_rep = compute_repulsive_force(&current_pos, &obstacles, config.k_rep, config.d0);
        let f_total = add_forces(f_att, f_rep);
        match scale_to_length(f_total.0, f_total.1, f_total.2, config.step_size as i64) {
            None => {
                return Err(ApfError::LocalMinimum);
            },
            Some(v) => {
                current_pos = Point3 {
                    x: current_pos.x + v.x,
                    y: current_pos.y + v.y,
                    z: current_pos.z + v.z,
                };
                path.push(current_pos);
                steps = steps + 1;
            },
        }
    }
}

/// Steps the planner takes along a straight run of length `dist` toward the
/// goal: one full step at a time until within `epsilon`.
pub open spec fn axis_steps(dist: int, step: int, epsilon: int) -> nat
    decreases if dist > 0 { dist } else { 0 },
{
    if dist <= epsilon || dist <= 0 || step <= 0 {
        0
    } else {
        1 + axis_steps(dist - step, step, epsilon)
    }
}

/// `q` lies at least `d0` from the obstacle `p`.
pub open spec fn clear_of(q: Point3, p: LaserPoint, d0: int) -> bool {
    sq_dist(q, Point3 { x: p.x as i64, y: p.y as i64, z: p.z as i64 }) >= d0 * d0
}

/// The planner position on the x axis line through `goal`.
pub open spec fn on_line(x: int, goal: Point3) -> Point3 {
    Point3 { x: x as i64, y: goal.y, z: goal.z }
}

/// No obstacle lies within `d0` of the part of the line between `x` and the
/// goal.
pub open spec fn corridor_clear(x: int, goal: Point3, obs: Seq<LaserPoint>, d0: int) -> bool {
    forall|i: int, w: int|
        0 <= i < obs.len() && (if x <= goal.x { x <= w <= goal.x } else { goal.x <= w <= x })
            ==> #[trigger] clear_of(on_line(w, goal), obs[i], d0)
}

proof fn lemma_no_repulsion(cur: Point3, obs: Seq<LaserPoint>, k: int, k_rep: int, d0: int)
    requires
        0 <= k <= obs.len(),
        forall|i: int| 0 <= i < obs.len() ==> #[trigger] clear_of(cur, obs[i], d0),
    ensures
        repulsion_sum(cur, obs, k, k_rep, d0) == (0int, 0int, 0int),
    decreases k,
{
    if k > 0 {
        lemma_no_repulsion(cur, obs, k - 1, k_rep, d0);
        assert(clear_of(cur, obs[k - 1], d0));
    }
}

/// A force along x alone, scaled to length `len >= 1`, is `len` along x with
/// the force's sign.
proof fn lemma_unit_along_x(f: int, len: int)
    requires
        f != 0,
        len >= 1,
    ensures
        unit_scaled(f, 0, 0, len) == Some(if f > 0 { (len, 0int, 0int) } else { (-len, 0int, 0int) }),
{
    let g = reduce_factor(f, 0, 0);
    let a = div_trunc(f, g);
    assert(g >= 1);
    crate::arith::lemma_reduce_keeps_sign(f, 0, 0, g);
    assert(div_trunc(0, g) == 0);
    assert(a != 0);
    assert(f > 0 ==> a > 0);
    assert(f < 0 ==> a < 0);
    let s = abs(a);
    assert(a * a == s * s) by (nonlinear_arith)
        requires s == abs(a);
    assert(is_sqrt_floor(a * a + 0 * 0 + 0 * 0, s)) by (nonlinear_arith)
        requires a * a == s * s, s >= 1;
    lemma_sqrt_floor((a * a + 0 * 0 + 0 * 0) as nat, s);
    assert((len * s) / s == len) by (nonlinear_arith)
        requires s >= 1;
    if a < 0 {
        assert(len * a == -(len * s)) by (nonlinear_arith)
            requires s == -a;
        assert(div_trunc(len * a, s) == -len);
    } else {
        assert(div_trunc(len * a, s) == len);
    }
}

/// One step on a clear axis: the planner moves a full step toward the goal.
proof fn lemma_axis_step(cur: Point3, goal: Point3, obs: Seq<LaserPoint>, c: ApfConfig)
    requires
        c.wf(),
        c.k_att >= 1,
        c.step_size >= 1,
        cur.y == goal.y,
        cur.z == goal.z,
        cur.x != goal.x,
        goal.in_range(),
        -0x8000_0000 <= cur.x <= 0x8000_0000,
        corridor_clear(cur.x as int, goal, obs, c.d0 as int),
    ensures
        next_waypoint(cur, goal, obs, c) == Some(
            on_line(
                if cur.x < goal.x {
                    cur.x + c.step_size
                } else {
                    cur.x - c.step_size
                },
                goal,
            ),
        ),
{
    assert(on_line(cur.x as int, goal) == cur);
    assert forall|i: int| 0 <= i < obs.len() implies #[trigger] clear_of(cur, obs[i], c.d0 as int) by {
        assert(clear_of(on_line(cur.x as int, goal), obs[i], c.d0 as int));
    }
    lemma_no_repulsion(cur, obs, obs.len() as int, c.k_rep as int, c.d0 as int);
    let k = c.k_att as int;
    let dx = goal.x - cur.x;
    assert(k * dx != 0 && (k * dx > 0 <==> dx > 0)) by (nonlinear_arith)
        requires k >= 1, dx != 0;
    assert(k * (goal.y - cur.y) == 0 && k * (goal.z - cur.z) == 0);
    lemma_unit_along_x(k * dx, c.step_size as int);
}

/// Along a clear axis the planner reaches the goal after `axis_steps`
/// steps, each a full step toward it.
proof fn lemma_axis_run(
    cur: Point3,
    goal: Point3,
    obs: Seq<LaserPoint>,
    c: ApfConfig,
    steps: nat,
    path: Seq<Point3>,
)
    requires
        c.wf(),
        c.k_att >= 1,
        1 <= c.step_size <= c.epsilon,
        cur.y == goal.y,
        cur.z == goal.z,
        goal.in_range(),
        cur.in_range(),
        corridor_clear(cur.x as int, goal, obs, c.d0 as int),
        steps + axis_steps(abs(goal.x - cur.x), c.step_size as int, c.epsilon as int) <= c.max_steps,
    ensures
        plan_from(cur, goal, obs, c, steps, path) is Ok,
        plan_from(cur, goal, obs, c, steps, path)->Ok_0.len() == path.len() + axis_steps(
            abs(goal.x - cur.x),
            c.step_size as int,
            c.epsilon as int,
        ),
    decreases abs(goal.x - cur.x),
{
    let d = abs(goal.x - cur.x);
    let e = c.epsilon as int;
    assert(sq_dist(cur, goal) == (cur.x - goal.x) * (cur.x - goal.x));
    if d <= e {
        assert((cur.x - goal.x) * (cur.x - goal.x) <= e * e) by (nonlinear_arith)
            requires abs(goal.x - cur.x) <= e, e >= 0;
    } else {
        assert((cur.x - goal.x) * (cur.x - goal.x) > e * e) by (nonlinear_arith)
            requires abs(goal.x - cur.x) > e, e >= 0;
        lemma_axis_step(cur, goal, obs, c);
        let nx = if cur.x < goal.x { cur.x + c.step_size } else { cur.x - c.step_size };
        let n = on_line(nx, goal);
        assert(abs(goal.x - n.x) == d - c.step_size);
        assert(corridor_clear(n.x as int, goal, obs, c.d0 as int)) by {
            assert forall|i: int, w: int|
                0 <= i < obs.len() && (if n.x <= goal.x { n.x <= w <= goal.x } else { goal.x <= w <= n.x })
                implies #[trigger] clear_of(on_line(w, goal), obs[i], c.d0 as int) by {
                assert(if cur.x <= goal.x { cur.x <= w <= goal.x } else { goal.x <= w <= cur.x });
            }
        }
        lemma_axis_run(n, goal, obs, c, steps + 1, path.push(n));
    }
}

/// Bound on the steps of a straight run: at most `dist / step` rounded up.
proof fn lemma_axis_steps_bound(dist: int, step: int, epsilon: int)
    requires
        step >= 1,
        epsilon >= 0,
    ensures
        axis_steps(dist, step, epsilon) * step <= if dist > 0 { dist + step - 1 } else { 0 },
    decreases if dist > 0 { dist } else { 0 },
{
    if dist > epsilon && dist > 0 {
        lemma_axis_steps_bound(dist - step, step, epsilon);
        let n = axis_steps(dist, step, epsilon) as int;
        let m = axis_steps(dist - step, step, epsilon) as int;
        assert(n == 1 + m);
        assert(n * step == m * step + step) by (nonlinear_arith)
            requires n == 1 + m;
        assert(m * step <= if dist - step > 0 { dist - 1 } else { 0 });
    } else {
        assert(axis_steps(dist, step, epsilon) == 0);
    }
}

/// Termination in open space, for a goal straight along the x axis: when
/// the goal differs from the start in x alone, no obstacle lies within
/// `d0` of the segment between them, the attractive gain is positive and the
/// goal radius is at least one step, the planner reaches the goal, and its
/// path has at most `|goal.x - start.x| / step_size` (rounded up) steps
/// after the start. This is the part of the general convergence claim that
/// holds exactly under integer rounding.
pub proof fn lemma_apf_axis_termination(start: Point3, goal: Point3, obs: Seq<LaserPoint>, c: ApfConfig)
    requires
        c.wf(),
        c.k_att >= 1,
        1 <= c.step_size <= c.epsilon,
        start.y == goal.y,
        start.z == goal.z,
        start.in_range(),
        goal.in_range(),
        corridor_clear(start.x as int, goal, obs, c.d0 as int),
        (abs(goal.x - start.x) + c.step_size - 1) / (c.step_size as int) <= c.max_steps,
    ensures
        plan_from(start, goal, obs, c, 0, seq![start]) is Ok,
        plan_from(start, goal, obs, c, 0, seq![start])->Ok_0.len() - 1 <= (abs(goal.x - start.x)
            + c.step_size - 1) / (c.step_size as int),
{
    let d = abs(goal.x - start.x);
    let st = c.step_size as int;
    lemma_axis_steps_bound(d, st, c.epsilon as int);
    let n = axis_steps(d, st, c.epsilon as int) as int;
    assert(n * st <= d + st - 1);
    assert(n <= (d + st - 1) / st) by (nonlinear_arith)
        requires n * st <= d + st - 1, st >= 1, n >= 0, d >= 0;
    lemma_axis_run(start, goal, obs, c, 0, seq![start]);
}

} // verus!
