use lidar_nav::apf::{apf_plan, ApfConfig, ApfError};
use lidar_nav::avoidance::{
    crash_warn_for_octree, crash_warn_for_point, obstacle_avoidance, MavlinkArgs, Obstacle,
    MASK_VELOCITY, MASK_YAW_RATE,
};
use lidar_nav::geometry::{Aabb, LaserPoint, Point3};
use lidar_nav::octree::Octree;

fn cube(b: i64) -> Aabb {
    Aabb {
        min: Point3::new(-b, -b, -b),
        max: Point3::new(b, b, b),
    }
}

#[test]
fn apf_reaches_goal_in_open_space() {
    let t = Octree::new(cube(10_000));
    let goal = Point3::new(5000, 0, 0);
    let path = apf_plan(Point3::new(0, 0, 0), goal, &t, ApfConfig::default()).unwrap();
    let last = *path.last().unwrap();
    let dx = (last.x - goal.x) as i128;
    let dy = (last.y - goal.y) as i128;
    let dz = (last.z - goal.z) as i128;
    assert!(dx * dx + dy * dy + dz * dz <= 100 * 100);
    assert!((path.len() as i64 - 50).abs() <= 2);
    assert_eq!(path[0], Point3::new(0, 0, 0));
    assert_eq!(path[1], Point3::new(100, 0, 0));
}

#[test]
fn apf_at_goal_returns_start_only() {
    let t = Octree::new(cube(10_000));
    let path = apf_plan(Point3::new(5, 5, 5), Point3::new(0, 0, 0), &t, ApfConfig::default()).unwrap();
    assert_eq!(path, vec![Point3::new(5, 5, 5)]);
}

#[test]
fn apf_gives_up_after_max_steps() {
    let t = Octree::new(cube(10_000));
    let mut c = ApfConfig::default();
    c.max_steps = 10;
    let r = apf_plan(Point3::new(0, 0, 0), Point3::new(5000, 0, 0), &t, c);
    assert_eq!(r, Err(ApfError::MaxStepsReached));
}

#[test]
fn apf_local_minimum_when_forces_cancel() {
    let t = Octree::new(cube(10_000));
    let mut c = ApfConfig::default();
    c.k_att = 0;
    let r = apf_plan(Point3::new(0, 0, 0), Point3::new(5000, 0, 0), &t, c);
    assert_eq!(r, Err(ApfError::LocalMinimum));
}

#[test]
fn apf_is_pushed_off_line_by_obstacle() {
    let mut t = Octree::new(cube(10_000));
    t.insert(Point3::new(300, 50, 0), 7, 100);
    t.optimize();
    let path = apf_plan(Point3::new(0, 0, 0), Point3::new(5000, 0, 0), &t, ApfConfig::default()).unwrap();
    assert!(path.iter().any(|p| p.y != 0));
    assert!(path.len() >= 50);
}

#[test]
fn avoidance_flies_away_from_single_obstacle() {
    let list = vec![Obstacle { distance: 300, x: 300, y: 0, z: 0 }];
    let cmd = obstacle_avoidance(&list, 500);
    assert_eq!(cmd.type_mask, 0b0000001000000000);
    assert_eq!((cmd.vx, cmd.vy, cmd.vz), (-1000, 0, 0));
}

#[test]
fn avoidance_spins_for_obstacle_at_origin() {
    let list = vec![Obstacle { distance: 0, x: 0, y: 0, z: 0 }];
    let cmd = obstacle_avoidance(&list, 500);
    assert_eq!(cmd.type_mask, 0b010111111111);
    assert_eq!(cmd.yaw_rate, 500);
    assert_eq!((cmd.vx, cmd.vy, cmd.vz), (0, 0, 0));
}

#[test]
fn avoidance_holds_without_threat() {
    let hold = MavlinkArgs::new(0, 1, 1, 9, MASK_VELOCITY, 0, 0, 0, 0, 0, 0, 0, 0, 0, 0, 0);
    assert_eq!(obstacle_avoidance(&vec![], 500), hold);
    let far = vec![Obstacle { distance: 900, x: 0, y: 900, z: 0 }];
    assert_eq!(obstacle_avoidance(&far, 500), hold);
}

#[test]
fn avoidance_converts_to_frd() {
    // obstacle up and to the left: fly down and right, i.e. +y and +z in FRD
    let list = vec![Obstacle { distance: 400, x: 0, y: 0, z: 400 }];
    let cmd = obstacle_avoidance(&list, 500);
    assert_eq!(cmd.type_mask, MASK_VELOCITY);
    assert_eq!((cmd.vx, cmd.vy, cmd.vz), (0, 0, 1000));
    let list2 = vec![Obstacle { distance: 400, x: 0, y: 400, z: 0 }];
    let cmd2 = obstacle_avoidance(&list2, 500);
    assert_eq!((cmd2.vx, cmd2.vy, cmd2.vz), (0, 1000, 0));
}

#[test]
fn avoidance_opposite_obstacles_cancel_and_flee_nearest() {
    let list = vec![
        Obstacle { distance: 200, x: 200, y: 0, z: 0 },
        Obstacle { distance: 200, x: -200, y: 0, z: 0 },
    ];
    let cmd = obstacle_avoidance(&list, 500);
    assert_eq!(cmd.type_mask, MASK_VELOCITY);
    assert_eq!((cmd.vx, cmd.vy, cmd.vz), (-1000, 0, 0));
    assert_ne!(cmd.yaw_rate, 500);
    assert_eq!(MASK_YAW_RATE, 0b010111111111);
}

#[test]
fn crash_warning_scans_tree() {
    let mut t = Octree::new(cube(10_000));
    t.insert(Point3::new(300, 0, 0), 7, 10);
    t.insert(Point3::new(9000, 9000, 0), 7, 10);
    t.optimize();
    let (warn, list) = crash_warn_for_octree(&t, 500);
    assert!(warn);
    assert_eq!(list.len(), 1);
    // the depth-7 cell holding (300, 0, 0) spans x in [156, 312] and is centred at x = 234 (y and z at -79)
    assert_eq!((list[0].x, list[0].y, list[0].z), (234, -79, -79));
    assert_eq!(list[0].distance, 259);
    let (none, empty) = crash_warn_for_octree(&Octree::new(cube(100)), 500);
    assert!(!none && empty.is_empty());
    assert!(crash_warn_for_point(LaserPoint::new(3, 4, 0, 1), 6));
    assert!(!crash_warn_for_point(LaserPoint::new(3, 4, 0, 1), 5));
}

#[test]
fn apf_without_influence_radius_ignores_obstacles() {
    let mut t = Octree::new(cube(10_000));
    t.insert(Point3::new(300, 0, 0), 7, 100);
    let mut c = ApfConfig::default();
    c.d0 = 0;
    let path = apf_plan(Point3::new(0, 0, 0), Point3::new(1000, 0, 0), &t, c).unwrap();
    assert_eq!(path.len(), 10);
    assert!(path.iter().all(|p| p.y == 0 && p.z == 0));
}
