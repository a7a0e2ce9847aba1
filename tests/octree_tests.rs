use lidar_nav::geometry::{Aabb, LaserPoint, Point3};
use lidar_nav::pipeline::build_octree;
use lidar_nav::ray::{aabb_ray_intersection, make_ray};
use lidar_nav::octree::{Octree, OctreeNode};
use lidar_nav::octree_view::Occupancy;

fn cube(b: i64) -> Aabb {
    Aabb {
        min: Point3::new(-b, -b, -b),
        max: Point3::new(b, b, b),
    }
}

fn single_point_tree() -> Octree {
    let mut t = Octree::new(cube(10_000));
    t.insert(Point3::new(1000, 0, 0), 3, 200);
    t.optimize();
    t
}

#[test]
fn empty_tree_has_empty_map_and_no_hits() {
    let mut t = Octree::new(cube(10_000));
    t.optimize();
    assert_eq!(t.octree_to_map().len(), 0);
    assert_eq!(t.sample_count(), 0);
    assert!(t.cast_ray(Point3::new(0, 0, 0), Point3::new(1, 0, 0), 5000).is_none());
    assert!(t.cast_ray(Point3::new(-9000, 3, 7), Point3::new(2, 1, -1), 100_000).is_none());
}

#[test]
fn single_point_occupies_one_leaf_at_max_depth() {
    let t = single_point_tree();
    let map = t.octree_to_map();
    // the only depth present is 3
    assert_eq!(map.len(), 1);
    assert_eq!(map[0].0, 3);
    assert_eq!(map[0].1.len(), 1);
    let p = map[0].1[0];
    assert_eq!((p.x, p.y, p.z), (1250, -1250, -1250));
    assert_eq!(p.reflectivity, 200);
    assert_eq!(t.sample_count(), 1);
}

#[test]
fn ray_from_origin_hits_near_face() {
    let t = single_point_tree();
    let hit = t.cast_ray(Point3::new(0, 0, 0), Point3::new(1, 0, 0), 5000).unwrap();
    assert_eq!(hit.num, 0);
    assert_eq!(hit.den, 1);
}

#[test]
fn ray_from_outside_enters_at_face() {
    let t = single_point_tree();
    let hit = t.cast_ray(Point3::new(-5000, -1, -1), Point3::new(1, 0, 0), 6000).unwrap();
    assert_eq!((hit.num, hit.den), (5000, 1));
    // scaled direction: t = 2500 / 1
    let hit2 = t.cast_ray(Point3::new(-5000, -1, -1), Point3::new(2, 0, 0), 6000).unwrap();
    assert_eq!((hit2.num, hit2.den), (5000, 2));
    // a ray that passes beside the cell misses
    assert!(t.cast_ray(Point3::new(-5000, 100, -1), Point3::new(1, 0, 0), 20_000).is_none());
}

#[test]
fn ray_hit_is_monotone_in_range() {
    let t = single_point_tree();
    let o = Point3::new(-5000, -1, -1);
    let d = Point3::new(1, 0, 0);
    assert!(t.cast_ray(o, d, 4999).is_none());
    let a = t.cast_ray(o, d, 5000).unwrap();
    let b = t.cast_ray(o, d, 9000).unwrap();
    let c = t.cast_ray(o, d, 4_000_000_000).unwrap();
    assert_eq!(a, b);
    assert_eq!(b, c);
}

#[test]
fn insert_into_fresh_tree_gives_one_occupied_leaf_holding_point() {
    let mut t = Octree::new(cube(10_000));
    t.insert(Point3::new(-3333, 4444, 10_000), 5, 9);
    let map = t.octree_to_map();
    assert_eq!(map.len(), 1);
    assert_eq!(map[0].0, 5);
    assert_eq!(map[0].1.len(), 1);
    let p = map[0].1[0];
    // leaf edge at depth 5 is 20000 / 32 = 625
    assert!((p.x as i64 - -3333).abs() <= 313);
    assert!((p.y as i64 - 4444).abs() <= 313);
    assert!((p.z as i64 - 10_000).abs() <= 313);
}

#[test]
fn out_of_bounds_insert_is_ignored() {
    let mut t = Octree::new(cube(1000));
    t.insert(Point3::new(1001, 0, 0), 4, 50);
    assert_eq!(t.sample_count(), 0);
    assert_eq!(t.octree_to_map().len(), 0);
}

#[test]
fn repeated_point_accumulates_in_one_leaf() {
    let mut t = Octree::new(cube(10_000));
    t.insert(Point3::new(10, 10, 10), 4, 100);
    t.insert(Point3::new(10, 10, 10), 4, 201);
    t.insert(Point3::new(11, 12, 13), 4, 50);
    assert_eq!(t.sample_count(), 3);
    let map = t.octree_to_map();
    assert_eq!(map.len(), 1);
    assert_eq!(map[0].0, 4);
    assert_eq!(map[0].1.len(), 1);
    // (100 + 201 + 50) / 3 = 117
    assert_eq!(map[0].1[0].reflectivity, 117);
}

#[test]
fn full_octants_merge_into_one_leaf() {
    let mut t = Octree::new(cube(100));
    let r = [10u8, 20, 30, 40, 50, 60, 70, 81];
    let mut i = 0;
    for z in [-50i64, 50] {
        for y in [-50i64, 50] {
            for x in [-50i64, 50] {
                t.insert(Point3::new(x, y, z), 1, r[i]);
                i += 1;
            }
        }
    }
    let before = t.octree_to_map();
    assert_eq!(before.len(), 1);
    assert_eq!((before[0].0, before[0].1.len()), (1, 8));
    t.optimize();
    let map = t.octree_to_map();
    assert_eq!(map.len(), 1);
    assert_eq!((map[0].0, map[0].1.len()), (0, 1));
    // (10 + 20 + ... + 70 + 81) / 8 = 361 / 8 = 45.125
    assert_eq!(map[0].1[0].reflectivity, 45);
    assert_eq!(t.sample_count(), 8);
    match t.get_root() {
        OctreeNode::Leaf { occupancy, refl_sum, refl_count, depth, .. } => {
            assert_eq!(*occupancy, Occupancy::Occupied);
            assert_eq!((*refl_sum, *refl_count, *depth), (361, 8, 0));
        }
        OctreeNode::Internal { .. } => panic!("expected a merged leaf"),
    }
}

#[test]
fn optimize_twice_changes_nothing() {
    let mut t = Octree::new(cube(10_000));
    t.insert(Point3::new(1000, 0, 0), 3, 200);
    t.insert(Point3::new(-4000, 2000, 100), 3, 10);
    t.insert(Point3::new(-4000, 2000, 101), 3, 30);
    t.optimize();
    let once = t.octree_to_map();
    t.optimize();
    let twice = t.octree_to_map();
    assert_eq!(once, twice);
    assert_eq!(t.sample_count(), 3);
}

#[test]
fn refresh_empties_the_tree() {
    let mut t = single_point_tree();
    t.refresh();
    assert_eq!(t.sample_count(), 0);
    assert_eq!(t.octree_to_map().len(), 0);
    let root = t.get_root();
    assert_eq!(root.bounds().max.x, 10_000);
    assert_eq!(root.center(), Point3::new(0, 0, 0));
}

#[test]
fn build_octree_filters_and_uses_fallback_depth() {
    let pts = vec![
        LaserPoint::new(1000, 0, 0, 200),
        LaserPoint::new(1010, 5, 5, 100),
        LaserPoint::new(20_000, 0, 0, 9),
    ];
    // depth 0 stands for 6; the two close points share an 80 mm voxel and
    // the far one lies outside the 10 m cube
    let t = build_octree(&pts, 10_000, 0, 80);
    assert_eq!(t.sample_count(), 1);
    let map = t.octree_to_map();
    assert_eq!(map.len(), 1);
    assert_eq!((map[0].0, map[0].1.len()), (6, 1));
    assert_eq!(map[0].1[0].reflectivity, 150);
    // without filtering the two samples lie on either side of the y = 0
    // split, so each occupies its own depth-6 cell
    let u = build_octree(&pts, 10_000, 6, 10);
    assert_eq!(u.sample_count(), 2);
    let umap = u.octree_to_map();
    assert_eq!(umap.len(), 1);
    assert_eq!((umap[0].0, umap[0].1.len()), (6, 2));
    assert_eq!(umap[0].1[0].reflectivity, 200);
    assert_eq!(umap[0].1[1].reflectivity, 100);
}

#[test]
fn map_lists_only_occupied_depths_in_order() {
    let mut t = Octree::new(cube(10_000));
    t.insert(Point3::new(1000, 0, 0), 1, 7);
    t.insert(Point3::new(-1000, -1000, -1000), 4, 9);
    t.insert(Point3::new(-1000, 1000, -1000), 4, 11);
    let map = t.octree_to_map();
    let depths: Vec<u32> = map.iter().map(|e| e.0).collect();
    assert_eq!(depths, vec![1, 4]);
    assert!(map.iter().all(|e| !e.1.is_empty()));
    assert_eq!(map[1].1.len(), 2);
}

#[test]
fn slab_times_are_raw_and_include_boxes_behind() {
    let b = Aabb { min: Point3::new(0, -1, -1), max: Point3::new(5, 1, 1) };
    // a box wholly behind the ray: entered at t = -10, left at t = -5
    let behind = make_ray(Point3::new(10, 0, 0), Point3::new(1, 0, 0));
    assert_eq!(aabb_ray_intersection(&b, &behind), Some((-10, -5)));
    // origin inside: entry is negative, not clamped
    let inside = make_ray(Point3::new(2, 0, 0), Point3::new(-1, 0, 0));
    assert_eq!(aabb_ray_intersection(&b, &inside), Some((-3, 2)));
    // a parallel axis outside the slab misses
    let beside = make_ray(Point3::new(-3, 5, 0), Point3::new(1, 0, 0));
    assert_eq!(aabb_ray_intersection(&b, &beside), None);
    // a zero direction inside the box: unbounded both ways
    let still = make_ray(Point3::new(1, 0, 0), Point3::new(0, 0, 0));
    assert_eq!(aabb_ray_intersection(&b, &still), Some((i128::MIN, i128::MAX)));
    // slabs that do not overlap
    let skew = make_ray(Point3::new(-1, -10, 0), Point3::new(1, 1, 0));
    assert_eq!(aabb_ray_intersection(&b, &skew), None);
}
