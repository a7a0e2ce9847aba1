use lidar_nav::color::reflectivity_to_rgb;
use lidar_nav::geometry::LaserPoint;
use lidar_nav::grouping::{divide_points, get_size};
use lidar_nav::voxel::voxel_grid_filter;

fn pts() -> Vec<LaserPoint> {
    vec![
        LaserPoint::new(10, 10, 10, 100),
        LaserPoint::new(70, 30, 20, 201),
        LaserPoint::new(-10, 5, 5, 7),
        LaserPoint::new(20, 40, 60, 50),
        LaserPoint::new(-79, 79, 1, 8),
    ]
}

#[test]
fn voxel_filter_averages_each_cell() {
    let out = voxel_grid_filter(&pts(), 80);
    // cells of edge 80: (0,0,0) holds the first, second and fourth points;
    // (-1,0,0) holds the third and fifth
    assert_eq!(out.len(), 2);
    assert_eq!(out[0], LaserPoint::new(33, 26, 30, 117));
    // x: (-10 - 79) / 2 = -44.5, rounded down to -45
    assert_eq!(out[1], LaserPoint::new(-45, 42, 3, 8));
}

#[test]
fn voxel_filter_below_minimum_edge_copies() {
    assert_eq!(voxel_grid_filter(&pts(), 49), pts());
    assert_eq!(voxel_grid_filter(&vec![], 80), vec![]);
}

#[test]
fn voxel_filter_is_idempotent() {
    let once = voxel_grid_filter(&pts(), 80);
    assert_eq!(voxel_grid_filter(&once, 80), once);
    let once50 = voxel_grid_filter(&pts(), 50);
    assert_eq!(voxel_grid_filter(&once50, 50), once50);
}

#[test]
fn reflectivity_colour_ramp() {
    assert_eq!(reflectivity_to_rgb(0), (0, 0, 255));
    assert_eq!(reflectivity_to_rgb(85), (0, 255, 255));
    assert_eq!(reflectivity_to_rgb(170), (255, 255, 0));
    assert_eq!(reflectivity_to_rgb(255), (255, 0, 0));
    // 40 / 85 * 255 = 120
    assert_eq!(reflectivity_to_rgb(40), (0, 120, 255));
    // (100 - 85) / 85 * 255 = 45; 255 - 45 = 210
    assert_eq!(reflectivity_to_rgb(100), (45, 255, 210));
    // (200 - 170) / 85 * 255 = 90
    assert_eq!(reflectivity_to_rgb(200), (255, 165, 0));
}

#[test]
fn grouping_by_reflectivity() {
    let mut p = pts();
    p.push(LaserPoint::new(1, 2, 3, 100));
    let g = divide_points(p);
    assert_eq!(g.len(), 256);
    assert_eq!(g[100], vec![LaserPoint::new(10, 10, 10, 100), LaserPoint::new(1, 2, 3, 100)]);
    assert_eq!(g[7], vec![LaserPoint::new(-10, 5, 5, 7)]);
    assert!(g[0].is_empty());
}

#[test]
fn finest_cell_size() {
    assert_eq!(get_size(10_000, 0), 20_000);
    assert_eq!(get_size(10_000, 3), 2500);
    assert_eq!(get_size(10_000, 7), 156);
}
