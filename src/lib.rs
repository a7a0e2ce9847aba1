//! Onboard perception and planning core for a small aerial vehicle with a
//! rotating LiDAR: packet decoding, voxel downsampling, a sparse occupancy
//! octree with merging and ray casting, a reactive avoidance controller and an
//! artificial potential field planner.
//!
//! All geometry is fixed point: lengths are integer millimetres, so every
//! computation below is exact and its contract speaks of integers.
pub mod arith;
pub mod geometry;
pub mod frames;
pub mod packet;
pub mod ray;
pub mod octree_view;
pub mod octree;
pub mod avoidance;
pub mod apf;
pub mod input;
pub mod voxel;
pub mod color;
pub mod grouping;
pub mod pipeline;
