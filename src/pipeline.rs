//! One integration window, from points to the occupancy tree.
use vstd::prelude::*;
use crate::geometry::{Aabb, LaserPoint, Point3, COORD_LIMIT};
use crate::octree::Octree;
use crate::octree_view::{NodeView, free_leaf, lemma_insert};
use crate::voxel::{voxel_filter, voxel_grid_filter, lemma_voxel_keys_len};

verus! {

/// Depth used when a maximum depth of 0 is asked for.
pub const FALLBACK_MAX_DEPTH: u32 = 6;

/// The maximum depth in effect: `max_depth`, or `FALLBACK_MAX_DEPTH` for 0.
pub open spec fn effective_depth(max_depth: u32) -> nat {
    if max_depth < 1 { FALLBACK_MAX_DEPTH as nat } else { max_depth as nat }
}

/// The tree after inserting the points of `pts` in order.
pub open spec fn insert_all(t: NodeView, pts: Seq<LaserPoint>, max_depth: nat) -> NodeView
    decreases pts.len(),
{
    if pts.len() == 0 {
        t
    } else {
        insert_all(t, pts.drop_last(), max_depth).insert(
            pts.last().pos(),
            0,
            max_depth,
            pts.last().reflectivity as nat,
        )
    }
}

/// Builds the tree of one window: the points, downsampled on a grid of edge
/// `voxel_size`, inserted into a cube of half-edge `boundary` down to the
/// effective maximum depth.
pub fn build_octree(points: &Vec<LaserPoint>, boundary: i64, max_depth: u32, voxel_size: u32) -> (r:
    Octree)
    requires
        0 < boundary <= COORD_LIMIT,
        points@.len() <= 0x4000_0000,
    ensures
        r.wf(),
        r@ == insert_all(
            free_leaf(Aabb::cube(boundary), 0),
            voxel_filter(points@, voxel_size as int),
            effective_depth(max_depth),
        ),
{
    let md: u32 = if max_depth < 1 { FALLBACK_MAX_DEPTH } else { max_depth };
    let filtered = voxel_grid_filter(points, voxel_size);
    proof {
        lemma_voxel_keys_len(points@, voxel_size as int);
    }
    let bounds = Aabb {
        min: Point3 { x: -boundary, y: -boundary, z: -boundary },
        max: Point3 { x: boundary, y: boundary, z: boundary },
    };
    let mut octree = Octree::new(bounds);
    let ghost root = free_leaf(Aabb::cube(boundary), 0);
    let mut i: usize = 0;
    while i < filtered.len()
        invariant
            i <= filtered@.len(),
            filtered@.len() <= 0x4000_0000,
            md == effective_depth(max_depth),
            octree.wf(),
            octree@ == insert_all(root, filtered@.subrange(0, i as int), md as nat),
            octree@.count() <= i,
        decreases filtered@.len() - i,
    {
        let p = filtered[i];
        proof {
            octree.lemma_wf();
            lemma_insert(octree@, p.pos(), 0, md as nat, p.reflectivity as nat);
            let post = filtered@.subrange(0, i as int + 1);
            assert(post.drop_last() =~= filtered@.subrange(0, i as int));
            assert(post.last() == p);
        }
        octree.insert(Point3 { x: p.x as i64, y: p.y as i64, z: p.z as i64 }, md, p.reflectivity);
        i = i + 1;
    }
    proof {
        assert(filtered@.subrange(0, filtered@.len() as int) =~= filtered@);
    }
    octree
}

} // verus!
