//! The sparse occupancy octree: insertion, bottom-up merging, projection to
//! a depth-indexed point map, and ray casting.
use vstd::prelude::*;
use crate::geometry::{Aabb, LaserPoint, Point3, get_index, lemma_octants};
use crate::ray::{Ray, aabb_ray_intersection, lemma_slabs_box, make_ray, time_scale};
use crate::octree_view::{
    MAX_SAMPLES, NodeView, Occupancy, free_leaf, lemma_insert, lemma_optimize, lemma_split_children,
    lemma_wf_facts, split_children, refl_prefix, count_prefix, lemma_prefix_mono, lemma_prefix_total,
    points_prefix, span_prefix, max2, round_div, leaf_point, lemma_points_prefix_total,
    lemma_points_beyond_span, lemma_span_bound, lemma_points_prefix_beyond, at_most,
    hit_prefix, lemma_hit_prefix_total, lemma_first_hit_in_box, hit_masked, count_true,
    lemma_count_true_set, lemma_hit_masked_union, lemma_hit_masked_all, lemma_hit_masked_late,
    lemma_single_mask, lemma_none_mask,
};

verus! {

/// A node of the tree. The center of a node is the midpoint of its box
/// (`center`); it is computed, not stored.
#[derive(Debug)]
pub enum OctreeNode {
    Internal { bounds: Aabb, depth: u32, children: Vec<OctreeNode> },
    Leaf {
        bounds: Aabb,
        depth: u32,
        occupancy: Occupancy,
        refl_sum: u64,
        refl_count: u64,
    },
}

impl OctreeNode {
    pub open spec fn view(&self) -> NodeView
        decreases self,
    {
        match self {
            OctreeNode::Internal { bounds, depth, children } => NodeView::Internal {
                bounds: *bounds,
                depth: *depth as nat,
                children: Seq::new(
                    children.len() as nat,
                    |i: int|
                        if 0 <= i < children.len() {
                            children@[i].view()
                        } else {
                            free_leaf(*bounds, 0)
                        },
                ),
            },
            OctreeNode::Leaf { bounds, depth, occupancy, refl_sum, refl_count } => NodeView::Leaf {
                bounds: *bounds,
                depth: *depth as nat,
                occupancy: *occupancy,
                refl_sum: *refl_sum as nat,
                refl_count: *refl_count as nat,
            },
        }
    }

    /// The node's box.
    pub fn bounds(&self) -> (r: &Aabb)
        ensures
            *r == self@.bounds(),
    {
        match self {
            OctreeNode::Leaf { bounds, .. } => bounds,
            OctreeNode::Internal { bounds, .. } => bounds,
        }
    }

    /// Earliest scaled time at which `ray` enters an occupied leaf of this
    /// subtree, if that time is no later than `limit`. The children of an
    /// internal node are visited in order of the time the ray enters them;
    /// those the ray misses, or enters after the best time found so far, are
    /// skipped.
    pub fn cast_ray(&self, ray: &Ray, limit: i128) -> (r: Option<i128>)
        requires
            self@.wf(),
            ray.wf(),
        ensures
            opt_int(r) == at_most(self@.first_hit(ray.origin, ray.direction), limit as int),
        decreases self,
    {
        let ghost o = ray.origin;
        let ghost d = ray.direction;
        proof {
            lemma_first_hit_in_box(self@, o, d);
            lemma_slabs_box(self@.bounds(), o, d);
        }
        let (raw_enter, raw_exit) = match aabb_ray_intersection(self.bounds(), ray) {
            None => {
                return None;
            },
            Some(span) => span,
        };
        // a box left before time 0 lies behind the ray
        if raw_exit < 0 {
            return None;
        }
        // an origin inside the box enters it at time 0
        let enter = if raw_enter < 0 {
            0
        } else {
            raw_enter
        };
        if enter > limit {
            return None;
        }
        match self {
            OctreeNode::Leaf { occupancy, .. } => {
                if *occupancy == Occupancy::Occupied {
                    Some(enter)
                } else {
                    None
                }
            },
            OctreeNode::Internal { children, .. } => {
                let ghost kids = self@->Internal_children;
                proof {
                    lemma_hit_prefix_total(self@, o, d);
                    lemma_octants(self@.bounds());
                    assert(forall|j: int| 0 <= j < 8 ==> children@[j]@ == kids[j]);
                }
                // entry time of each child the ray meets within the limit
                let mut enters: Vec<Option<i128>> = Vec::with_capacity(8);
                let mut i: usize = 0;
                while i < 8
                    invariant
                        i <= 8,
                        kids.len() == 8,
                        children@.len() == 8,
                        ray.wf(),
                        o == ray.origin,
                        d == ray.direction,
                        forall|j: int| 0 <= j < 8 ==> (#[trigger] children@[j])@ == kids[j],
                        forall|j: int| 0 <= j < 8 ==> (#[trigger] kids[j]).wf(),
                        enters@.len() == i,
                        forall|j: int| 0 <= j < i ==> (#[trigger] enters@[j]) is Some ==> enters@[j]->0 <= limit
                            && (kids[j].first_hit(o, d) is None || kids[j].first_hit(o, d)->0 >= enters@[j]->0),
                        forall|j: int| 0 <= j < i ==> (#[trigger] enters@[j]) is None ==> kids[j].first_hit(o, d) is None
                            || kids[j].first_hit(o, d)->0 > limit,
                    decreases 8 - i,
                {
                    proof {
                        lemma_first_hit_in_box(kids[i as int], o, d);
                        lemma_slabs_box(kids[i as int].bounds(), o, d);
                    }
                    let e = match aabb_ray_intersection(children[i].bounds(), ray) {
                        Some((raw_enter, raw_exit)) => {
                            let t = if raw_enter < 0 {
                                0
                            } else {
                                raw_enter
                            };
                            if raw_exit >= 0 && t <= limit {
                                Some(t)
                            } else {
                                None
                            }
                        },
                        None => None,
                    };
                    enters.push(e);
                    i = i + 1;
                }
                let mut visited: Vec<bool> = Vec::with_capacity(8);
                let mut k: usize = 0;
                while k < 8
                    invariant
                        k <= 8,
                        visited@.len() == k,
                        forall|j: int| 0 <= j < k ==> !(#[trigger] visited@[j]),
                    decreases 8 - k,
                {
                    visited.push(false);
                    k = k + 1;
                }
                let mut best: Option<i128> = None;
                let mut n_visited: usize = 0;
                proof {
                    lemma_none_mask(kids, visited@, 8, o, d);
                }
                loop
                    invariant
                        kids.len() == 8,
                        children@.len() == 8,
                        ray.wf(),
                        o == ray.origin,
                        d == ray.direction,
                        forall|j: int| 0 <= j < 8 ==> (#[trigger] children@[j])@ == kids[j],
                        forall|j: int| 0 <= j < 8 ==> decreases_to!(self => children@[j]),
                        forall|j: int| 0 <= j < 8 ==> (#[trigger] kids[j]).wf(),
                        enters@.len() == 8,
                        forall|j: int| 0 <= j < 8 ==> (#[trigger] enters@[j]) is Some ==> enters@[j]->0 <= limit
                            && (kids[j].first_hit(o, d) is None || kids[j].first_hit(o, d)->0 >= enters@[j]->0),
                        forall|j: int| 0 <= j < 8 ==> (#[trigger] enters@[j]) is None ==> kids[j].first_hit(o, d) is None
                            || kids[j].first_hit(o, d)->0 > limit,
                        visited@.len() == 8,
                        n_visited == count_true(visited@, 8),
                        n_visited <= 8,
                        opt_int(best) == at_most(hit_masked(kids, visited@, 8, o, d), limit as int),
                        best is Some ==> best->0 <= limit,
                        hit_prefix(kids, 8, o, d) == self@.first_hit(o, d),
                    ensures
                        opt_int(best) == at_most(self@.first_hit(o, d), limit as int),
                    decreases 8 - n_visited,
                {
                    let cur = match best {
                        Some(t) => t,
                        None => limit,
                    };
                    // the unvisited child entered first, if no later than `cur`
                    let mut pick: usize = 8;
                    let mut pick_t: i128 = 0;
                    let mut j: usize = 0;
                    while j < 8
                        invariant
                            j <= 8,
                            enters@.len() == 8,
                            visited@.len() == 8,
                            pick == 8 || (pick < j && !visited@[pick as int] && enters@[pick as int] == Some(pick_t) && pick_t <= cur),
                            forall|jj: int| 0 <= jj < j && !visited@[jj] && (#[trigger] enters@[jj]) is Some
                                && enters@[jj]->0 <= cur ==> pick != 8,
                        decreases 8 - j,
                    {
                        if !visited[j] {
                            if let Some(t) = enters[j] {
                                if t <= cur && (pick == 8 || t < pick_t) {
                                    pick = j;
                                    pick_t = t;
                                }
                            }
                        }
                        j = j + 1;
                    }
                    if pick == 8 {
                        proof {
                            let unvisited = Seq::new(8, |jj: int| !visited@[jj]);
                            let all = Seq::new(8, |jj: int| true);
                            assert forall|jj: int| 0 <= jj < 8 && unvisited[jj] implies (#[trigger] kids[jj].first_hit(o, d)) is None
                                || kids[jj].first_hit(o, d)->0 > cur by {
                                if enters@[jj] is Some {
                                    assert(!(enters@[jj]->0 <= cur));
                                }
                            }
                            lemma_hit_masked_union(kids, visited@, unvisited, all, 8, o, d);
                            lemma_hit_masked_all(kids, all, 8, o, d);
                            lemma_hit_masked_late(kids, unvisited, 8, o, d, cur as int);
                            assert(opt_int(best) == at_most(self@.first_hit(o, d), limit as int));
                        }
                        break;
                    }
                    let ghost before = visited@;
                    proof {
                        lemma_count_true_set(before, pick as int, 8);
                        let single = Seq::new(8, |jj: int| jj == pick as int);
                        lemma_hit_masked_union(kids, before, single, before.update(pick as int, true), 8, o, d);
                        let none = Seq::new(8, |jj: int| false);
                        lemma_hit_masked_late(kids, none, 8, o, d, 0);
                        lemma_hit_masked_union(kids, none, single, single, 8, o, d);
                        lemma_single_mask(kids, single, pick as int, 8, o, d);
                    }
                    visited.set(pick, true);
                    n_visited = n_visited + 1;
                    let found = children[pick].cast_ray(ray, cur);
                    if let Some(t) = found {
                        match best {
                            Some(b) => {
                                if t < b {
                                    best = Some(t);
                                }
                            },
                            None => {
                                best = Some(t);
                            },
                        }
                    }
                }
                best
            },
        }
    }

    /// The node's center: the midpoint of its box.
    pub fn center(&self) -> (r: Point3)
        requires
            self@.bounds().wf(),
        ensures
            r == self@.bounds().mid_spec(),
    {
        self.bounds().mid()
    }
}

/// An optional exact time as an optional integer.
pub open spec fn opt_int(r: Option<i128>) -> Option<int> {
    match r {
        Some(t) => Some(t as int),
        None => None,
    }
}

/// A free leaf over `bounds` at `depth`.
fn new_leaf(bounds: Aabb, depth: u32) -> (r: OctreeNode)
    ensures
        r@ == free_leaf(bounds, depth as nat),
{
    OctreeNode::Leaf { bounds, depth, occupancy: Occupancy::Free, refl_sum: 0, refl_count: 0 }
}

/// The eight free leaves that cover the octants of `bounds`, one level deeper.
fn create_children(bounds: &Aabb, depth: u32) -> (r: Vec<OctreeNode>)
    requires
        bounds.wf(),
        depth < u32::MAX,
    ensures
        r@.len() == 8,
        forall|i: int| 0 <= i < 8 ==> (#[trigger] r@[i])@ == split_children(*bounds, depth as nat)[i],
{
    let mut children: Vec<OctreeNode> = Vec::with_capacity(8);
    let mut i: usize = 0;
    while i < 8
        invariant
            bounds.wf(),
            depth < u32::MAX,
            i <= 8,
            children@.len() == i,
            forall|j: int|
                0 <= j < i ==> (#[trigger] children@[j])@ == split_children(*bounds, depth as nat)[j],
        decreases 8 - i,
    {
        children.push(new_leaf(bounds.octant(i), depth + 1));
        i = i + 1;
    }
    children
}

/// Inserts a sample into the subtree `node` at depth `d` (see
/// `NodeView::insert`).
#[verifier::rlimit(60)]
fn insert_internal(node: OctreeNode, point: &Point3, d: u32, max_depth: u32, r: u8) -> (res:
    OctreeNode)
    requires
        node@.wf(),
        node@.depth() == d,
        node@.count() < MAX_SAMPLES,
    ensures
        res@ == node@.insert(*point, d as nat, max_depth as nat, r as nat),
    decreases (if d < max_depth { max_depth - d } else { 0 }), node,
{
    let ghost old_view = node@;
    if !node.bounds().contains(point) {
        return node;
    }
    proof {
        lemma_octants(old_view.bounds());
    }
    match node {
        OctreeNode::Internal { bounds, depth, mut children } => {
            let c = bounds.mid();
            let i = get_index(&c, point);
            let ghost kids = children@;
            assert(old_view->Internal_children[i as int] == kids[i as int]@);
            assert(kids[i as int]@.wf());
            let child = children.remove(i);
            let new_child = insert_internal(child, point, d + 1, max_depth, r);
            children.insert(i, new_child);
            let res = OctreeNode::Internal { bounds, depth, children };
            proof {
                let expect = old_view->Internal_children.update(
                    i as int,
                    old_view->Internal_children[i as int].insert(
                        *point,
                        d as nat + 1,
                        max_depth as nat,
                        r as nat,
                    ),
                );
                assert(res@->Internal_children =~= expect);
            }
            res
        },
        OctreeNode::Leaf { bounds, depth, occupancy, refl_sum, refl_count } => {
            if occupancy == Occupancy::Occupied || d >= max_depth {
                OctreeNode::Leaf {
                    bounds,
                    depth,
                    occupancy: Occupancy::Occupied,
                    refl_sum: refl_sum + r as u64,
                    refl_count: refl_count + 1,
                }
            } else {
                proof {
                    lemma_split_children(bounds, d as nat);
                }
                let mut children = create_children(&bounds, d);
                let c = bounds.mid();
                let i = get_index(&c, point);
                let child = children.remove(i);
                let new_child = insert_internal(child, point, d + 1, max_depth, r);
                children.insert(i, new_child);
                let res = OctreeNode::Internal { bounds, depth: d, children };
                proof {
                    let expect = split_children(bounds, d as nat).update(
                        i as int,
                        free_leaf(bounds.octant_spec(i as int), d as nat + 1).insert(
                            *point,
                            d as nat + 1,
                            max_depth as nat,
                            r as nat,
                        ),
                    );
                    assert(res@->Internal_children =~= expect);
                }
                res
            }
        },
    }
}

/// Merges the subtree `node` bottom-up (see `NodeView::optimize`).
#[verifier::rlimit(60)]
fn optimize_recursive_internal(node: OctreeNode) -> (res: OctreeNode)
    requires
        node@.wf(),
        node@.count() <= MAX_SAMPLES,
    ensures
        res@ == node@.optimize(),
    decreases node,
{
    let ghost old_view = node@;
    proof {
        lemma_optimize(old_view);
        lemma_wf_facts(old_view);
    }
    match node {
        OctreeNode::Leaf { .. } => node,
        OctreeNode::Internal { bounds, depth, children } => {
            let ghost kids = old_view->Internal_children;
            proof {
                lemma_prefix_total(old_view);
                assert(forall|j: int| 0 <= j < 8 ==> children@[j]@ == kids[j]);
                assert(forall|j: int| 0 <= j < 8 ==> (#[trigger] kids[j]).wf());
            }
            let mut rest = children;
            let mut merged: Vec<OctreeNode> = Vec::with_capacity(8);
            let mut i: usize = 0;
            while i < 8
                invariant
                    i <= 8,
                    kids.len() == 8,
                    rest@.len() == 8 - i,
                    forall|j: int| 0 <= j < 8 - i ==> (#[trigger] rest@[j])@ == kids[j + i],
                    forall|j: int| 0 <= j < 8 - i ==> decreases_to!(node => rest@[j]),
                    merged@.len() == i,
                    forall|j: int| 0 <= j < i ==> (#[trigger] merged@[j])@ == kids[j].optimize(),
                    forall|j: int| 0 <= j < 8 ==> (#[trigger] kids[j]).wf() && kids[j].count() <= old_view.count(),
                    old_view.count() <= MAX_SAMPLES,
                decreases 8 - i,
            {
                let ghost before = rest@;
                let c = rest.remove(0);
                assert(decreases_to!(node => c));
                merged.push(optimize_recursive_internal(c));
                i = i + 1;
                assert(forall|j: int| 0 <= j < 8 - i ==> rest@[j] == before[j + 1]);
            }
            proof {
                assert forall|j: int| 0 <= j < 8 implies (#[trigger] kids[j]).optimize().refl()
                    == kids[j].refl() && kids[j].optimize().count() == kids[j].count() by {
                    lemma_optimize(kids[j]);
                }
            }
            let mut all_free = true;
            let mut all_occupied = true;
            let mut sum: u64 = 0;
            let mut count: u64 = 0;
            let mut k: usize = 0;
            while k < 8
                invariant
                    k <= 8,
                    merged@.len() == 8,
                    kids.len() == 8,
                    forall|j: int| 0 <= j < 8 ==> (#[trigger] merged@[j])@ == kids[j].optimize(),
                    all_free == (forall|j: int| 0 <= j < k ==> (#[trigger] merged@[j])@ is Leaf
                        && merged@[j]@->Leaf_occupancy == Occupancy::Free),
                    all_occupied == (forall|j: int| 0 <= j < k ==> (#[trigger] merged@[j])@ is Leaf
                        && merged@[j]@->Leaf_occupancy == Occupancy::Occupied),
                    all_free || all_occupied ==> sum == refl_prefix(kids, k as int),
                    all_free || all_occupied ==> count == count_prefix(kids, k as int),
                    refl_prefix(kids, 8) == old_view.refl(),
                    count_prefix(kids, 8) == old_view.count(),
                    old_view.refl() <= 255 * old_view.count(),
                    old_view.count() <= MAX_SAMPLES,
                    forall|j: int| 0 <= j < 8 ==> (#[trigger] kids[j]).optimize().refl() == kids[j].refl()
                        && kids[j].optimize().count() == kids[j].count(),
                decreases 8 - k,
            {
                proof {
                    lemma_prefix_mono(kids, k as int + 1, 8);
                }
                match &merged[k] {
                    OctreeNode::Leaf { occupancy, refl_sum, refl_count, .. } => {
                        if all_free || all_occupied {
                            sum = sum + *refl_sum;
                            count = count + *refl_count;
                        }
                        if *occupancy != Occupancy::Free {
                            all_free = false;
                        }
                        if *occupancy != Occupancy::Occupied {
                            all_occupied = false;
                        }
                    },
                    OctreeNode::Internal { .. } => {
                        all_free = false;
                        all_occupied = false;
                    },
                }
                k = k + 1;
            }
            proof {
                assert forall|o: Occupancy|
                    old_view.uniform(o) == (forall|j: int| 0 <= j < 8 ==> (#[trigger] merged@[j])@ is Leaf
                        && merged@[j]@->Leaf_occupancy == o) by {
                    assert forall|j: int| 0 <= j < 8 implies (#[trigger] kids[j]).optimize().uniform(o)
                        == kids[j].uniform(o) && (kids[j].uniform(o) ==> kids[j].optimize() is Leaf && kids[j].optimize()->Leaf_occupancy == o) by {
                        lemma_optimize(kids[j]);
                    }
                    if forall|j: int| 0 <= j < 8 ==> (#[trigger] merged@[j])@ is Leaf
                        && merged@[j]@->Leaf_occupancy == o {
                        assert(merged@[0]@.uniform(o) && merged@[1]@.uniform(o) && merged@[2]@.uniform(o) && merged@[3]@.uniform(o));
                        assert(merged@[4]@.uniform(o) && merged@[5]@.uniform(o) && merged@[6]@.uniform(o) && merged@[7]@.uniform(o));
                    }
                    if old_view.uniform(o) {
                        assert(kids[0].uniform(o) && kids[1].uniform(o) && kids[2].uniform(o) && kids[3].uniform(o));
                        assert(kids[4].uniform(o) && kids[5].uniform(o) && kids[6].uniform(o) && kids[7].uniform(o));
                    }
                }
            }
            if all_free || all_occupied {
                OctreeNode::Leaf {
                    bounds,
                    depth,
                    occupancy: if all_free {
                        Occupancy::Free
                    } else {
                        Occupancy::Occupied
                    },
                    refl_sum: sum,
                    refl_count: count,
                }
            } else {
                let res = OctreeNode::Internal { bounds, depth, children: merged };
                proof {
                    assert(res@->Internal_children =~= old_view.optimize()->Internal_children);
                }
                res
            }
        },
    }
}

/// Rounded mean reflectivity of a leaf's samples.
fn node_reflectivity_calculator(refl_sum: u64, refl_count: u64) -> (r: u8)
    requires
        refl_count >= 1,
        refl_sum <= 255 * refl_count,
        refl_count <= MAX_SAMPLES,
    ensures
        r == round_div(refl_sum as nat, refl_count as nat),
{
    let q = (2 * refl_sum + refl_count) / (2 * refl_count);
    assert(q <= 255) by (nonlinear_arith)
        requires
            q == (2 * refl_sum + refl_count) / (2 * refl_count),
            refl_count >= 1,
            refl_sum <= 255 * refl_count,
    ;
    q as u8
}

/// The map entry that stands for an occupied leaf.
fn leaf_to_point(bounds: &Aabb, refl_sum: u64, refl_count: u64) -> (r: LaserPoint)
    requires
        bounds.wf(),
        refl_count >= 1,
        refl_sum <= 255 * refl_count,
        refl_count <= MAX_SAMPLES,
    ensures
        r == leaf_point(*bounds, refl_sum as nat, refl_count as nat),
{
    let c = bounds.mid();
    LaserPoint {
        x: c.x as i32,
        y: c.y as i32,
        z: c.z as i32,
        reflectivity: node_reflectivity_calculator(refl_sum, refl_count),
    }
}

/// Appends the occupied leaves of `node` to `meshes`, by depth.
fn octree_to_map_internal(node: &OctreeNode, meshes: &mut Vec<Vec<LaserPoint>>)
    requires
        node@.wf(),
        node@.count() <= MAX_SAMPLES,
    ensures
        final(meshes)@.len() == max2(old(meshes)@.len(), node@.depth_span()),
        forall|d: int|
            0 <= d < final(meshes)@.len() ==> (#[trigger] final(meshes)@[d])@ == (if d < old(
                meshes,
            )@.len() {
                old(meshes)@[d]@
            } else {
                Seq::empty()
            }) + node@.points_at_depth(d as nat),
    decreases node,
{
    proof {
        lemma_wf_facts(node@);
        lemma_span_bound(node@);
    }
    match node {
        OctreeNode::Internal { children, .. } => {
            let ghost kids = node@->Internal_children;
            let ghost start = meshes@;
            proof {
                lemma_points_prefix_total(node@, 0);
                assert(forall|j: int| 0 <= j < 8 ==> children@[j]@ == kids[j]);
                assert(forall|j: int| 0 <= j < 8 ==> (#[trigger] kids[j]).wf());
            }
            let mut i: usize = 0;
            while i < 8
                invariant
                    i <= 8,
                    kids.len() == 8,
                    children@.len() == 8,
                    forall|j: int| 0 <= j < 8 ==> (#[trigger] children@[j])@ == kids[j],
                    forall|j: int| 0 <= j < 8 ==> decreases_to!(node => children@[j]),
                    forall|j: int| 0 <= j < 8 ==> (#[trigger] kids[j]).wf() && kids[j].count() <= node@.count(),
                    node@.count() <= MAX_SAMPLES,
                    meshes@.len() == max2(start.len(), span_prefix(kids, i as int)),
                    forall|d: int|
                        0 <= d < meshes@.len() ==> (#[trigger] meshes@[d])@ == (if d < start.len() {
                            start[d]@
                        } else {
                            Seq::empty()
                        }) + points_prefix(kids, i as int, d as nat),
                decreases 8 - i,
            {
                let ghost before = meshes@;
                octree_to_map_internal(&children[i], meshes);
                proof {
                    assert forall|d: int| 0 <= d < meshes@.len() implies (#[trigger] meshes@[d])@ == (if d < start.len() {
                            start[d]@
                        } else {
                            Seq::empty()
                        }) + points_prefix(kids, i as int + 1, d as nat) by {
                        let base: Seq<LaserPoint> = if d < start.len() {
                            start[d]@
                        } else {
                            Seq::empty()
                        };
                        let p = points_prefix(kids, i as int, d as nat);
                        let q = kids[i as int].points_at_depth(d as nat);
                        assert(points_prefix(kids, i as int + 1, d as nat) == p + q);
                        if d < before.len() {
                            assert(before[d]@ == base + p);
                            assert((base + p) + q =~= base + (p + q));
                        } else {
                            if i > 0 {
                                lemma_points_prefix_beyond(kids, i as int - 1, d as nat);
                            }
                            assert(p =~= Seq::<LaserPoint>::empty());
                            assert(base =~= Seq::<LaserPoint>::empty());
                            assert(Seq::<LaserPoint>::empty() + q =~= base + (p + q));
                        }
                    }
                }
                i = i + 1;
            }
            proof {
                lemma_points_prefix_total(node@, 0);
                assert forall|d: int| 0 <= d < meshes@.len() implies #[trigger] points_prefix(kids, 8, d as nat) == node@.points_at_depth(d as nat) by {
                    lemma_points_prefix_total(node@, d as nat);
                }
            }
        },
        OctreeNode::Leaf { bounds, depth, occupancy, refl_sum, refl_count } => {
            if *occupancy == Occupancy::Occupied {
                let ghost start = meshes@;
                let dd = *depth as usize;
                while meshes.len() <= dd
                    invariant
                        start.len() <= meshes@.len(),
                        meshes@.len() <= max2(start.len(), dd as nat + 1),
                        forall|d: int| 0 <= d < start.len() ==> #[trigger] meshes@[d] == start[d],
                        forall|d: int| start.len() <= d < meshes@.len() ==> (#[trigger] meshes@[d])@ == Seq::<LaserPoint>::empty(),
                    decreases dd + 1 - meshes@.len(),
                {
                    meshes.push(Vec::new());
                }
                let pt = leaf_to_point(bounds, *refl_sum, *refl_count);
                meshes[dd].push(pt);
                proof {
                    assert forall|d: int| 0 <= d < meshes@.len() implies (#[trigger] meshes@[d])@ == (if d < start.len() {
                            start[d]@
                        } else {
                            Seq::empty()
                        }) + node@.points_at_depth(d as nat) by {
                        if d != dd {
                            assert(node@.points_at_depth(d as nat) =~= Seq::<LaserPoint>::empty());
                        }
                        assert(Seq::<LaserPoint>::empty() + seq![pt] =~= seq![pt]);
                    }
                }
            } else {
                proof {
                    assert forall|d: int| 0 <= d < meshes@.len() implies (#[trigger] meshes@[d])@ == meshes@[d]@ + node@.points_at_depth(d as nat) by {
                        assert(meshes@[d]@ + Seq::<LaserPoint>::empty() =~= meshes@[d]@);
                    }
                }
            }
        },
    }
}

/// A ray parameter as the exact fraction `num / den` (`den >= 1`).
#[derive(Clone, Copy, Debug, PartialEq, Eq, Structural)]
pub struct RayTime {
    pub num: i128,
    pub den: i128,
}

/// Half-edge of the root cube that `refresh` restores, in millimetres.
pub const DEFAULT_BOUNDARY: i64 = 10_000;

/// The occupancy octree. It owns its nodes; `samples` is the number of
/// samples its leaves hold.
pub struct Octree {
    root: OctreeNode,
    samples: u64,
}

impl Octree {
    /// The tree as a value.
    pub closed spec fn view(&self) -> NodeView {
        self.root@
    }

    /// The tree is well formed, its root lies at depth 0, and it holds at
    /// most `MAX_SAMPLES` samples.
    pub closed spec fn wf(&self) -> bool {
        &&& self.root@.wf()
        &&& self.root@.depth() == 0
        &&& self.samples == self.root@.count()
        &&& self.samples <= MAX_SAMPLES
    }

    pub proof fn lemma_wf(&self)
        requires
            self.wf(),
        ensures
            self@.wf(),
            self@.depth() == 0,
            self@.count() <= MAX_SAMPLES,
    {
    }

    /// A tree over `bounds` that is one free leaf.
    pub fn new(bounds: Aabb) -> (r: Octree)
        requires
            bounds.wf(),
        ensures
            r.wf(),
            r@ == free_leaf(bounds, 0),
    {
        Octree { root: new_leaf(bounds, 0), samples: 0 }
    }

    /// The root node, for inspection.
    pub fn get_root(&self) -> (r: &OctreeNode)
        ensures
            r@ == self@,
    {
        &self.root
    }

    /// Number of samples held by the leaves.
    pub fn sample_count(&self) -> (r: u64)
        requires
            self.wf(),
        ensures
            r == self@.count(),
    {
        self.samples
    }

    /// Records a sample of reflectivity `reflectivity` at `point`, splitting
    /// free leaves down to `max_depth`. A point outside the root's box is
    /// ignored, as is any sample once the tree holds `MAX_SAMPLES`.
    pub fn insert(&mut self, point: Point3, max_depth: u32, reflectivity: u8)
        requires
            old(self).wf(),
        ensures
            final(self).wf(),
            final(self)@ == if old(self)@.count() < MAX_SAMPLES {
                old(self)@.insert(point, 0, max_depth as nat, reflectivity as nat)
            } else {
                old(self)@
            },
    {
        if self.samples >= MAX_SAMPLES {
            return ;
        }
        let inside = self.root.bounds().contains(&point);
        let mut root = new_leaf(*self.root.bounds(), 0);
        std::mem::swap(&mut root, &mut self.root);
        proof {
            lemma_insert(root@, point, 0, max_depth as nat, reflectivity as nat);
        }
        self.root = insert_internal(root, &point, 0, max_depth, reflectivity);
        if inside {
            self.samples = self.samples + 1;
        }
    }

    /// Merges bottom-up every node whose leaves share one occupancy.
    pub fn optimize(&mut self)
        requires
            old(self).wf(),
        ensures
            final(self).wf(),
            final(self)@ == old(self)@.optimize(),
    {
        let mut root = new_leaf(*self.root.bounds(), 0);
        std::mem::swap(&mut root, &mut self.root);
        proof {
            lemma_optimize(root@);
        }
        self.root = optimize_recursive_internal(root);
    }

    /// The occupied leaves by depth, one row per depth from 0 to the deepest
    /// occupied leaf: row `d` lists, in depth-first order, the center and
    /// rounded mean reflectivity of each occupied leaf at depth `d`.
    pub(crate) fn depth_rows(&self) -> (r: Vec<Vec<LaserPoint>>)
        requires
            self.wf(),
        ensures
            r@.len() == self@.depth_span(),
            forall|d: int| 0 <= d < r@.len() ==> (#[trigger] r@[d])@ == self@.points_at_depth(d as nat),
            forall|d: nat| d >= r@.len() ==> #[trigger] self@.points_at_depth(d) == Seq::<LaserPoint>::empty(),
    {
        let mut meshes: Vec<Vec<LaserPoint>> = Vec::new();
        octree_to_map_internal(&self.root, &mut meshes);
        proof {
            assert forall|d: int| 0 <= d < meshes@.len() implies (#[trigger] meshes@[d])@ == self@.points_at_depth(d as nat) by {
                assert(Seq::<LaserPoint>::empty() + self@.points_at_depth(d as nat) =~= self@.points_at_depth(d as nat));
            }
            assert forall|d: nat| d >= meshes@.len() implies #[trigger] self@.points_at_depth(d) == Seq::<LaserPoint>::empty() by {
                lemma_points_beyond_span(self@, d);
            }
        }
        meshes
    }

    /// The depth map: one entry `(d, points)` for each depth `d` that holds
    /// an occupied leaf, in increasing order of depth; `points` lists, in
    /// depth-first order, the center and rounded mean reflectivity of each
    /// occupied leaf at depth `d`. No entry is empty, so a tree with no
    /// occupied leaf gives an empty map.
    pub fn octree_to_map(&self) -> (r: Vec<(u32, Vec<LaserPoint>)>)
        requires
            self.wf(),
        ensures
            forall|j: int| 0 <= j < r@.len() ==> (#[trigger] r@[j]).1@.len() > 0
                && r@[j].1@ == self@.points_at_depth(r@[j].0 as nat),
            forall|j: int, k: int| 0 <= j < k < r@.len() ==> (#[trigger] r@[j]).0 < (#[trigger] r@[k]).0,
            forall|d: nat| #[trigger] self@.points_at_depth(d).len() > 0 ==> exists|j: int| 0 <= j < r@.len() && (#[trigger] r@[j]).0 == d,
    {
        let mut rows = self.depth_rows();
        proof {
            self.lemma_wf();
            lemma_span_bound(self@);
        }
        let ghost t = self@;
        let mut map: Vec<(u32, Vec<LaserPoint>)> = Vec::new();
        let mut d: usize = 0;
        while d < rows.len()
            invariant
                d <= rows@.len(),
                rows@.len() == t.depth_span(),
                t.depth_span() <= u32::MAX + 1,
                forall|k: int| d <= k < rows@.len() ==> (#[trigger] rows@[k])@ == t.points_at_depth(k as nat),
                forall|k: nat| k >= rows@.len() ==> #[trigger] t.points_at_depth(k) == Seq::<LaserPoint>::empty(),
                forall|j: int| 0 <= j < map@.len() ==> (#[trigger] map@[j]).1@.len() > 0
                    && map@[j].1@ == t.points_at_depth(map@[j].0 as nat) && map@[j].0 < d,
                forall|j: int, k: int| 0 <= j < k < map@.len() ==> (#[trigger] map@[j]).0 < (#[trigger] map@[k]).0,
                forall|k: nat| k < d && #[trigger] t.points_at_depth(k).len() > 0 ==> exists|j: int| 0 <= j < map@.len() && (#[trigger] map@[j]).0 == k,
            decreases rows@.len() - d,
        {
            if rows[d].len() > 0 {
                let mut row: Vec<LaserPoint> = Vec::new();
                std::mem::swap(&mut row, &mut rows[d]);
                let ghost before = map@;
                map.push((d as u32, row));
                proof {
                    assert forall|k: nat| k < d + 1 && #[trigger] t.points_at_depth(k).len() > 0 implies exists|j: int| 0 <= j < map@.len() && (#[trigger] map@[j]).0 == k by {
                        if k < d {
                            let j = choose|j: int| 0 <= j < before.len() && (#[trigger] before[j]).0 == k;
                            assert(map@[j] == before[j]);
                        } else {
                            assert(map@[map@.len() - 1].0 == k);
                        }
                    }
                }
            }
            d = d + 1;
        }
        proof {
            assert forall|k: nat| #[trigger] t.points_at_depth(k).len() > 0 implies exists|j: int| 0 <= j < map@.len() && (#[trigger] map@[j]).0 == k by {
                if k >= rows@.len() {
                    assert(t.points_at_depth(k) == Seq::<LaserPoint>::empty());
                }
            }
        }
        map
    }

    /// Casts the ray `origin + t * direction` for `0 <= t <= max_distance`
    /// and returns the earliest `t` at which it enters an occupied leaf, as
    /// the exact fraction `num / den`; `den` is `time_scale(direction)`.
    pub fn cast_ray(&self, origin: Point3, direction: Point3, max_distance: u32) -> (r: Option<
        RayTime,
    >)
        requires
            self.wf(),
            origin.in_range(),
            direction.in_range(),
        ensures
            r is Some <==> self@.cast(origin, direction, max_distance as int) is Some,
            r is Some ==> r->0.num == self@.cast(origin, direction, max_distance as int)->0
                && r->0.den == time_scale(direction),
    {
        let ray = make_ray(origin, direction);
        assert(max_distance as int * ray.scale <= 0x2000_0000_0000_0000_0000_0000_0000_0000) by (nonlinear_arith)
            requires max_distance <= u32::MAX, 1 <= ray.scale <= 0x2000_0000_0000_0000_0000_0000;
        assert(max_distance as int * ray.scale >= 0) by (nonlinear_arith)
            requires 1 <= ray.scale;
        let limit = max_distance as i128 * ray.scale;
        match self.root.cast_ray(&ray, limit) {
            Some(t) => Some(RayTime { num: t, den: ray.scale }),
            None => None,
        }
    }

    /// Drops every sample: the tree becomes one free leaf over the cube of
    /// half-edge `DEFAULT_BOUNDARY`.
    pub fn refresh(&mut self)
        ensures
            final(self).wf(),
            final(self)@ == free_leaf(Aabb::cube(DEFAULT_BOUNDARY), 0),
    {
        let b = Aabb {
            min: Point3 { x: -DEFAULT_BOUNDARY, y: -DEFAULT_BOUNDARY, z: -DEFAULT_BOUNDARY },
            max: Point3 { x: DEFAULT_BOUNDARY, y: DEFAULT_BOUNDARY, z: DEFAULT_BOUNDARY },
        };
        self.root = new_leaf(b, 0);
        self.samples = 0;
    }
}

} // verus!
