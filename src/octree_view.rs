//! The mathematical model of the occupancy octree: a tree of boxes whose
//! leaves carry an occupancy flag and a reflectivity accumulator, and the
//! operations of the library stated on that tree.
use vstd::prelude::*;
use crate::geometry::{Aabb, LaserPoint, Point3, lemma_octants, octant_index};
use crate::ray::{box_enter, box_hit, lemma_ray_within, time_scale, axis_scale};

verus! {

/// Occupancy of an octree leaf.
#[derive(Clone, Copy, Debug, PartialEq, Eq, Structural)]
pub enum Occupancy {
    Free,
    Occupied,
}

/// The value of an octree node: a leaf, or an internal node with its eight
/// children in octant order.
pub enum NodeView {
    Leaf { bounds: Aabb, depth: nat, occupancy: Occupancy, refl_sum: nat, refl_count: nat },
    Internal { bounds: Aabb, depth: nat, children: Seq<NodeView> },
}

/// Most samples that one tree accumulates; keeps every sum within 64 bits.
pub const MAX_SAMPLES: u64 = 0xffff_ffff;

/// Reflectivity accumulator of a leaf: empty when free, at least one sample
/// of at most 255 each when occupied.
pub open spec fn leaf_stats_ok(occupancy: Occupancy, refl_sum: nat, refl_count: nat) -> bool {
    match occupancy {
        Occupancy::Free => refl_sum == 0 && refl_count == 0,
        Occupancy::Occupied => refl_count >= 1 && refl_sum <= 255 * refl_count,
    }
}

/// A free leaf over `bounds` at `depth`.
pub open spec fn free_leaf(bounds: Aabb, depth: nat) -> NodeView {
    NodeView::Leaf { bounds, depth, occupancy: Occupancy::Free, refl_sum: 0, refl_count: 0 }
}

/// The eight free leaves that splitting a leaf over `bounds` at `depth` makes.
pub open spec fn split_children(bounds: Aabb, depth: nat) -> Seq<NodeView> {
    Seq::new(8, |i: int| free_leaf(bounds.octant_spec(i), depth + 1))
}

/// `sum / count` rounded to the nearest integer, halves up.
pub open spec fn round_div(sum: nat, count: nat) -> nat {
    if count == 0 { 0 } else { (2 * sum + count) / (2 * count) }
}

/// The point that an occupied leaf stands for: its center, with the rounded
/// mean reflectivity of its samples.
pub open spec fn leaf_point(bounds: Aabb, refl_sum: nat, refl_count: nat) -> LaserPoint {
    let c = bounds.mid_spec();
    LaserPoint {
        x: c.x as i32,
        y: c.y as i32,
        z: c.z as i32,
        reflectivity: round_div(refl_sum, refl_count) as u8,
    }
}

impl NodeView {
    pub open spec fn bounds(self) -> Aabb {
        match self {
            NodeView::Leaf { bounds, .. } => bounds,
            NodeView::Internal { bounds, .. } => bounds,
        }
    }

    pub open spec fn depth(self) -> nat {
        match self {
            NodeView::Leaf { depth, .. } => depth,
            NodeView::Internal { depth, .. } => depth,
        }
    }

    pub open spec fn is_leaf(self) -> bool {
        self is Leaf
    }

    /// Structural invariant: every child is the matching octant of its
    /// parent, one level deeper; leaves hold consistent accumulators.
    pub open spec fn wf(self) -> bool
        decreases self,
    {
        match self {
            NodeView::Leaf { bounds, depth, occupancy, refl_sum, refl_count } => {
                &&& bounds.wf()
                &&& depth <= u32::MAX
                &&& leaf_stats_ok(occupancy, refl_sum, refl_count)
            },
            NodeView::Internal { bounds, depth, children } => {
                &&& bounds.wf()
                &&& depth < u32::MAX
                &&& children.len() == 8
                &&& forall|i: int|
                    0 <= i < 8 ==> {
                        &&& (#[trigger] children[i]).bounds() == bounds.octant_spec(i)
                        &&& children[i].depth() == depth + 1
                        &&& children[i].wf()
                    }
            },
        }
    }

    /// Number of samples held by the leaves.
    pub open spec fn count(self) -> nat
        decreases self,
    {
        match self {
            NodeView::Leaf { refl_count, .. } => refl_count,
            NodeView::Internal { children, .. } => if children.len() == 8 {
                children[0].count() + children[1].count() + children[2].count()
                    + children[3].count() + children[4].count() + children[5].count()
                    + children[6].count() + children[7].count()
            } else {
                0
            },
        }
    }

    /// Sum of the reflectivity of all samples held by the leaves.
    pub open spec fn refl(self) -> nat
        decreases self,
    {
        match self {
            NodeView::Leaf { refl_sum, .. } => refl_sum,
            NodeView::Internal { children, .. } => if children.len() == 8 {
                children[0].refl() + children[1].refl() + children[2].refl() + children[3].refl()
                    + children[4].refl() + children[5].refl() + children[6].refl()
                    + children[7].refl()
            } else {
                0
            },
        }
    }

    /// Sum of `refl_sum` over the occupied leaves.
    pub open spec fn occupied_refl(self) -> nat
        decreases self,
    {
        match self {
            NodeView::Leaf { occupancy, refl_sum, .. } => if occupancy == Occupancy::Occupied {
                refl_sum
            } else {
                0
            },
            NodeView::Internal { children, .. } => if children.len() == 8 {
                children[0].occupied_refl() + children[1].occupied_refl()
                    + children[2].occupied_refl() + children[3].occupied_refl()
                    + children[4].occupied_refl() + children[5].occupied_refl()
                    + children[6].occupied_refl() + children[7].occupied_refl()
            } else {
                0
            },
        }
    }

    /// Number of occupied leaves.
    pub open spec fn occupied_count(self) -> nat
        decreases self,
    {
        match self {
            NodeView::Leaf { occupancy, .. } => if occupancy == Occupancy::Occupied {
                1
            } else {
                0
            },
            NodeView::Internal { children, .. } => if children.len() == 8 {
                children[0].occupied_count() + children[1].occupied_count()
                    + children[2].occupied_count() + children[3].occupied_count()
                    + children[4].occupied_count() + children[5].occupied_count()
                    + children[6].occupied_count() + children[7].occupied_count()
            } else {
                0
            },
        }
    }

    /// Number of occupied leaves whose box holds `p`.
    pub open spec fn occupied_containing(self, p: Point3) -> nat
        decreases self,
    {
        match self {
            NodeView::Leaf { bounds, occupancy, .. } => if occupancy == Occupancy::Occupied
                && bounds.contains_spec(p) {
                1
            } else {
                0
            },
            NodeView::Internal { children, .. } => if children.len() == 8 {
                children[0].occupied_containing(p) + children[1].occupied_containing(p)
                    + children[2].occupied_containing(p) + children[3].occupied_containing(p)
                    + children[4].occupied_containing(p) + children[5].occupied_containing(p)
                    + children[6].occupied_containing(p) + children[7].occupied_containing(p)
            } else {
                0
            },
        }
    }

    /// The leaf that the octant-index rule reaches for `p` from this node.
    pub open spec fn leaf_at(self, p: Point3) -> NodeView
        decreases self,
    {
        match self {
            NodeView::Leaf { .. } => self,
            NodeView::Internal { bounds, children, .. } => {
                let i = octant_index(bounds.mid_spec(), p);
                if children.len() == 8 && 0 <= i < 8 {
                    children[i].leaf_at(p)
                } else {
                    self
                }
            },
        }
    }

    /// Every leaf below has occupancy `o`.
    pub open spec fn uniform(self, o: Occupancy) -> bool
        decreases self,
    {
        match self {
            NodeView::Leaf { occupancy, .. } => occupancy == o,
            NodeView::Internal { children, .. } => children.len() == 8 && children[0].uniform(o)
                && children[1].uniform(o) && children[2].uniform(o) && children[3].uniform(o)
                && children[4].uniform(o) && children[5].uniform(o) && children[6].uniform(o)
                && children[7].uniform(o),
        }
    }

    /// Inserting a sample at `p` of reflectivity `r` into a node at depth
    /// `d`, splitting free leaves down to `max_depth`.
    pub open spec fn insert(self, p: Point3, d: nat, max_depth: nat, r: nat) -> NodeView
        decreases (if d < max_depth { max_depth - d } else { 0 }), self,
    {
        if !self.bounds().contains_spec(p) {
            self
        } else {
            match self {
                NodeView::Internal { bounds, depth, children } => {
                    let i = octant_index(bounds.mid_spec(), p);
                    if children.len() == 8 && 0 <= i < 8 {
                        NodeView::Internal {
                            bounds,
                            depth,
                            children: children.update(
                                i,
                                children[i].insert(p, d + 1, max_depth, r),
                            ),
                        }
                    } else {
                        self
                    }
                },
                NodeView::Leaf { bounds, depth, occupancy, refl_sum, refl_count } => {
                    if occupancy == Occupancy::Occupied || d >= max_depth {
                        NodeView::Leaf {
                            bounds,
                            depth,
                            occupancy: Occupancy::Occupied,
                            refl_sum: refl_sum + r,
                            refl_count: refl_count + 1,
                        }
                    } else {
                        let i = octant_index(bounds.mid_spec(), p);
                        NodeView::Internal {
                            bounds,
                            depth: d,
                            children: split_children(bounds, d).update(
                                i,
                                free_leaf(bounds.octant_spec(i), d + 1).insert(
                                    p,
                                    d + 1,
                                    max_depth,
                                    r,
                                ),
                            ),
                        }
                    }
                },
            }
        }
    }

    /// Bottom-up merge: a node all of whose leaves share one occupancy
    /// becomes a single leaf holding their summed accumulators.
    pub open spec fn optimize(self) -> NodeView
        decreases self,
    {
        match self {
            NodeView::Leaf { .. } => self,
            NodeView::Internal { bounds, depth, children } => {
                if self.uniform(Occupancy::Free) {
                    NodeView::Leaf {
                        bounds,
                        depth,
                        occupancy: Occupancy::Free,
                        refl_sum: self.refl(),
                        refl_count: self.count(),
                    }
                } else if self.uniform(Occupancy::Occupied) {
                    NodeView::Leaf {
                        bounds,
                        depth,
                        occupancy: Occupancy::Occupied,
                        refl_sum: self.refl(),
                        refl_count: self.count(),
                    }
                } else {
                    NodeView::Internal {
                        bounds,
                        depth,
                        children: Seq::new(
                            children.len(),
                            |i: int|
                                if 0 <= i < children.len() {
                                    children[i].optimize()
                                } else {
                                    self
                                },
                        ),
                    }
                }
            },
        }
    }

    /// The points of the occupied leaves at depth `d`, in depth-first order.
    pub open spec fn points_at_depth(self, d: nat) -> Seq<LaserPoint>
        decreases self,
    {
        match self {
            NodeView::Leaf { bounds, depth, occupancy, refl_sum, refl_count } => {
                if occupancy == Occupancy::Occupied && depth == d {
                    seq![leaf_point(bounds, refl_sum, refl_count)]
                } else {
                    Seq::empty()
                }
            },
            NodeView::Internal { children, .. } => if children.len() == 8 {
                children[0].points_at_depth(d) + children[1].points_at_depth(d)
                    + children[2].points_at_depth(d) + children[3].points_at_depth(d)
                    + children[4].points_at_depth(d) + children[5].points_at_depth(d)
                    + children[6].points_at_depth(d) + children[7].points_at_depth(d)
            } else {
                Seq::empty()
            },
        }
    }

    /// One more than the greatest depth of an occupied leaf; 0 when there is
    /// none.
    pub open spec fn depth_span(self) -> nat
        decreases self,
    {
        match self {
            NodeView::Leaf { depth, occupancy, .. } => if occupancy == Occupancy::Occupied {
                depth + 1
            } else {
                0
            },
            NodeView::Internal { children, .. } => if children.len() == 8 {
                max8(
                    children[0].depth_span(),
                    children[1].depth_span(),
                    children[2].depth_span(),
                    children[3].depth_span(),
                    children[4].depth_span(),
                    children[5].depth_span(),
                    children[6].depth_span(),
                    children[7].depth_span(),
                )
            } else {
                0
            },
        }
    }
}

/// The smaller of two optional times; a missing time counts as none.
pub open spec fn opt_min(a: Option<int>, b: Option<int>) -> Option<int> {
    match a {
        Some(x) => match b {
            Some(y) => Some(if x <= y { x } else { y }),
            None => a,
        },
        None => b,
    }
}

/// `a` if it is a time no later than `limit`, else none.
pub open spec fn at_most(a: Option<int>, limit: int) -> Option<int> {
    match a {
        Some(t) => if t <= limit { a } else { None },
        None => None,
    }
}

/// Earliest scaled time (see `crate::ray`) of the first `k` nodes of `s`.
pub open spec fn hit_prefix(s: Seq<NodeView>, k: int, o: Point3, d: Point3) -> Option<int>
    decreases k,
{
    if k <= 0 { None } else { opt_min(hit_prefix(s, k - 1, o, d), s[k - 1].first_hit(o, d)) }
}

impl NodeView {
    /// Earliest scaled time `t >= 0` at which the ray `o + t * d` enters an
    /// occupied leaf, if it meets one.
    pub open spec fn first_hit(self, o: Point3, d: Point3) -> Option<int>
        decreases self,
    {
        match self {
            NodeView::Leaf { bounds, occupancy, .. } => if occupancy == Occupancy::Occupied
                && box_hit(bounds, o, d) {
                Some(box_enter(bounds, o, d))
            } else {
                None
            },
            NodeView::Internal { children, .. } => if children.len() == 8 {
                opt_min(
                    opt_min(
                        opt_min(children[0].first_hit(o, d), children[1].first_hit(o, d)),
                        opt_min(children[2].first_hit(o, d), children[3].first_hit(o, d)),
                    ),
                    opt_min(
                        opt_min(children[4].first_hit(o, d), children[5].first_hit(o, d)),
                        opt_min(children[6].first_hit(o, d), children[7].first_hit(o, d)),
                    ),
                )
            } else {
                None
            },
        }
    }

    /// Ray cast with a range: the first hit, if it comes no later than
    /// `max_distance` (in units of `t`).
    pub open spec fn cast(self, o: Point3, d: Point3, max_distance: int) -> Option<int> {
        at_most(self.first_hit(o, d), max_distance * time_scale(d))
    }
}

pub open spec fn max2(a: nat, b: nat) -> nat {
    if a >= b { a } else { b }
}

pub open spec fn max8(a: nat, b: nat, c: nat, d: nat, e: nat, f: nat, g: nat, h: nat) -> nat {
    max2(max2(max2(a, b), max2(c, d)), max2(max2(e, f), max2(g, h)))
}

/// The children that a split makes are well formed.
pub proof fn lemma_split_children(bounds: Aabb, depth: nat)
    requires
        bounds.wf(),
        depth < u32::MAX,
    ensures
        forall|i: int|
            0 <= i < 8 ==> {
                &&& (#[trigger] split_children(bounds, depth)[i]).bounds() == bounds.octant_spec(i)
                &&& split_children(bounds, depth)[i].depth() == depth + 1
                &&& split_children(bounds, depth)[i].wf()
                &&& split_children(bounds, depth)[i].count() == 0
                &&& split_children(bounds, depth)[i].refl() == 0
                &&& split_children(bounds, depth)[i].occupied_count() == 0
            },
{
    lemma_octants(bounds);
}

/// Insertion keeps the tree well formed, keeps the node's box and depth, and
/// adds the sample to the totals exactly when the point lies in the box.
pub proof fn lemma_insert(n: NodeView, p: Point3, d: nat, max_depth: nat, r: nat)
    requires
        n.wf(),
        n.depth() == d,
        max_depth <= u32::MAX,
        r <= 255,
    ensures
        n.insert(p, d, max_depth, r).wf(),
        n.insert(p, d, max_depth, r).bounds() == n.bounds(),
        n.insert(p, d, max_depth, r).depth() == d,
        n.insert(p, d, max_depth, r).count() == n.count() + (if n.bounds().contains_spec(p) {
            1nat
        } else {
            0nat
        }),
        n.insert(p, d, max_depth, r).refl() == n.refl() + (if n.bounds().contains_spec(p) {
            r
        } else {
            0nat
        }),
        n.bounds().contains_spec(p) ==> n.insert(p, d, max_depth, r).occupied_containing(p) >= 1,
    decreases (if d < max_depth { max_depth - d } else { 0 }), n,
{
    if n.bounds().contains_spec(p) {
        lemma_octants(n.bounds());
        match n {
            NodeView::Internal { bounds, depth, children } => {
                let i = octant_index(bounds.mid_spec(), p);
                lemma_insert(children[i], p, d + 1, max_depth, r);
                let m = n.insert(p, d, max_depth, r);
                let nc = children.update(i, children[i].insert(p, d + 1, max_depth, r));
                assert(m == NodeView::Internal { bounds, depth, children: nc });
                assert(forall|j: int| 0 <= j < 8 && j != i ==> nc[j] == children[j]);
                assert(forall|j: int|
                    0 <= j < 8 ==> (#[trigger] nc[j]).bounds() == bounds.octant_spec(j)
                        && nc[j].depth() == depth + 1 && nc[j].wf());
                assert(m.occupied_containing(p) >= nc[i].occupied_containing(p));
            },
            NodeView::Leaf { bounds, depth, occupancy, refl_sum, refl_count } => {
                if occupancy == Occupancy::Occupied || d >= max_depth {
                } else {
                    let i = octant_index(bounds.mid_spec(), p);
                    let leaf = free_leaf(bounds.octant_spec(i), d + 1);
                    lemma_split_children(bounds, d);
                    lemma_insert(leaf, p, d + 1, max_depth, r);
                    let m = n.insert(p, d, max_depth, r);
                    let nc = split_children(bounds, d).update(
                        i,
                        leaf.insert(p, d + 1, max_depth, r),
                    );
                    assert(m == NodeView::Internal { bounds, depth: d, children: nc });
                    assert(forall|j: int|
                        0 <= j < 8 && j != i ==> nc[j] == split_children(bounds, d)[j]);
                    assert(forall|j: int|
                        0 <= j < 8 ==> (#[trigger] nc[j]).bounds() == bounds.octant_spec(j)
                            && nc[j].depth() == d + 1 && nc[j].wf());
                    assert(m.occupied_containing(p) >= nc[i].occupied_containing(p));
                }
            },
        }
    }
}

/// The occupied leaves that hold `p` are among all the occupied leaves.
pub proof fn lemma_occupied_containing_le(n: NodeView, p: Point3)
    ensures
        n.occupied_containing(p) <= n.occupied_count(),
    decreases n,
{
    if let NodeView::Internal { children, .. } = n {
        if children.len() == 8 {
            lemma_occupied_containing_le(children[0], p);
            lemma_occupied_containing_le(children[1], p);
            lemma_occupied_containing_le(children[2], p);
            lemma_occupied_containing_le(children[3], p);
            lemma_occupied_containing_le(children[4], p);
            lemma_occupied_containing_le(children[5], p);
            lemma_occupied_containing_le(children[6], p);
            lemma_occupied_containing_le(children[7], p);
        }
    }
}

/// Inserting into a free leaf leaves exactly one occupied leaf below it.
pub proof fn lemma_insert_free_leaf(bounds: Aabb, d: nat, p: Point3, max_depth: nat, r: nat)
    requires
        bounds.wf(),
        d <= max_depth <= u32::MAX,
        bounds.contains_spec(p),
    ensures
        free_leaf(bounds, d).insert(p, d, max_depth, r).occupied_count() == 1,
    decreases max_depth - d,
{
    if d < max_depth {
        lemma_octants(bounds);
        let i = octant_index(bounds.mid_spec(), p);
        let leaf = free_leaf(bounds.octant_spec(i), d + 1);
        lemma_split_children(bounds, d);
        lemma_insert_free_leaf(bounds.octant_spec(i), d + 1, p, max_depth, r);
        let nc = split_children(bounds, d).update(i, leaf.insert(p, d + 1, max_depth, r));
        assert(forall|j: int| 0 <= j < 8 && j != i ==> nc[j] == split_children(bounds, d)[j]);
        assert(free_leaf(bounds, d).insert(p, d, max_depth, r) == NodeView::Internal {
            bounds,
            depth: d,
            children: nc,
        });
    }
}

/// Inserting a point of the node's box leaves the leaf that the index rule
/// reaches for it occupied, and that leaf's box holds the point.
pub proof fn lemma_insert_reaches(n: NodeView, p: Point3, d: nat, max_depth: nat, r: nat)
    requires
        n.wf(),
        n.depth() == d,
        max_depth <= u32::MAX,
        n.bounds().contains_spec(p),
    ensures
        n.insert(p, d, max_depth, r).leaf_at(p) is Leaf,
        n.insert(p, d, max_depth, r).leaf_at(p)->Leaf_occupancy == Occupancy::Occupied,
        n.insert(p, d, max_depth, r).leaf_at(p).bounds().contains_spec(p),
    decreases (if d < max_depth { max_depth - d } else { 0 }), n,
{
    lemma_octants(n.bounds());
    match n {
        NodeView::Internal { bounds, depth, children } => {
            let i = octant_index(bounds.mid_spec(), p);
            assert(children[i].wf());
            lemma_insert_reaches(children[i], p, d + 1, max_depth, r);
        },
        NodeView::Leaf { bounds, depth, occupancy, refl_sum, refl_count } => {
            if occupancy == Occupancy::Occupied || d >= max_depth {
            } else {
                let i = octant_index(bounds.mid_spec(), p);
                lemma_split_children(bounds, d);
                lemma_insert_reaches(free_leaf(bounds.octant_spec(i), d + 1), p, d + 1, max_depth, r);
            }
        },
    }
}

/// Containment: after a point of the root's box is inserted into any
/// well-formed tree, the leaf that the octant-index rule reaches for it is
/// occupied and holds it; and when the tree was a single free leaf, that
/// leaf is the only occupied leaf of the tree, so exactly one occupied leaf
/// holds the point. (In a tree with other occupied leaves, a point on a face
/// shared by two occupied boxes lies in both.)
pub proof fn lemma_insert_contains_point(root: NodeView, p: Point3, max_depth: nat, r: nat)
    requires
        root.wf(),
        root.depth() == 0,
        root.bounds().contains_spec(p),
        1 <= max_depth <= u32::MAX,
        r <= 255,
    ensures
        root.insert(p, 0, max_depth, r).occupied_containing(p) >= 1,
        root.insert(p, 0, max_depth, r).leaf_at(p) is Leaf,
        root.insert(p, 0, max_depth, r).leaf_at(p)->Leaf_occupancy == Occupancy::Occupied,
        root.insert(p, 0, max_depth, r).leaf_at(p).bounds().contains_spec(p),
        root == free_leaf(root.bounds(), 0) ==> root.insert(p, 0, max_depth, r).occupied_count()
            == 1 && root.insert(p, 0, max_depth, r).occupied_containing(p) == 1,
{
    lemma_insert(root, p, 0, max_depth, r);
    lemma_insert_reaches(root, p, 0, max_depth, r);
    if root == free_leaf(root.bounds(), 0) {
        lemma_insert_free_leaf(root.bounds(), 0, p, max_depth, r);
        lemma_occupied_containing_le(root.insert(p, 0, max_depth, r), p);
    }
}

/// A well-formed node is not uniformly free and uniformly occupied at once,
/// and on a well-formed tree the reflectivity of the occupied leaves is all
/// the reflectivity there is (free leaves hold none).
pub proof fn lemma_wf_facts(n: NodeView)
    requires
        n.wf(),
    ensures
        !(n.uniform(Occupancy::Free) && n.uniform(Occupancy::Occupied)),
        n.occupied_refl() == n.refl(),
        n.uniform(Occupancy::Free) ==> n.count() == 0 && n.refl() == 0,
        n.refl() <= 255 * n.count(),
    decreases n,
{
    if let NodeView::Internal { children, .. } = n {
        assert(children[0].wf() && children[1].wf() && children[2].wf() && children[3].wf());
        assert(children[4].wf() && children[5].wf() && children[6].wf() && children[7].wf());
        lemma_wf_facts(children[0]);
        lemma_wf_facts(children[1]);
        lemma_wf_facts(children[2]);
        lemma_wf_facts(children[3]);
        lemma_wf_facts(children[4]);
        lemma_wf_facts(children[5]);
        lemma_wf_facts(children[6]);
        lemma_wf_facts(children[7]);
    }
}

/// Merging keeps the tree well formed, keeps box and depth, keeps every
/// total, and keeps which occupancy the node is uniform in; a uniform node
/// becomes a leaf of that occupancy.
pub proof fn lemma_optimize(n: NodeView)
    requires
        n.wf(),
    ensures
        n.optimize().wf(),
        n.optimize().bounds() == n.bounds(),
        n.optimize().depth() == n.depth(),
        n.optimize().count() == n.count(),
        n.optimize().refl() == n.refl(),
        n.optimize().occupied_refl() == n.occupied_refl(),
        forall|o: Occupancy| n.optimize().uniform(o) == n.uniform(o),
        forall|o: Occupancy|
            #[trigger] n.uniform(o) ==> n.optimize() is Leaf && n.optimize()->Leaf_occupancy == o,
    decreases n,
{
    lemma_wf_facts(n);
    if let NodeView::Internal { bounds, depth, children } = n {
        assert(children[0].wf() && children[1].wf() && children[2].wf() && children[3].wf());
        assert(children[4].wf() && children[5].wf() && children[6].wf() && children[7].wf());
        lemma_optimize(children[0]);
        lemma_optimize(children[1]);
        lemma_optimize(children[2]);
        lemma_optimize(children[3]);
        lemma_optimize(children[4]);
        lemma_optimize(children[5]);
        lemma_optimize(children[6]);
        lemma_optimize(children[7]);
        let m = n.optimize();
        if n.uniform(Occupancy::Free) {
        } else if n.uniform(Occupancy::Occupied) {
            // an occupied merge leaf holds the samples of occupied leaves
            lemma_uniform_occupied_counts(n);
        } else {
            let oc = m->Internal_children;
            assert(oc.len() == 8);
            assert(forall|i: int| 0 <= i < 8 ==> #[trigger] oc[i] == children[i].optimize());
            assert(forall|i: int|
                0 <= i < 8 ==> (#[trigger] oc[i]).bounds() == bounds.octant_spec(i)
                    && oc[i].depth() == depth + 1 && oc[i].wf());
            assert forall|o: Occupancy| m.uniform(o) == n.uniform(o) by {
                assert(oc[0].uniform(o) == children[0].uniform(o));
                assert(oc[1].uniform(o) == children[1].uniform(o));
                assert(oc[2].uniform(o) == children[2].uniform(o));
                assert(oc[3].uniform(o) == children[3].uniform(o));
                assert(oc[4].uniform(o) == children[4].uniform(o));
                assert(oc[5].uniform(o) == children[5].uniform(o));
                assert(oc[6].uniform(o) == children[6].uniform(o));
                assert(oc[7].uniform(o) == children[7].uniform(o));
            }
        }
    }
}

/// A uniformly occupied well-formed node holds at least one sample, of at
/// most 255 each.
pub proof fn lemma_uniform_occupied_counts(n: NodeView)
    requires
        n.wf(),
        n.uniform(Occupancy::Occupied),
    ensures
        n.count() >= 1,
        n.refl() <= 255 * n.count(),
    decreases n,
{
    if let NodeView::Internal { children, .. } = n {
        assert(children[0].wf() && children[1].wf() && children[2].wf() && children[3].wf());
        assert(children[4].wf() && children[5].wf() && children[6].wf() && children[7].wf());
        lemma_uniform_occupied_counts(children[0]);
        lemma_uniform_occupied_counts(children[1]);
        lemma_uniform_occupied_counts(children[2]);
        lemma_uniform_occupied_counts(children[3]);
        lemma_uniform_occupied_counts(children[4]);
        lemma_uniform_occupied_counts(children[5]);
        lemma_uniform_occupied_counts(children[6]);
        lemma_uniform_occupied_counts(children[7]);
    }
}

/// Merging is idempotent: merging an already merged tree changes nothing.
pub proof fn lemma_optimize_idempotent(n: NodeView)
    requires
        n.wf(),
    ensures
        n.optimize().optimize() == n.optimize(),
    decreases n,
{
    lemma_optimize(n);
    if let NodeView::Internal { bounds, depth, children } = n {
        if !n.uniform(Occupancy::Free) && !n.uniform(Occupancy::Occupied) {
            assert(children[0].wf() && children[1].wf() && children[2].wf() && children[3].wf());
            assert(children[4].wf() && children[5].wf() && children[6].wf() && children[7].wf());
            lemma_optimize_idempotent(children[0]);
            lemma_optimize_idempotent(children[1]);
            lemma_optimize_idempotent(children[2]);
            lemma_optimize_idempotent(children[3]);
            lemma_optimize_idempotent(children[4]);
            lemma_optimize_idempotent(children[5]);
            lemma_optimize_idempotent(children[6]);
            lemma_optimize_idempotent(children[7]);
            let m = n.optimize();
            let oc = m->Internal_children;
            assert(forall|i: int| 0 <= i < 8 ==> #[trigger] oc[i] == children[i].optimize());
            let oc2 = m.optimize()->Internal_children;
            assert(oc2 =~= oc);
        }
    }
}

/// Merging keeps the sum of reflectivity over the occupied leaves.
pub proof fn lemma_optimize_keeps_occupied_refl(n: NodeView)
    requires
        n.wf(),
    ensures
        n.optimize().occupied_refl() == n.occupied_refl(),
{
    lemma_optimize(n);
}

/// Sum of `refl()` over the first `k` nodes of `s`.
pub open spec fn refl_prefix(s: Seq<NodeView>, k: int) -> nat
    decreases k,
{
    if k <= 0 { 0 } else { refl_prefix(s, k - 1) + s[k - 1].refl() }
}

/// Sum of `count()` over the first `k` nodes of `s`.
pub open spec fn count_prefix(s: Seq<NodeView>, k: int) -> nat
    decreases k,
{
    if k <= 0 { 0 } else { count_prefix(s, k - 1) + s[k - 1].count() }
}

/// Prefix sums grow with the prefix and the whole of eight children is the
/// node's total.
pub proof fn lemma_prefix_mono(s: Seq<NodeView>, k: int, m: int)
    requires
        0 <= k <= m,
    ensures
        refl_prefix(s, k) <= refl_prefix(s, m),
        count_prefix(s, k) <= count_prefix(s, m),
    decreases m - k,
{
    if k < m {
        lemma_prefix_mono(s, k, m - 1);
    }
}

/// The prefix sums over all eight children are the node's totals.
pub proof fn lemma_prefix_total(n: NodeView)
    requires
        n is Internal,
        n->Internal_children.len() == 8,
    ensures
        refl_prefix(n->Internal_children, 8) == n.refl(),
        count_prefix(n->Internal_children, 8) == n.count(),
{
    reveal_with_fuel(refl_prefix, 9);
    reveal_with_fuel(count_prefix, 9);
}

/// Points at depth `d` of the first `k` nodes of `s`, concatenated.
pub open spec fn points_prefix(s: Seq<NodeView>, k: int, d: nat) -> Seq<LaserPoint>
    decreases k,
{
    if k <= 0 { Seq::empty() } else { points_prefix(s, k - 1, d) + s[k - 1].points_at_depth(d) }
}

/// Greatest `depth_span` of the first `k` nodes of `s`.
pub open spec fn span_prefix(s: Seq<NodeView>, k: int) -> nat
    decreases k,
{
    if k <= 0 { 0 } else { max2(span_prefix(s, k - 1), s[k - 1].depth_span()) }
}

pub proof fn lemma_points_prefix_total(n: NodeView, d: nat)
    requires
        n is Internal,
        n->Internal_children.len() == 8,
    ensures
        points_prefix(n->Internal_children, 8, d) == n.points_at_depth(d),
        span_prefix(n->Internal_children, 8) == n.depth_span(),
{
    reveal_with_fuel(points_prefix, 9);
    reveal_with_fuel(span_prefix, 9);
    let c = n->Internal_children;
    assert(points_prefix(c, 8, d) =~= n.points_at_depth(d));
}

/// No occupied leaf lies at a depth of `depth_span` or more.
pub proof fn lemma_points_beyond_span(n: NodeView, d: nat)
    requires
        d >= n.depth_span(),
    ensures
        n.points_at_depth(d) == Seq::<LaserPoint>::empty(),
    decreases n,
{
    if let NodeView::Internal { children, .. } = n {
        if children.len() == 8 {
            lemma_points_beyond_span(children[0], d);
            lemma_points_beyond_span(children[1], d);
            lemma_points_beyond_span(children[2], d);
            lemma_points_beyond_span(children[3], d);
            lemma_points_beyond_span(children[4], d);
            lemma_points_beyond_span(children[5], d);
            lemma_points_beyond_span(children[6], d);
            lemma_points_beyond_span(children[7], d);
            assert(n.points_at_depth(d) =~= Seq::<LaserPoint>::empty());
        }
    }
}

/// Every occupied leaf of a well-formed tree lies at a depth that fits in
/// 32 bits.
pub proof fn lemma_span_bound(n: NodeView)
    requires
        n.wf(),
    ensures
        n.depth_span() <= u32::MAX + 1,
    decreases n,
{
    if let NodeView::Internal { children, .. } = n {
        assert(children[0].wf() && children[1].wf() && children[2].wf() && children[3].wf());
        assert(children[4].wf() && children[5].wf() && children[6].wf() && children[7].wf());
        lemma_span_bound(children[0]);
        lemma_span_bound(children[1]);
        lemma_span_bound(children[2]);
        lemma_span_bound(children[3]);
        lemma_span_bound(children[4]);
        lemma_span_bound(children[5]);
        lemma_span_bound(children[6]);
        lemma_span_bound(children[7]);
    }
}

/// Nodes whose span ends before `d` add nothing at depth `d`.
pub proof fn lemma_points_prefix_beyond(s: Seq<NodeView>, k: int, d: nat)
    requires
        d >= span_prefix(s, k + 1),
        0 <= k < s.len(),
    ensures
        points_prefix(s, k + 1, d) == Seq::<LaserPoint>::empty(),
    decreases k,
{
    assert(span_prefix(s, k + 1) == max2(span_prefix(s, k), s[k].depth_span()));
    lemma_points_beyond_span(s[k], d);
    if k > 0 {
        lemma_points_prefix_beyond(s, k - 1, d);
    }
    assert(points_prefix(s, k, d) =~= Seq::<LaserPoint>::empty());
    assert(points_prefix(s, k + 1, d) == points_prefix(s, k, d) + s[k].points_at_depth(d));
    assert(points_prefix(s, k + 1, d) =~= Seq::<LaserPoint>::empty());
}

/// Earliest time over the first `k` nodes of `s` that `mask` selects.
pub open spec fn hit_masked(s: Seq<NodeView>, mask: Seq<bool>, k: int, o: Point3, d: Point3) -> Option<
    int,
>
    decreases k,
{
    if k <= 0 {
        None
    } else {
        opt_min(
            hit_masked(s, mask, k - 1, o, d),
            if mask[k - 1] { s[k - 1].first_hit(o, d) } else { None },
        )
    }
}

pub proof fn lemma_opt_min_ac(x: Option<int>, y: Option<int>, z: Option<int>)
    ensures
        opt_min(opt_min(x, y), z) == opt_min(x, opt_min(y, z)),
        opt_min(x, y) == opt_min(y, x),
        opt_min(x, None) == x,
{
}

/// Selecting by two disjoint masks at once is the earlier of selecting by
/// each.
pub proof fn lemma_hit_masked_union(
    s: Seq<NodeView>,
    a: Seq<bool>,
    b: Seq<bool>,
    u: Seq<bool>,
    k: int,
    o: Point3,
    d: Point3,
)
    requires
        0 <= k <= a.len(),
        a.len() == b.len() && b.len() == u.len(),
        forall|j: int| 0 <= j < k ==> !(a[j] && b[j]) && u[j] == (a[j] || b[j]),
    ensures
        hit_masked(s, u, k, o, d) == opt_min(hit_masked(s, a, k, o, d), hit_masked(s, b, k, o, d)),
    decreases k,
{
    if k > 0 {
        lemma_hit_masked_union(s, a, b, u, k - 1, o, d);
        let x = hit_masked(s, a, k - 1, o, d);
        let y = hit_masked(s, b, k - 1, o, d);
        let h = s[k - 1].first_hit(o, d);
        lemma_opt_min_ac(x, y, h);
        lemma_opt_min_ac(x, h, y);
        lemma_opt_min_ac(y, h, None);
        lemma_opt_min_ac(opt_min(x, h), y, None);
        lemma_opt_min_ac(x, y, None);
    }
}

/// Selecting every node is the plain prefix minimum.
pub proof fn lemma_hit_masked_all(s: Seq<NodeView>, mask: Seq<bool>, k: int, o: Point3, d: Point3)
    requires
        0 <= k <= mask.len(),
        forall|j: int| 0 <= j < k ==> mask[j],
    ensures
        hit_masked(s, mask, k, o, d) == hit_prefix(s, k, o, d),
    decreases k,
{
    if k > 0 {
        lemma_hit_masked_all(s, mask, k - 1, o, d);
    }
}

/// When every node that `mask` selects hits no earlier than `t`, so does
/// their minimum.
pub proof fn lemma_hit_masked_late(s: Seq<NodeView>, mask: Seq<bool>, k: int, o: Point3, d: Point3, t: int)
    requires
        0 <= k <= mask.len(),
        forall|j: int|
            0 <= j < k && mask[j] ==> (#[trigger] s[j].first_hit(o, d)) is None || s[j].first_hit(
                o,
                d,
            )->0 > t,
    ensures
        hit_masked(s, mask, k, o, d) is None || hit_masked(s, mask, k, o, d)->0 > t,
    decreases k,
{
    if k > 0 {
        lemma_hit_masked_late(s, mask, k - 1, o, d, t);
    }
}

/// Number of set entries among the first `k` of `s`.
pub open spec fn count_true(s: Seq<bool>, k: int) -> nat
    decreases k,
{
    if k <= 0 { 0 } else { count_true(s, k - 1) + if s[k - 1] { 1nat } else { 0nat } }
}

pub proof fn lemma_count_true_set(s: Seq<bool>, i: int, k: int)
    requires
        0 <= i < s.len(),
        0 <= k <= s.len(),
        !s[i],
    ensures
        count_true(s.update(i, true), k) == count_true(s, k) + if i < k { 1nat } else { 0nat },
        count_true(s, k) <= k,
        i < k ==> count_true(s, k) < k,
    decreases k,
{
    if k > 0 {
        lemma_count_true_set(s, i, k - 1);
    }
}

/// Selecting one node gives that node's first hit.
pub proof fn lemma_single_mask(s: Seq<NodeView>, single: Seq<bool>, i: int, k: int, o: Point3, d: Point3)
    requires
        0 <= i < k <= single.len(),
        forall|j: int| 0 <= j < single.len() ==> single[j] == (j == i),
    ensures
        hit_masked(s, single, k, o, d) == s[i].first_hit(o, d),
    decreases k,
{
    if k - 1 > i {
        lemma_single_mask(s, single, i, k - 1, o, d);
    } else {
        lemma_none_mask(s, single, i, o, d);
    }
}

/// Selecting no node gives no hit, and counts nothing.
pub proof fn lemma_none_mask(s: Seq<NodeView>, mask: Seq<bool>, k: int, o: Point3, d: Point3)
    requires
        0 <= k <= mask.len(),
        forall|j: int| 0 <= j < k ==> !mask[j],
    ensures
        hit_masked(s, mask, k, o, d) is None,
        count_true(mask, k) == 0,
    decreases k,
{
    if k > 0 {
        lemma_none_mask(s, mask, k - 1, o, d);
    }
}

pub proof fn lemma_hit_prefix_total(n: NodeView, o: Point3, d: Point3)
    requires
        n is Internal,
        n->Internal_children.len() == 8,
    ensures
        hit_prefix(n->Internal_children, 8, o, d) == n.first_hit(o, d),
{
    reveal_with_fuel(hit_prefix, 9);
}

/// A hit inside a node lies inside the node's box, no earlier than the ray
/// enters that box.
pub proof fn lemma_first_hit_in_box(n: NodeView, o: Point3, d: Point3)
    requires
        n.wf(),
    ensures
        n.first_hit(o, d) is Some ==> box_hit(n.bounds(), o, d) && n.first_hit(o, d)->0 >= box_enter(
            n.bounds(),
            o,
            d,
        ),
    decreases n,
{
    if let NodeView::Internal { bounds, children, .. } = n {
        lemma_octants(bounds);
        assert forall|i: int| 0 <= i < 8 && (#[trigger] children[i]).first_hit(o, d) is Some
            implies box_hit(bounds, o, d) && children[i].first_hit(o, d)->0 >= box_enter(bounds, o, d) by {
            assert(children[i].wf());
            lemma_first_hit_in_box(children[i], o, d);
            assert(bounds.octant_spec(i).wf() && bounds.octant_spec(i).within(bounds));
            lemma_ray_within(children[i].bounds(), bounds, o, d);
        }
        assert(children[0].first_hit(o, d) is Some ==> box_hit(bounds, o, d));
        assert(children[1].first_hit(o, d) is Some ==> box_hit(bounds, o, d));
        assert(children[2].first_hit(o, d) is Some ==> box_hit(bounds, o, d));
        assert(children[3].first_hit(o, d) is Some ==> box_hit(bounds, o, d));
        assert(children[4].first_hit(o, d) is Some ==> box_hit(bounds, o, d));
        assert(children[5].first_hit(o, d) is Some ==> box_hit(bounds, o, d));
        assert(children[6].first_hit(o, d) is Some ==> box_hit(bounds, o, d));
        assert(children[7].first_hit(o, d) is Some ==> box_hit(bounds, o, d));
    }
}

/// A time scale is positive.
pub proof fn lemma_time_scale_pos(d: Point3)
    ensures
        time_scale(d) >= 1,
{
    let a = axis_scale(d.x);
    let b = axis_scale(d.y);
    let c = axis_scale(d.z);
    assert(a * b * c >= 1) by (nonlinear_arith)
        requires a >= 1, b >= 1, c >= 1;
}

/// Ray hits are monotone in the range: a hit found within `t1` is found,
/// at the same time, within any larger range `t2`.
pub proof fn lemma_cast_monotone(n: NodeView, o: Point3, d: Point3, t1: int, t2: int)
    requires
        n.cast(o, d, t1) is Some,
        t1 <= t2,
    ensures
        n.cast(o, d, t2) == n.cast(o, d, t1),
{
    lemma_time_scale_pos(d);
    assert(t1 * time_scale(d) <= t2 * time_scale(d)) by (nonlinear_arith)
        requires t1 <= t2, time_scale(d) >= 1;
}

} // verus!
