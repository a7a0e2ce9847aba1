//! Grouping points by reflectivity, and the edge of the finest cells.
use vstd::prelude::*;
use crate::geometry::LaserPoint;

verus! {

/// The points of `s` of reflectivity `v`, in order.
pub open spec fn group(s: Seq<LaserPoint>, v: int) -> Seq<LaserPoint>
    decreases s.len(),
{
    if s.len() == 0 {
        s
    } else if s.last().reflectivity == v {
        group(s.drop_last(), v).push(s.last())
    } else {
        group(s.drop_last(), v)
    }
}

/// Splits points by reflectivity: entry `v` (0 to 255) holds, in order, the
/// points of reflectivity `v`.
pub fn divide_points(points: Vec<LaserPoint>) -> (r: Vec<Vec<LaserPoint>>)
    ensures
        r@.len() == 256,
        forall|v: int| 0 <= v < 256 ==> (#[trigger] r@[v])@ == group(points@, v),
{
    let mut groups: Vec<Vec<LaserPoint>> = Vec::with_capacity(256);
    let mut v: usize = 0;
    while v < 256
        invariant
            v <= 256,
            groups@.len() == v,
            forall|j: int| 0 <= j < v ==> (#[trigger] groups@[j])@ == Seq::<LaserPoint>::empty(),
        decreases 256 - v,
    {
        groups.push(Vec::new());
        v = v + 1;
    }
    let ghost s = points@;
    let mut i: usize = 0;
    while i < points.len()
        invariant
            i <= s.len(),
            s == points@,
            groups@.len() == 256,
            forall|j: int| 0 <= j < 256 ==> (#[trigger] groups@[j])@ == group(s.subrange(0, i as int), j),
        decreases s.len() - i,
    {
        let p = points[i];
        let k = p.reflectivity as usize;
        groups[k].push(p);
        proof {
            let post = s.subrange(0, i as int + 1);
            assert(post.drop_last() =~= s.subrange(0, i as int));
            assert(post.last() == p);
        }
        i = i + 1;
    }
    assert(s.subrange(0, s.len() as int) =~= s);
    groups
}

/// `x` halved `n` times, each time rounded down.
pub open spec fn halved(x: int, n: nat) -> int
    decreases n,
{
    if n == 0 { x } else { halved(x, (n - 1) as nat) / 2 }
}

/// Edge of a cell at depth `max_depth` of a cube of half-edge `boundary`.
pub fn get_size(boundary: u32, max_depth: u32) -> (r: u64)
    ensures
        r == halved(2 * boundary, max_depth as nat),
{
    let mut size: u64 = 2 * boundary as u64;
    let mut i: u32 = 0;
    while i < max_depth
        invariant
            i <= max_depth,
            size == halved(2 * boundary, i as nat),
            size <= 2 * boundary,
        decreases max_depth - i,
    {
        size = size / 2;
        i = i + 1;
    }
    size
}

} // verus!
