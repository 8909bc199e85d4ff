//! The mathematical model of the clustering engine.
//!
//! Every executable step of the engine is pinned by its contract to a spec
//! function in this module: squared-distance geometry, the nearest-centroid
//! choice, per-cluster grouping bounds, the centroid-update rule, one full
//! pass, and the iteration driver `run_model`. Both execution modes of the
//! runner promise the same `run_model` result, which is what makes them
//! interchangeable.

use vstd::prelude::*;

verus! {

/// Coordinates are bounded integers: every coordinate of every point and
/// centroid lies in `[-COORD_LIMIT, COORD_LIMIT]`. The bound keeps every
/// squared distance and every coordinate sum inside `i128`.
pub const COORD_LIMIT: i64 = 0x8000_0000;

/// A point as the specifications see it: a stable identifier, the current
/// cluster assignment, and its position.
pub ghost struct PointV {
    pub id: int,
    pub cluster: int,
    pub coord: Seq<int>,
}

/// A centroid as the specifications see it.
pub ghost struct ClusterV {
    pub id: int,
    pub coord: Seq<int>,
}

/// A well-formed coordinate vector: dimensionality `dim`, all entries bounded.
pub open spec fn coord_ok(c: Seq<int>, dim: int) -> bool {
    &&& c.len() == dim
    &&& forall|d: int| 0 <= d < c.len() ==> -(COORD_LIMIT as int) <= #[trigger] c[d] <= COORD_LIMIT as int
}

/// Squared Euclidean distance over the first `n` dimensions.
pub open spec fn sq_dist_to(a: Seq<int>, b: Seq<int>, n: int) -> int
    decreases n,
{
    if n <= 0 {
        0
    } else {
        sq_dist_to(a, b, n - 1) + (a[n - 1] - b[n - 1]) * (a[n - 1] - b[n - 1])
    }
}

/// Squared Euclidean distance between two positions of equal dimensionality.
/// The engine compares distances, and squaring is monotone, so the square
/// root of the textbook definition is never taken.
pub open spec fn sq_dist(a: Seq<int>, b: Seq<int>) -> int {
    sq_dist_to(a, b, a.len() as int)
}

/// Index of the centroid nearest to `c` among the first `n` centroids,
/// ties broken by first occurrence.
pub open spec fn nearest_in_prefix(c: Seq<int>, cls: Seq<ClusterV>, n: int) -> int
    decreases n,
{
    if n <= 1 {
        0
    } else {
        let j = nearest_in_prefix(c, cls, n - 1);
        if sq_dist(c, cls[n - 1].coord) < sq_dist(c, cls[j].coord) {
            n - 1
        } else {
            j
        }
    }
}

/// Index of the nearest centroid, ties broken by first occurrence.
pub open spec fn nearest_idx(c: Seq<int>, cls: Seq<ClusterV>) -> int {
    nearest_in_prefix(c, cls, cls.len() as int)
}

/// Identifier of the nearest centroid: what the assignment step writes into
/// a point's cluster slot.
pub open spec fn nearest_id(c: Seq<int>, cls: Seq<ClusterV>) -> int {
    cls[nearest_idx(c, cls)].id
}

/// The nearest choice is a first minimum: no centroid is strictly closer,
/// and every earlier centroid is strictly farther.
pub proof fn lemma_nearest_is_first_min(c: Seq<int>, cls: Seq<ClusterV>, n: int)
    requires
        1 <= n <= cls.len(),
    ensures
        0 <= nearest_in_prefix(c, cls, n) < n,
        forall|i: int| 0 <= i < n ==> sq_dist(c, cls[nearest_in_prefix(c, cls, n)].coord)
            <= sq_dist(c, #[trigger] cls[i].coord),
        forall|i: int| 0 <= i < nearest_in_prefix(c, cls, n) ==> sq_dist(c, #[trigger] cls[i].coord)
            > sq_dist(c, cls[nearest_in_prefix(c, cls, n)].coord),
    decreases n,
{
    if n > 1 {
        lemma_nearest_is_first_min(c, cls, n - 1);
    }
}

/// One point after the assignment step: the same point, assigned to its
/// nearest centroid.
pub open spec fn reassigned_point(p: PointV, cls: Seq<ClusterV>) -> PointV {
    PointV { id: p.id, cluster: nearest_id(p.coord, cls), coord: p.coord }
}

/// The whole point set after the assignment step.
pub open spec fn reassign_all(pts: Seq<PointV>, cls: Seq<ClusterV>) -> Seq<PointV> {
    pts.map_values(|p: PointV| reassigned_point(p, cls))
}

/// Number of points in `s` whose assignment is a cluster id below `c`.
pub open spec fn count_lt(s: Seq<PointV>, c: int) -> int
    decreases s.len(),
{
    if s.len() == 0 {
        0
    } else {
        count_lt(s.drop_last(), c) + if s.last().cluster < c {
            1int
        } else {
            0int
        }
    }
}

/// Number of points in `s` assigned to cluster `c`.
pub open spec fn count_eq(s: Seq<PointV>, c: int) -> int
    decreases s.len(),
{
    if s.len() == 0 {
        0
    } else {
        count_eq(s.drop_last(), c) + if s.last().cluster == c {
            1int
        } else {
            0int
        }
    }
}

/// In a point sequence sorted by cluster id, the points of cluster `c`
/// occupy the index range `[group_lo, group_hi)`.
pub open spec fn group_lo(s: Seq<PointV>, c: int) -> int {
    count_lt(s, c)
}

/// Exclusive upper end of cluster `c`'s index range in a sorted sequence.
pub open spec fn group_hi(s: Seq<PointV>, c: int) -> int {
    count_lt(s, c) + count_eq(s, c)
}

/// Sum of coordinate `d` over the points at indices `[lo, hi)`.
pub open spec fn sum_coord(s: Seq<PointV>, lo: int, hi: int, d: int) -> int
    decreases hi - lo,
{
    if hi <= lo {
        0
    } else {
        sum_coord(s, lo, hi - 1, d) + s[hi - 1].coord[d]
    }
}

/// The centroid-update rule for one centroid whose assigned points stand at
/// indices `[lo, hi)`: each coordinate becomes the arithmetic mean (rounded
/// toward negative infinity) of that coordinate over the assigned points.
/// A centroid with no assigned points keeps its position for the pass.
pub open spec fn update_range(cl: ClusterV, s: Seq<PointV>, lo: int, hi: int) -> ClusterV {
    if lo == hi {
        cl
    } else {
        ClusterV {
            id: cl.id,
            coord: Seq::new(cl.coord.len(), |d: int| sum_coord(s, lo, hi, d) / (hi - lo)),
        }
    }
}

/// The centroid-update step over a point sequence sorted by cluster id.
pub open spec fn update_all(cls: Seq<ClusterV>, s: Seq<PointV>) -> Seq<ClusterV> {
    Seq::new(cls.len(), |c: int| update_range(cls[c], s, group_lo(s, c), group_hi(s, c)))
}

/// Order of the in-pass sort: by cluster id, then by point id. Point ids are
/// unique, so a sequence sorted this way is unique among its permutations
/// and both execution modes reach the same sequence.
pub open spec fn key_le(a: PointV, b: PointV) -> bool {
    a.cluster < b.cluster || (a.cluster == b.cluster && a.id <= b.id)
}

/// Strict version of the sort order.
pub open spec fn key_lt(a: PointV, b: PointV) -> bool {
    a.cluster < b.cluster || (a.cluster == b.cluster && a.id < b.id)
}

/// Sortedness under `key_le`.
pub open spec fn sorted_points(s: Seq<PointV>) -> bool {
    forall|i: int, j: int| 0 <= i < j < s.len() ==> key_le(#[trigger] s[i], #[trigger] s[j])
}

/// No two points share an identifier.
pub open spec fn ids_distinct(s: Seq<PointV>) -> bool {
    forall|i: int, j: int| 0 <= i < j < s.len() ==> (#[trigger] s[i]).id != (#[trigger] s[j]).id
}

/// Insertion of one point into a sequence sorted by `key_le`.
pub open spec fn insert_sorted(p: PointV, s: Seq<PointV>) -> Seq<PointV>
    decreases s.len(),
{
    if s.len() == 0 {
        seq![p]
    } else if key_lt(p, s[0]) {
        seq![p] + s
    } else {
        seq![s[0]] + insert_sorted(p, s.drop_first())
    }
}

/// The canonical sorted permutation of a point sequence: insertion sort by
/// cluster id, then point id.
pub open spec fn sort_canon(s: Seq<PointV>) -> Seq<PointV>
    decreases s.len(),
{
    if s.len() == 0 {
        s
    } else {
        insert_sorted(s[0], sort_canon(s.drop_first()))
    }
}

/// One full pass of the engine: assign every point to its nearest centroid,
/// sort the points by cluster id, recompute every centroid from its group.
/// The boolean reports convergence: no point changed its assignment. The
/// pass runs to completion either way.
pub open spec fn pass(pts: Seq<PointV>, cls: Seq<ClusterV>) -> (Seq<PointV>, Seq<ClusterV>, bool) {
    let rp = reassign_all(pts, cls);
    let sp = sort_canon(rp);
    (sp, update_all(cls, sp), rp =~= pts)
}

/// The iteration driver: run passes until one converges or the budget is
/// exhausted, and report the final points, the final centroids, and the
/// number of passes consumed. A converging pass counts toward the budget.
pub open spec fn run_model(pts: Seq<PointV>, cls: Seq<ClusterV>, budget: nat) -> (
    Seq<PointV>,
    Seq<ClusterV>,
    nat,
)
    decreases budget,
{
    if budget == 0 {
        (pts, cls, 0)
    } else {
        let (p1, c1, conv) = pass(pts, cls);
        if conv {
            (p1, c1, 1)
        } else {
            let (p2, c2, used) = run_model(p1, c1, (budget - 1) as nat);
            (p2, c2, used + 1)
        }
    }
}

/// The iteration count never exceeds the budget.
pub proof fn lemma_run_model_within_budget(pts: Seq<PointV>, cls: Seq<ClusterV>, budget: nat)
    ensures
        run_model(pts, cls, budget).2 <= budget,
    decreases budget,
{
    if budget > 0 {
        let (p1, c1, conv) = pass(pts, cls);
        if !conv {
            lemma_run_model_within_budget(p1, c1, (budget - 1) as nat);
        }
    }
}

} // verus!
