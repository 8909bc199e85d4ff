//! Convergence is a fixpoint: once a pass changes no assignment, a further
//! pass changes neither the assignments nor the centroid coordinates.
//!
//! The one hypothesis beyond convergence itself is `means_consistent`: the
//! centroids already stand at the means of their groups, which
//! `lemma_pass_means_consistent` shows of the state left by every
//! completed pass. A state whose centroids are not group means — freshly
//! sampled centroids that happen to leave every assignment unchanged on
//! the very first pass — can move its centroids during that pass and then
//! change assignments in the next one, so the hypothesis cannot be
//! dropped.

use vstd::prelude::*;
use vstd::seq_lib::group_to_multiset_ensures;
use crate::model::{
    PointV, ClusterV, reassigned_point, reassign_all, update_all, update_range, group_lo,
    group_hi, sort_canon, pass, ids_distinct,
};
use crate::sorting::{
    lemma_sort_canon_props, lemma_ids_distinct_permutation, lemma_sort_canon_of_sorted,
};

verus! {

/// The centroids stand exactly where the update step would put them for
/// the current assignment: each centroid with a non-empty group at the
/// elementwise mean of its group, each centroid with an empty group
/// wherever it already stands.
pub open spec fn means_consistent(pts: Seq<PointV>, cls: Seq<ClusterV>) -> bool {
    cls == update_all(cls, sort_canon(pts))
}

/// Updating twice from the same sorted point sequence is the same as
/// updating once: the second update recomputes the very same means.
proof fn lemma_update_all_idempotent(cls: Seq<ClusterV>, sp: Seq<PointV>)
    ensures
        update_all(update_all(cls, sp), sp) == update_all(cls, sp),
{
    let c1 = update_all(cls, sp);
    assert forall|c: int| 0 <= c < c1.len() implies #[trigger] update_all(c1, sp)[c] == c1[c] by {
        let lo = group_lo(sp, c);
        let hi = group_hi(sp, c);
        assert(c1[c] == update_range(cls[c], sp, lo, hi));
        if lo != hi {
            assert(c1[c].coord.len() == cls[c].coord.len());
            assert(update_range(c1[c], sp, lo, hi).coord =~= c1[c].coord);
        }
    }
    assert(update_all(c1, sp) =~= c1);
}

/// Every completed pass leaves a means-consistent state: the update step
/// is what ran last, so the centroids are the means of the groups of the
/// assignment it was given.
pub proof fn lemma_pass_means_consistent(pts: Seq<PointV>, cls: Seq<ClusterV>)
    requires
        ids_distinct(pts),
    ensures
        ({
            let (p1, c1, conv) = pass(pts, cls);
            means_consistent(p1, c1)
        }),
{
    let rp = reassign_all(pts, cls);
    assert(ids_distinct(rp)) by {
        assert(forall|i: int| 0 <= i < pts.len() ==> (#[trigger] rp[i]).id == pts[i].id);
    }
    lemma_sort_canon_props(rp);
    let sp = sort_canon(rp);
    lemma_ids_distinct_permutation(rp, sp);
    lemma_sort_canon_of_sorted(sp);
    lemma_update_all_idempotent(cls, sp);
}

/// Idempotence at convergence: from a means-consistent state, a pass that
/// changes no assignment is followed by a pass that again changes no
/// assignment and leaves both the point sequence and every centroid
/// coordinate exactly as they were.
pub proof fn lemma_converged_pass_idempotent(pts: Seq<PointV>, cls: Seq<ClusterV>)
    requires
        ids_distinct(pts),
        means_consistent(pts, cls),
        pass(pts, cls).2,
    ensures
        ({
            let (p1, c1, conv1) = pass(pts, cls);
            let (p2, c2, conv2) = pass(p1, c1);
            &&& conv2
            &&& p2 == p1
            &&& c2 == c1
        }),
{
    broadcast use group_to_multiset_ensures;

    let rp = reassign_all(pts, cls);
    assert(rp =~= pts) by {
        assert(pass(pts, cls).2);
    }
    let p1 = sort_canon(pts);
    assert(sort_canon(rp) == p1);
    let c1 = update_all(cls, p1);
    assert(pass(pts, cls).0 == p1 && pass(pts, cls).1 == c1);
    // the centroids were already the means, so the pass left them alone
    assert(c1 == cls);
    // every point of the sorted sequence is a point of the input, and no
    // input point moves under reassignment against these centroids
    lemma_sort_canon_props(pts);
    lemma_ids_distinct_permutation(pts, p1);
    assert forall|j: int| 0 <= j < p1.len() implies #[trigger] reassigned_point(p1[j], cls)
        == p1[j] by {
        assert(p1.contains(p1[j]));
        assert(pts.to_multiset().count(p1[j]) > 0);
        assert(pts.contains(p1[j]));
        let i = choose|i: int| 0 <= i < pts.len() && pts[i] == p1[j];
        assert(rp[i] == reassigned_point(pts[i], cls));
        assert(rp[i] == pts[i]);
    }
    let rp2 = reassign_all(p1, c1);
    assert(rp2 =~= p1) by {
        assert(forall|j: int| 0 <= j < p1.len() ==> #[trigger] rp2[j] == reassigned_point(
            p1[j],
            cls,
        ));
    }
    assert(pass(p1, c1).2);
    lemma_sort_canon_of_sorted(p1);
    assert(pass(p1, c1).0 == p1);
    lemma_update_all_idempotent(cls, p1);
    assert(pass(p1, c1).1 == update_all(c1, p1));
    assert(update_all(c1, p1) == c1);
}

} // verus!
