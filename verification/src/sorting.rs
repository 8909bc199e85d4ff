//! Properties of the canonical in-pass sort.
//!
//! The engine sorts points by cluster id and then point id. Point ids are
//! unique, so exactly one sorted permutation exists: any sorted permutation
//! of a point sequence equals the canonical `sort_canon`. That is what lets
//! both execution modes, each sorting by its own means, be pinned to the
//! same model.

use vstd::prelude::*;
use vstd::multiset::Multiset;
use vstd::seq_lib::group_to_multiset_ensures;
use crate::model::{PointV, key_le, key_lt, sorted_points, ids_distinct, insert_sorted, sort_canon};

verus! {

/// Inserting into a sorted sequence keeps it sorted, adds exactly the new
/// element to the contents, and invents no element.
pub proof fn lemma_insert_sorted_props(p: PointV, s: Seq<PointV>)
    requires
        sorted_points(s),
    ensures
        sorted_points(insert_sorted(p, s)),
        insert_sorted(p, s).to_multiset() == s.to_multiset().insert(p),
        insert_sorted(p, s).len() == s.len() + 1,
        forall|i: int| 0 <= i < insert_sorted(p, s).len() ==> (#[trigger] insert_sorted(p, s)[i]
            == p || s.contains(insert_sorted(p, s)[i])),
    decreases s.len(),
{
    broadcast use group_to_multiset_ensures;
    broadcast use vstd::multiset::group_multiset_axioms;
    broadcast use vstd::multiset::group_multiset_properties;

    let out = insert_sorted(p, s);
    if s.len() == 0 {
        assert(out =~= Seq::empty().push(p));
        assert(out.to_multiset() =~= s.to_multiset().insert(p));
    } else if key_lt(p, s[0]) {
        assert(out =~= seq![p] + s);
        assert(out == s.insert(0, p));
        assert(s.insert(0, p).to_multiset() == s.to_multiset().insert(p)) by {
            assert(s.insert(0, p).remove(0) =~= s);
            assert(s.insert(0, p).remove(0).to_multiset() == s.insert(0, p).to_multiset().remove(
                p,
            ));
            assert(s.insert(0, p).to_multiset().contains(p)) by {
                assert(s.insert(0, p)[0] == p);
                assert(s.insert(0, p).contains(p));
            }
            assert(s.insert(0, p).to_multiset() =~= s.to_multiset().insert(p));
        }
        assert forall|i: int, j: int| 0 <= i < j < out.len() implies key_le(out[i], out[j]) by {
            if i == 0 {
                assert(out[j] == s[j - 1]);
            }
        }
    } else {
        let rest = s.drop_first();
        assert(forall|i: int, j: int| 0 <= i < j < rest.len() ==> key_le(
            #[trigger] rest[i],
            #[trigger] rest[j],
        )) by {
            assert(forall|i: int| 0 <= i < rest.len() ==> #[trigger] rest[i] == s[i + 1]);
        }
        lemma_insert_sorted_props(p, rest);
        let inner = insert_sorted(p, rest);
        assert(out =~= seq![s[0]] + inner);
        // the contents: out = {s[0]} + inner = {s[0]} + rest + {p} = s + {p}
        assert(out.to_multiset() == s.to_multiset().insert(p)) by {
            vstd::seq_lib::lemma_multiset_commutative(seq![s[0]], inner);
            vstd::seq_lib::lemma_multiset_commutative(seq![s[0]], rest);
            assert(s =~= seq![s[0]] + rest);
            assert(seq![s[0]] =~= Seq::empty().push(s[0]));
            assert(seq![s[0]].to_multiset() =~= Multiset::empty().insert(s[0]));
            assert(out.to_multiset() == seq![s[0]].to_multiset().add(inner.to_multiset()));
            assert(s.to_multiset() == seq![s[0]].to_multiset().add(rest.to_multiset()));
            assert(out.to_multiset() =~= s.to_multiset().insert(p));
        }
        // sortedness: s[0] precedes p and every element of rest
        assert(key_le(s[0], p));
        assert forall|i: int, j: int| 0 <= i < j < out.len() implies key_le(out[i], out[j]) by {
            if i == 0 {
                assert(out[j] == inner[j - 1]);
                if inner[j - 1] == p {
                } else {
                    assert(rest.contains(inner[j - 1]));
                    let m = choose|m: int| 0 <= m < rest.len() && rest[m] == inner[j - 1];
                    assert(rest[m] == s[m + 1]);
                    assert(key_le(s[0], s[m + 1]));
                }
            } else {
                assert(out[i] == inner[i - 1]);
                assert(out[j] == inner[j - 1]);
            }
        }
        assert forall|i: int| 0 <= i < out.len() implies (#[trigger] out[i] == p || s.contains(
            out[i],
        )) by {
            if i == 0 {
                assert(s.contains(s[0]));
            } else {
                assert(out[i] == inner[i - 1]);
                if inner[i - 1] != p {
                    assert(rest.contains(inner[i - 1]));
                    let m = choose|m: int| 0 <= m < rest.len() && rest[m] == inner[i - 1];
                    assert(s[m + 1] == rest[m]);
                    assert(s.contains(s[m + 1]));
                }
            }
        }
    }
}

/// The canonical sort is sorted and is a permutation of its input.
pub proof fn lemma_sort_canon_props(s: Seq<PointV>)
    ensures
        sorted_points(sort_canon(s)),
        sort_canon(s).to_multiset() == s.to_multiset(),
        sort_canon(s).len() == s.len(),
    decreases s.len(),
{
    broadcast use group_to_multiset_ensures;
    broadcast use vstd::multiset::group_multiset_axioms;
    broadcast use vstd::multiset::group_multiset_properties;

    if s.len() > 0 {
        let rest = s.drop_first();
        lemma_sort_canon_props(rest);
        lemma_insert_sorted_props(s[0], sort_canon(rest));
        assert(s.remove(0) =~= rest);
        assert(s.remove(0).to_multiset() == s.to_multiset().remove(s[0]));
        assert(s.to_multiset().contains(s[0])) by {
            assert(s.contains(s[0]));
        }
        assert(sort_canon(s).to_multiset() =~= s.to_multiset());
    }
}

/// A value counted at least twice in a sequence's contents stands at two
/// distinct positions.
pub proof fn lemma_count_two_indices(s: Seq<PointV>, v: PointV) -> (r: (int, int))
    requires
        s.to_multiset().count(v) >= 2,
    ensures
        0 <= r.0 < s.len(),
        0 <= r.1 < s.len(),
        r.0 != r.1,
        s[r.0] == v,
        s[r.1] == v,
{
    broadcast use group_to_multiset_ensures;
    broadcast use vstd::multiset::group_multiset_axioms;
    broadcast use vstd::multiset::group_multiset_properties;

    assert(s.contains(v));
    let i0 = choose|i: int| 0 <= i < s.len() && s[i] == v;
    let t = s.remove(i0);
    assert(t.to_multiset() == s.to_multiset().remove(v));
    assert(t.to_multiset().count(v) >= 1);
    assert(t.contains(v));
    let i1 = choose|i: int| 0 <= i < t.len() && t[i] == v;
    if i1 < i0 {
        assert(t[i1] == s[i1]);
        (i0, i1)
    } else {
        assert(t[i1] == s[i1 + 1]);
        (i0, i1 + 1)
    }
}

/// Uniqueness of point ids is a property of the contents alone, so any
/// permutation of a sequence with distinct ids has distinct ids.
pub proof fn lemma_ids_distinct_permutation(x: Seq<PointV>, y: Seq<PointV>)
    requires
        ids_distinct(x),
        x.to_multiset() == y.to_multiset(),
    ensures
        ids_distinct(y),
{
    broadcast use group_to_multiset_ensures;
    broadcast use vstd::multiset::group_multiset_axioms;
    broadcast use vstd::multiset::group_multiset_properties;

    assert forall|i: int, j: int| 0 <= i < j < y.len() implies (#[trigger] y[i]).id
        != (#[trigger] y[j]).id by {
        if y[i].id == y[j].id {
            if y[i] == y[j] {
                assert(y.to_multiset().count(y[i]) >= 2) by {
                    let t = y.remove(i);
                    assert(t.to_multiset() == y.to_multiset().remove(y[i]));
                    assert(t[j - 1] == y[j]);
                    assert(t.contains(y[j]));
                    assert(t.to_multiset().count(y[i]) >= 1);
                }
                let (a, b) = lemma_count_two_indices(x, y[i]);
                assert(x[a].id == x[b].id);
            } else {
                assert(y.contains(y[i]));
                assert(y.contains(y[j]));
                assert(x.to_multiset().count(y[i]) > 0);
                assert(x.to_multiset().count(y[j]) > 0);
                assert(x.contains(y[i]));
                assert(x.contains(y[j]));
                let a = choose|a: int| 0 <= a < x.len() && x[a] == y[i];
                let b = choose|b: int| 0 <= b < x.len() && x[b] == y[j];
                assert(a != b);
                assert(x[a].id == x[b].id);
            }
        }
    }
}

/// A point sequence with distinct ids has exactly one sorted permutation:
/// two sorted sequences with the same contents are equal.
pub proof fn lemma_sorted_unique_ids(x: Seq<PointV>, y: Seq<PointV>)
    requires
        sorted_points(x),
        sorted_points(y),
        ids_distinct(x),
        x.to_multiset() == y.to_multiset(),
    ensures
        x == y,
    decreases x.len(),
{
    broadcast use group_to_multiset_ensures;
    broadcast use vstd::multiset::group_multiset_axioms;
    broadcast use vstd::multiset::group_multiset_properties;

    if x.len() == 0 {
        assert(y.to_multiset().len() == 0);
        assert(x =~= y);
    } else {
        assert(y.len() == x.len()) by {
            assert(x.to_multiset().len() == x.len());
            assert(y.to_multiset().len() == y.len());
        }
        // the two head elements precede one another, so they share cluster and id
        assert(x.contains(x[0]));
        assert(y.to_multiset().count(x[0]) > 0);
        assert(y.contains(x[0]));
        let jy = choose|j: int| 0 <= j < y.len() && y[j] == x[0];
        assert(key_le(y[0], x[0])) by {
            if jy != 0 {
                assert(key_le(y[0], y[jy]));
            }
        }
        assert(y.contains(y[0]));
        assert(x.to_multiset().count(y[0]) > 0);
        assert(x.contains(y[0]));
        let jx = choose|j: int| 0 <= j < x.len() && x[j] == y[0];
        assert(key_le(x[0], y[0])) by {
            if jx != 0 {
                assert(key_le(x[0], x[jx]));
            }
        }
        assert(x[0].cluster == y[0].cluster && x[0].id == y[0].id);
        // distinct ids force the heads to be the very same element
        assert(x[jx].id == x[0].id);
        assert(jx == 0);
        assert(x[0] == y[0]);
        let xt = x.drop_first();
        let yt = y.drop_first();
        assert(x.remove(0) =~= xt);
        assert(y.remove(0) =~= yt);
        assert(xt.to_multiset() == x.to_multiset().remove(x[0]));
        assert(yt.to_multiset() == y.to_multiset().remove(y[0]));
        assert(xt.to_multiset() == yt.to_multiset());
        assert(sorted_points(xt)) by {
            assert(forall|i: int| 0 <= i < xt.len() ==> #[trigger] xt[i] == x[i + 1]);
        }
        assert(sorted_points(yt)) by {
            assert(forall|i: int| 0 <= i < yt.len() ==> #[trigger] yt[i] == y[i + 1]);
        }
        assert(ids_distinct(xt)) by {
            assert(forall|i: int| 0 <= i < xt.len() ==> #[trigger] xt[i] == x[i + 1]);
        }
        lemma_sorted_unique_ids(xt, yt);
        assert(x =~= y) by {
            assert(forall|i: int| 1 <= i < x.len() ==> #[trigger] x[i] == xt[i - 1]);
            assert(forall|i: int| 1 <= i < y.len() ==> #[trigger] y[i] == yt[i - 1]);
        }
    }
}

/// Sorting an already sorted sequence with distinct ids changes nothing.
pub proof fn lemma_sort_canon_of_sorted(s: Seq<PointV>)
    requires
        sorted_points(s),
        ids_distinct(s),
    ensures
        sort_canon(s) == s,
{
    lemma_sort_canon_props(s);
    lemma_sorted_unique_ids(s, sort_canon(s));
}

} // verus!
