//! Grouping points that are already sorted by cluster id into contiguous
//! runs, without copying any point: only index ranges are produced.

use vstd::prelude::*;
use crate::model::{PointV, count_lt, count_eq, group_lo, group_hi, sorted_points, key_le};
use crate::point::{Point, pview};

verus! {

/// A one-pass iterator over the maximal runs of equal cluster id in a point
/// sequence. Each call to `next` yields the index range of one run; the
/// ranges are non-empty, non-overlapping, in order, and adjacent runs have
/// different cluster ids.
pub struct SortedSliceIter<'a> {
    elems: &'a Vec<Point>,
    pos: usize,
}

impl<'a> SortedSliceIter<'a> {
    /// The underlying points, as the model sees them.
    pub closed spec fn spec_elems(&self) -> Seq<PointV> {
        pview(self.elems@)
    }

    /// How far the iterator has advanced: every run up to this index has
    /// been yielded.
    pub closed spec fn spec_pos(&self) -> int {
        self.pos as int
    }

    /// The iterator never stands past the end of the sequence.
    pub open spec fn wf(&self) -> bool {
        0 <= self.spec_pos() <= self.spec_elems().len()
    }

    /// A fresh iterator over `elems`, standing at the start.
    pub fn new(elems: &'a Vec<Point>) -> (r: SortedSliceIter<'a>)
        ensures
            r.spec_elems() == pview(elems@),
            r.spec_pos() == 0,
            r.wf(),
    {
        SortedSliceIter { elems, pos: 0 }
    }

    /// Yields the next maximal run of equal cluster id as an index range
    /// `[lo, hi)`, or `None` once the sequence is exhausted.
    pub fn next(&mut self) -> (r: Option<(usize, usize)>)
        requires
            old(self).wf(),
        ensures
            final(self).spec_elems() == old(self).spec_elems(),
            final(self).wf(),
            r is None <==> old(self).spec_pos() == old(self).spec_elems().len(),
            r is None ==> final(self).spec_pos() == old(self).spec_pos(),
            r matches Some(run) ==> {
                let s = old(self).spec_elems();
                &&& run.0 == old(self).spec_pos()
                &&& run.0 < run.1 <= s.len()
                &&& final(self).spec_pos() == run.1
                &&& forall|i: int| run.0 <= i < run.1 ==> (#[trigger] s[i]).cluster
                    == s[run.0 as int].cluster
                &&& run.1 < s.len() ==> s[run.1 as int].cluster != s[run.0 as int].cluster
            },
    {
        let n = self.elems.len();
        if self.pos >= n {
            return None;
        }
        let lo = self.pos;
        let ghost s = self.spec_elems();
        let first = self.elems[lo].cluster_id;
        let mut i: usize = lo + 1;
        while i < n && self.elems[i].cluster_id == first
            invariant
                lo < i <= n,
                n == self.elems@.len(),
                s == pview(self.elems@),
                first as int == s[lo as int].cluster,
                forall|j: int| lo <= j < i ==> (#[trigger] s[j]).cluster == s[lo as int].cluster,
            decreases n - i,
        {
            proof {
                assert(s[i as int] == self.elems@[i as int]@);
            }
            i = i + 1;
        }
        proof {
            assert(i < n ==> s[i as int] == self.elems@[i as int]@);
        }
        self.pos = i;
        Some((lo, i))
    }
}

/// Counting points below a boundary: if the points assigned below cluster
/// `c` are exactly those at indices below `b`, there are `b` of them.
pub proof fn lemma_count_lt_boundary(s: Seq<PointV>, c: int, b: int)
    requires
        0 <= b <= s.len(),
        forall|i: int| 0 <= i < s.len() ==> ((#[trigger] s[i]).cluster < c <==> i < b),
    ensures
        count_lt(s, c) == b,
    decreases s.len(),
{
    if s.len() > 0 {
        let t = s.drop_last();
        let last = (s.len() - 1) as int;
        if s[last].cluster < c {
            lemma_count_lt_boundary(t, c, s.len() as int - 1);
        } else {
            lemma_count_lt_boundary(t, c, b);
        }
    }
}

/// Counting a contiguous group: if the points assigned to cluster `c` are
/// exactly those at indices in `[lo, hi)`, there are `hi - lo` of them.
pub proof fn lemma_count_eq_range(s: Seq<PointV>, c: int, lo: int, hi: int)
    requires
        0 <= lo <= hi <= s.len(),
        forall|i: int| 0 <= i < s.len() ==> ((#[trigger] s[i]).cluster == c <==> lo <= i < hi),
    ensures
        count_eq(s, c) == hi - lo,
    decreases s.len(),
{
    if s.len() > 0 {
        let t = s.drop_last();
        let last = (s.len() - 1) as int;
        if s[last].cluster == c {
            lemma_count_eq_range(t, c, lo, hi - 1);
        } else {
            if hi <= last {
                lemma_count_eq_range(t, c, lo, hi);
            } else {
                lemma_count_eq_range(t, c, 0, 0);
            }
        }
    }
}

/// For every cluster id below `k`, the index range its points occupy in a
/// point sequence sorted by cluster id. Range `c` is exactly
/// `[group_lo(s, c), group_hi(s, c))`; a cluster with no points gets an
/// empty range. Only index ranges are built: no point is copied.
pub fn cluster_ranges(points: &Vec<Point>, k: usize) -> (r: Vec<(usize, usize)>)
    requires
        sorted_points(pview(points@)),
        forall|i: int| 0 <= i < points@.len() ==> 0 <= (#[trigger] pview(points@)[i]).cluster
            < k,
    ensures
        r@.len() == k,
        forall|c: int| 0 <= c < k ==> (#[trigger] r@[c]).0 == group_lo(pview(points@), c)
            && r@[c].1 == group_hi(pview(points@), c),
        forall|c: int| 0 <= c < k ==> (#[trigger] r@[c]).0 <= r@[c].1 <= points@.len(),
{
    let ghost s = pview(points@);
    let n = points.len();
    let mut ranges: Vec<(usize, usize)> = Vec::new();
    let mut i: usize = 0;
    let mut c: usize = 0;
    while c < k
        invariant
            0 <= c <= k,
            0 <= i <= n,
            n == points@.len(),
            s == pview(points@),
            sorted_points(s),
            forall|j: int| 0 <= j < s.len() ==> 0 <= (#[trigger] s[j]).cluster < k,
            ranges@.len() == c,
            forall|c2: int| 0 <= c2 < c ==> (#[trigger] ranges@[c2]).0 == group_lo(s, c2)
                && ranges@[c2].1 == group_hi(s, c2),
            forall|c2: int| 0 <= c2 < c ==> (#[trigger] ranges@[c2]).0 <= ranges@[c2].1 <= n,
            forall|j: int| 0 <= j < i ==> (#[trigger] s[j]).cluster < c,
            forall|j: int| i <= j < s.len() ==> (#[trigger] s[j]).cluster >= c,
        decreases k - c,
    {
        let lo = i;
        while i < n && points[i].cluster_id == c
            invariant
                lo <= i <= n,
                n == points@.len(),
                s == pview(points@),
                sorted_points(s),
                c < k,
                forall|j: int| 0 <= j < lo ==> (#[trigger] s[j]).cluster < c,
                forall|j: int| lo <= j < i ==> (#[trigger] s[j]).cluster == c,
                forall|j: int| i <= j < s.len() ==> (#[trigger] s[j]).cluster >= c,
            decreases n - i,
        {
            proof {
                assert(s[i as int] == points@[i as int]@);
                assert(forall|j: int| i < j < s.len() ==> key_le(s[i as int], #[trigger] s[j]));
            }
            i = i + 1;
        }
        proof {
            assert(i < n ==> s[i as int] == points@[i as int]@);
            assert(i < n ==> s[i as int].cluster > c);
            assert(forall|j: int| i < j < s.len() ==> key_le(s[i as int], #[trigger] s[j]));
            assert(forall|j: int| i <= j < s.len() ==> (#[trigger] s[j]).cluster > c);
            lemma_count_lt_boundary(s, c as int, lo as int);
            lemma_count_eq_range(s, c as int, lo as int, i as int);
        }
        ranges.push((lo, i));
        c = c + 1;
    }
    ranges
}

} // verus!
