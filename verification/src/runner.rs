//! The iteration driver: owns the point store and the centroid set, and
//! drives the assign / sort / group / update loop to convergence or to the
//! iteration cap, in a sequential and a data-parallel mode. Both modes are
//! pinned by their contracts to the same `run_model`, so for equal inputs
//! they reach the same final assignment, the same centroid positions, and
//! the same iteration count.

use vstd::prelude::*;
use rayon::prelude::{
    IndexedParallelIterator, IntoParallelRefIterator, IntoParallelRefMutIterator,
    ParallelIterator, ParallelSliceMut,
};
use crate::config::{KmeansConfig, KmeansError};
use crate::model::{
    PointV, ClusterV, COORD_LIMIT, coord_ok, reassigned_point, reassign_all, update_range,
    update_all, sorted_points, ids_distinct, sort_canon, pass, run_model, nearest_idx,
    lemma_nearest_is_first_min,
};
use crate::point::{Point, Cluster, pview, cview, DIM_LIMIT};
use crate::groups::cluster_ranges;
use crate::sorting::{lemma_sort_canon_props, lemma_ids_distinct_permutation, lemma_sorted_unique_ids};

verus! {

/// A random source for centroid initialization. Declared so that signatures
/// of this crate can carry it; the sampling call itself stands behind
/// `sample_distinct_indices`.
#[verifier::external_type_specification]
#[verifier::external_body]
pub struct ExStdRng(rand::rngs::StdRng);

/// Relies on rand::seq::index::sample: it returns exactly `k` distinct
/// indices drawn from `0..n`, and panics when `k > n`, which the
/// precondition rules out. Nothing is assumed about which indices come
/// back: every caller must be correct for every outcome.
#[verifier::external_body]
fn sample_distinct_indices(rng: &mut rand::rngs::StdRng, n: usize, k: usize) -> (r: Vec<usize>)
    requires
        k <= n,
    ensures
        r@.len() == k,
        forall|i: int| 0 <= i < k ==> #[trigger] r@[i] < n,
        forall|i: int, j: int| 0 <= i < j < k ==> r@[i] != r@[j],
{
    rand::seq::index::sample(rng, n, k).into_vec()
}

/// Relies on slice::sort_unstable_by_key: it reorders the vector in place
/// into a permutation of itself that is sorted by the key, here cluster id
/// then point id.
#[verifier::external_body]
fn sort_points_seq(points: &mut Vec<Point>)
    ensures
        pview(final(points)@).to_multiset() == pview(old(points)@).to_multiset(),
        sorted_points(pview(final(points)@)),
{
    points.sort_unstable_by_key(|p| (p.cluster_id, p.point_id));
}

/// Relies on rayon's par_sort_unstable_by_key: like the sequential sort, it
/// reorders the vector in place into a permutation of itself sorted by the
/// key, here cluster id then point id.
#[verifier::external_body]
fn sort_points_par(points: &mut Vec<Point>)
    ensures
        pview(final(points)@).to_multiset() == pview(old(points)@).to_multiset(),
        sorted_points(pview(final(points)@)),
{
    points.par_sort_unstable_by_key(|p| (p.cluster_id, p.point_id));
}

/// Conjunction of two per-point "unchanged" flags, the reduction step of the
/// parallel assignment phase.
fn and_unchanged(a: bool, b: bool) -> (r: bool)
    ensures
        r == (a && b),
{
    a && b
}

/// Assigns every point to its nearest centroid, sequentially and in order,
/// and reports whether no point changed its assignment.
fn reassign_seq(points: &mut Vec<Point>, clusters: &Vec<Cluster>) -> (all_unchanged: bool)
    requires
        clusters@.len() >= 1,
        cview(clusters@)[0].coord.len() <= DIM_LIMIT,
        forall|c: int| 0 <= c < clusters@.len() ==> coord_ok(
            (#[trigger] cview(clusters@)[c]).coord,
            cview(clusters@)[0].coord.len() as int,
        ),
        forall|i: int| 0 <= i < old(points)@.len() ==> coord_ok(
            (#[trigger] pview(old(points)@)[i]).coord,
            cview(clusters@)[0].coord.len() as int,
        ),
    ensures
        final(points)@.len() == old(points)@.len(),
        forall|i: int| 0 <= i < final(points)@.len() ==> #[trigger] pview(final(points)@)[i]
            == reassigned_point(pview(old(points)@)[i], cview(clusters@)),
        all_unchanged <==> (forall|i: int| 0 <= i < final(points)@.len() ==> (
        #[trigger] pview(old(points)@)[i]).cluster == pview(final(points)@)[i].cluster),
{
    let ghost opts = pview(points@);
    let ghost clsv = cview(clusters@);
    let n = points.len();
    let mut all_unchanged = true;
    let mut i: usize = 0;
    while i < n
        invariant
            0 <= i <= n,
            n == points@.len(),
            clusters@.len() >= 1,
            clsv == cview(clusters@),
            clsv[0].coord.len() <= DIM_LIMIT,
            forall|c: int| 0 <= c < clsv.len() ==> coord_ok(
                (#[trigger] clsv[c]).coord,
                clsv[0].coord.len() as int,
            ),
            forall|j: int| 0 <= j < n ==> coord_ok(
                (#[trigger] opts[j]).coord,
                clsv[0].coord.len() as int,
            ),
            opts == pview(old(points)@),
            forall|j: int| i <= j < n ==> #[trigger] pview(points@)[j] == opts[j],
            forall|j: int| 0 <= j < i ==> #[trigger] pview(points@)[j] == reassigned_point(
                opts[j],
                clsv,
            ),
            all_unchanged <==> (forall|j: int| 0 <= j < i ==> (#[trigger] opts[j]).cluster
                == pview(points@)[j].cluster),
        decreases n - i,
    {
        let ghost snap = points@;
        proof {
            assert(pview(snap)[i as int] == snap[i as int]@);
            assert(snap[i as int]@ == opts[i as int]);
        }
        let p = vstd::std_specs::vec::vec_index_mut(points, i);
        let unchanged = p.change_cluster(clusters);
        proof {
            assert(forall|j: int| 0 <= j < n ==> #[trigger] pview(points@)[j] == points@[j]@);
            assert(points@[i as int]@ == reassigned_point(opts[i as int], clsv));
            assert forall|j: int| 0 <= j < n && j != i implies #[trigger] pview(points@)[j]
                == pview(snap)[j] by {
                assert(points@[j] == snap[j]);
                assert(pview(snap)[j] == snap[j]@);
                assert(pview(points@)[j] == points@[j]@);
            }
            assert forall|j: int| i < j < n implies #[trigger] pview(points@)[j] == opts[j] by {
                assert(pview(points@)[j] == pview(snap)[j]);
            }
            assert forall|j: int| 0 <= j <= i implies #[trigger] pview(points@)[j]
                == reassigned_point(opts[j], clsv) by {
                if j < i {
                    assert(pview(points@)[j] == pview(snap)[j]);
                }
            }
            assert(unchanged <==> opts[i as int].cluster == pview(points@)[i as int].cluster);
        }
        all_unchanged = and_unchanged(all_unchanged, unchanged);
        i = i + 1;
    }
    all_unchanged
}

/// Relies on rayon's par_iter_mut / map / reduce: the verified per-point
/// reassignment `Point::change_cluster` runs once for every point, each
/// write local to its own point, and the per-point "unchanged" flags are
/// reduced by logical conjunction (associative, with identity `true`).
/// The contract is that of `reassign_seq`: the phases are interchangeable.
#[verifier::external_body]
fn reassign_par(points: &mut Vec<Point>, clusters: &Vec<Cluster>) -> (all_unchanged: bool)
    requires
        clusters@.len() >= 1,
        cview(clusters@)[0].coord.len() <= DIM_LIMIT,
        forall|c: int| 0 <= c < clusters@.len() ==> coord_ok(
            (#[trigger] cview(clusters@)[c]).coord,
            cview(clusters@)[0].coord.len() as int,
        ),
        forall|i: int| 0 <= i < old(points)@.len() ==> coord_ok(
            (#[trigger] pview(old(points)@)[i]).coord,
            cview(clusters@)[0].coord.len() as int,
        ),
    ensures
        final(points)@.len() == old(points)@.len(),
        forall|i: int| 0 <= i < final(points)@.len() ==> #[trigger] pview(final(points)@)[i]
            == reassigned_point(pview(old(points)@)[i], cview(clusters@)),
        all_unchanged <==> (forall|i: int| 0 <= i < final(points)@.len() ==> (
        #[trigger] pview(old(points)@)[i]).cluster == pview(final(points)@)[i].cluster),
{
    points
        .par_iter_mut()
        .map(|p| p.change_cluster(clusters))
        .reduce(|| true, |a, b| and_unchanged(a, b))
}

/// Recomputes every centroid from its group of assigned points,
/// sequentially and in order. Range `c` of `ranges` tells which contiguous
/// run of `points` belongs to centroid `c`; an empty range leaves that
/// centroid where it stands.
fn update_clusters_seq(clusters: &mut Vec<Cluster>, points: &Vec<Point>, ranges: &Vec<(usize, usize)>)
    requires
        ranges@.len() == old(clusters)@.len(),
        forall|c: int| 0 <= c < ranges@.len() ==> (#[trigger] ranges@[c]).0 <= ranges@[c].1
            <= points@.len(),
        forall|c: int| 0 <= c < old(clusters)@.len() ==> coord_ok(
            (#[trigger] cview(old(clusters)@)[c]).coord,
            cview(old(clusters)@)[c].coord.len() as int,
        ),
        forall|c: int, i: int|
            0 <= c < old(clusters)@.len() && ranges@[c].0 <= i < ranges@[c].1 ==> coord_ok(
                (#[trigger] pview(points@)[i]).coord,
                (#[trigger] cview(old(clusters)@)[c]).coord.len() as int,
            ),
    ensures
        final(clusters)@.len() == old(clusters)@.len(),
        forall|c: int| 0 <= c < final(clusters)@.len() ==> #[trigger] cview(final(clusters)@)[c]
            == update_range(
            cview(old(clusters)@)[c],
            pview(points@),
            ranges@[c].0 as int,
            ranges@[c].1 as int,
        ),
        forall|c: int| 0 <= c < final(clusters)@.len() ==> coord_ok(
            (#[trigger] cview(final(clusters)@)[c]).coord,
            cview(old(clusters)@)[c].coord.len() as int,
        ),
{
    let ghost ocls = cview(clusters@);
    let ghost pv = pview(points@);
    let n = clusters.len();
    let mut c: usize = 0;
    while c < n
        invariant
            0 <= c <= n,
            n == clusters@.len() == old(clusters)@.len() == ranges@.len(),
            ocls == cview(old(clusters)@),
            pv == pview(points@),
            forall|t: int| 0 <= t < ranges@.len() ==> (#[trigger] ranges@[t]).0 <= ranges@[t].1
                <= points@.len(),
            forall|t: int| 0 <= t < n ==> coord_ok(
                (#[trigger] ocls[t]).coord,
                ocls[t].coord.len() as int,
            ),
            forall|t: int, i: int|
                0 <= t < n && ranges@[t].0 <= i < ranges@[t].1 ==> coord_ok(
                    (#[trigger] pv[i]).coord,
                    (#[trigger] ocls[t]).coord.len() as int,
                ),
            forall|t: int| c <= t < n ==> #[trigger] cview(clusters@)[t] == ocls[t],
            forall|t: int| 0 <= t < c ==> #[trigger] cview(clusters@)[t] == update_range(
                ocls[t],
                pv,
                ranges@[t].0 as int,
                ranges@[t].1 as int,
            ),
            forall|t: int| 0 <= t < c ==> coord_ok(
                (#[trigger] cview(clusters@)[t]).coord,
                ocls[t].coord.len() as int,
            ),
        decreases n - c,
    {
        let ghost snap = clusters@;
        proof {
            assert(cview(snap)[c as int] == snap[c as int]@);
        }
        let range = ranges[c];
        let cl = vstd::std_specs::vec::vec_index_mut(clusters, c);
        cl.update_center(points, range.0, range.1);
        proof {
            assert(forall|t: int| 0 <= t < n ==> #[trigger] cview(clusters@)[t]
                == clusters@[t]@);
            assert(clusters@[c as int]@ == update_range(
                ocls[c as int],
                pv,
                ranges@[c as int].0 as int,
                ranges@[c as int].1 as int,
            ));
            assert forall|t: int| 0 <= t < n && t != c implies #[trigger] cview(clusters@)[t]
                == cview(snap)[t] by {
                assert(clusters@[t] == snap[t]);
                assert(cview(snap)[t] == snap[t]@);
                assert(cview(clusters@)[t] == clusters@[t]@);
            }
        }
        c = c + 1;
    }
}

/// Relies on rayon's par_iter_mut / zip_eq / for_each: the verified
/// per-centroid update `Cluster::update_center` runs once for every
/// centroid, paired with its own index range; each write is local to its
/// own centroid, and the point store is only read. The contract is that of
/// `update_clusters_seq`: the phases are interchangeable.
#[verifier::external_body]
fn update_clusters_par(clusters: &mut Vec<Cluster>, points: &Vec<Point>, ranges: &Vec<(usize, usize)>)
    requires
        ranges@.len() == old(clusters)@.len(),
        forall|c: int| 0 <= c < ranges@.len() ==> (#[trigger] ranges@[c]).0 <= ranges@[c].1
            <= points@.len(),
        forall|c: int| 0 <= c < old(clusters)@.len() ==> coord_ok(
            (#[trigger] cview(old(clusters)@)[c]).coord,
            cview(old(clusters)@)[c].coord.len() as int,
        ),
        forall|c: int, i: int|
            0 <= c < old(clusters)@.len() && ranges@[c].0 <= i < ranges@[c].1 ==> coord_ok(
                (#[trigger] pview(points@)[i]).coord,
                (#[trigger] cview(old(clusters)@)[c]).coord.len() as int,
            ),
    ensures
        final(clusters)@.len() == old(clusters)@.len(),
        forall|c: int| 0 <= c < final(clusters)@.len() ==> #[trigger] cview(final(clusters)@)[c]
            == update_range(
            cview(old(clusters)@)[c],
            pview(points@),
            ranges@[c].0 as int,
            ranges@[c].1 as int,
        ),
        forall|c: int| 0 <= c < final(clusters)@.len() ==> coord_ok(
            (#[trigger] cview(final(clusters)@)[c]).coord,
            cview(old(clusters)@)[c].coord.len() as int,
        ),
{
    clusters
        .par_iter_mut()
        .zip_eq(ranges.par_iter())
        .for_each(|(cl, r)| cl.update_center(points, r.0, r.1));
}

/// A property true of every point survives any permutation of the points.
pub proof fn lemma_pointwise_permutation(x: Seq<PointV>, y: Seq<PointV>, f: spec_fn(PointV) -> bool)
    requires
        x.to_multiset() == y.to_multiset(),
        forall|i: int| 0 <= i < x.len() ==> f(#[trigger] x[i]),
    ensures
        forall|i: int| 0 <= i < y.len() ==> f(#[trigger] y[i]),
{
    broadcast use vstd::seq_lib::group_to_multiset_ensures;

    assert forall|i: int| 0 <= i < y.len() implies f(#[trigger] y[i]) by {
        assert(y.contains(y[i]));
        assert(x.to_multiset().count(y[i]) > 0);
        assert(x.contains(y[i]));
        let j = choose|j: int| 0 <= j < x.len() && x[j] == y[i];
        assert(f(x[j]));
    }
}

/// The bridge from one executed pass to the model's `pass`: given the
/// pointwise-reassigned points `rp` and any sorted permutation `sp` of
/// them, `sp` is exactly the model's sorted sequence, and it inherits
/// well-formedness, distinct ids, and valid cluster assignments.
pub proof fn lemma_pass_glue(
    p0: Seq<PointV>,
    cls: Seq<ClusterV>,
    rp: Seq<PointV>,
    sp: Seq<PointV>,
    dim: int,
    k: int,
)
    requires
        k >= 1,
        cls.len() == k,
        forall|c: int| 0 <= c < k ==> ((#[trigger] cls[c]).id == c && coord_ok(cls[c].coord, dim)),
        forall|i: int| 0 <= i < p0.len() ==> coord_ok((#[trigger] p0[i]).coord, dim),
        ids_distinct(p0),
        rp.len() == p0.len(),
        forall|i: int| 0 <= i < rp.len() ==> #[trigger] rp[i] == reassigned_point(p0[i], cls),
        sp.to_multiset() == rp.to_multiset(),
        sorted_points(sp),
    ensures
        rp == reassign_all(p0, cls),
        sp == sort_canon(rp),
        sp == pass(p0, cls).0,
        ids_distinct(sp),
        sp.len() == p0.len(),
        forall|i: int| 0 <= i < sp.len() ==> coord_ok((#[trigger] sp[i]).coord, dim),
        forall|i: int| 0 <= i < sp.len() ==> 0 <= (#[trigger] sp[i]).cluster < k,
        pass(p0, cls).2 <==> (forall|i: int| 0 <= i < p0.len() ==> (#[trigger] p0[i]).cluster
            == rp[i].cluster),
{
    assert(rp =~= reassign_all(p0, cls)) by {
        assert(forall|i: int| 0 <= i < p0.len() ==> #[trigger] reassign_all(p0, cls)[i]
            == reassigned_point(p0[i], cls));
    }
    assert forall|i: int| 0 <= i < rp.len() implies (0 <= (#[trigger] rp[i]).cluster < k
        && coord_ok(rp[i].coord, dim) && rp[i].id == p0[i].id) by {
        lemma_nearest_is_first_min(p0[i].coord, cls, k);
        assert(0 <= nearest_idx(p0[i].coord, cls) < k);
    }
    assert(ids_distinct(rp));
    lemma_sort_canon_props(rp);
    lemma_ids_distinct_permutation(rp, sort_canon(rp));
    lemma_sorted_unique_ids(sort_canon(rp), sp);
    lemma_ids_distinct_permutation(rp, sp);
    lemma_pointwise_permutation(rp, sp, |p: PointV| coord_ok(p.coord, dim));
    lemma_pointwise_permutation(rp, sp, |p: PointV| 0 <= p.cluster < k);
    assert(sp.len() == rp.len()) by {
        broadcast use vstd::seq_lib::group_to_multiset_ensures;

    }
    // convergence means the reassignment changed nothing, and the only
    // field the reassignment can change is the cluster slot
    assert((rp =~= p0) <==> (forall|i: int| 0 <= i < p0.len() ==> (#[trigger] p0[i]).cluster
        == rp[i].cluster)) by {
        if forall|i: int| 0 <= i < p0.len() ==> (#[trigger] p0[i]).cluster == rp[i].cluster {
            assert forall|i: int| 0 <= i < p0.len() implies #[trigger] rp[i] == p0[i] by {
                assert(rp[i].coord == p0[i].coord);
            }
        }
    }
}

/// The k-means iteration driver. It owns one flat point sequence and one
/// centroid sequence; cluster membership is a field on the point, so no
/// aliasing between clusters can arise.
#[derive(Debug, Clone)]
pub struct KMeansRunner {
    pub cfg: KmeansConfig,
    pub clusters: Vec<Cluster>,
    pub points: Vec<Point>,
}

impl KMeansRunner {
    /// The dimensionality every coordinate vector of this run must have.
    pub open spec fn dim(self) -> int {
        self.cfg.spatial_dimensions as int
    }

    /// Well-formedness of a runner: at least one centroid; centroid `c`
    /// carries id `c`; every coordinate vector, of points and centroids
    /// alike, has the configured dimensionality and bounded entries; and
    /// point ids are distinct.
    pub open spec fn wf(self) -> bool {
        &&& 1 <= self.cfg.k
        &&& self.clusters@.len() == self.cfg.k
        &&& forall|c: int| 0 <= c < self.clusters@.len() ==> ((#[trigger] cview(
            self.clusters@,
        )[c]).id == c && coord_ok(cview(self.clusters@)[c].coord, self.dim()))
        &&& forall|i: int| 0 <= i < self.points@.len() ==> coord_ok(
            (#[trigger] pview(self.points@)[i]).coord,
            self.dim(),
        )
        &&& ids_distinct(pview(self.points@))
    }

    /// Sets up a run: samples `k` distinct points without replacement from
    /// the supplied random source and places one centroid at each sampled
    /// point, with centroid ids `0..k` in sample order. The sampled points
    /// stay in the point set. Fails with `InvalidConfiguration` when `k` is
    /// zero or exceeds the point count; nothing about the result depends on
    /// which points the source picks beyond the stated shape.
    pub fn new(cfg: &KmeansConfig, points: Vec<Point>, random_src: &mut rand::rngs::StdRng) -> (r:
        Result<KMeansRunner, KmeansError>)
        requires
            forall|i: int| 0 <= i < points@.len() ==> coord_ok(
                (#[trigger] pview(points@)[i]).coord,
                cfg.spatial_dimensions as int,
            ),
            ids_distinct(pview(points@)),
        ensures
            r is Ok <==> 1 <= cfg.k <= points@.len(),
            r matches Ok(runner) ==> {
                &&& runner.wf()
                &&& runner.cfg == *cfg
                &&& pview(runner.points@) == pview(points@)
                &&& runner.clusters@.len() == cfg.k
                &&& exists|sel: Seq<int>|
                    {
                        &&& sel.len() == cfg.k
                        &&& (forall|i: int| 0 <= i < sel.len() ==> 0 <= #[trigger] sel[i]
                            < points@.len())
                        &&& (forall|i: int, j: int| 0 <= i < j < sel.len() ==> sel[i] != sel[j])
                        &&& (forall|i: int| 0 <= i < sel.len() ==> (#[trigger] cview(
                            runner.clusters@,
                        )[i]).coord == pview(points@)[sel[i]].coord)
                    }
            },
    {
        if cfg.k == 0 || cfg.k as usize > points.len() {
            return Err(KmeansError::InvalidConfiguration);
        }
        let k = cfg.k as usize;
        let idx = sample_distinct_indices(random_src, points.len(), k);
        let mut clusters: Vec<Cluster> = Vec::new();
        let mut i: usize = 0;
        while i < k
            invariant
                0 <= i <= k,
                k == cfg.k as int,
                idx@.len() == k,
                forall|t: int| 0 <= t < k ==> #[trigger] idx@[t] < points@.len(),
                forall|i2: int, j2: int| 0 <= i2 < j2 < k ==> idx@[i2] != idx@[j2],
                forall|t: int| 0 <= t < points@.len() ==> coord_ok(
                    (#[trigger] pview(points@)[t]).coord,
                    cfg.spatial_dimensions as int,
                ),
                clusters@.len() == i,
                forall|t: int| 0 <= t < i ==> {
                    &&& (#[trigger] cview(clusters@)[t]).id == t
                    &&& cview(clusters@)[t].coord == pview(points@)[idx@[t] as int].coord
                    &&& coord_ok(cview(clusters@)[t].coord, cfg.spatial_dimensions as int)
                },
            decreases k - i,
        {
            let src = &points[idx[i]];
            let mut coord: Vec<i64> = Vec::new();
            let mut j: usize = 0;
            let dims = src.coord.len();
            while j < dims
                invariant
                    0 <= j <= dims,
                    dims == src.coord@.len(),
                    coord@.len() == j,
                    forall|t: int| 0 <= t < j ==> #[trigger] coord@[t] == src.coord@[t],
                decreases dims - j,
            {
                coord.push(src.coord[j]);
                j = j + 1;
            }
            let cl = Cluster { cluster_id: i, coord };
            proof {
                assert(pview(points@)[idx@[i as int] as int] == points@[idx@[i as int] as int]@);
                assert(cl.coord@ =~= src.coord@);
                assert(cl@.coord =~= src@.coord);
            }
            let ghost ocls = clusters@;
            clusters.push(cl);
            proof {
                assert(clusters@[ocls.len() as int] == cl);
                assert forall|t: int| 0 <= t < clusters@.len() implies {
                    &&& (#[trigger] cview(clusters@)[t]).id == t
                    &&& cview(clusters@)[t].coord == pview(points@)[idx@[t] as int].coord
                    &&& coord_ok(cview(clusters@)[t].coord, cfg.spatial_dimensions as int)
                } by {
                    assert(cview(clusters@)[t] == clusters@[t]@);
                    if t < ocls.len() {
                        assert(clusters@[t] == ocls[t]);
                        assert(cview(ocls)[t] == ocls[t]@);
                    } else {
                        assert(cview(clusters@)[t] == cl@);
                        assert(pview(points@)[idx@[t] as int] == points@[idx@[t] as int]@);
                    }
                }
            }
            i = i + 1;
        }
        let runner = KMeansRunner { cfg: *cfg, clusters, points };
        proof {
            let sel = Seq::new(idx@.len() as nat, |t: int| idx@[t] as int);
            assert(sel.len() == cfg.k);
            assert(forall|t: int| 0 <= t < sel.len() ==> 0 <= #[trigger] sel[t]
                < runner.points@.len());
            assert(forall|t: int| 0 <= t < sel.len() ==> (#[trigger] cview(
                runner.clusters@,
            )[t]).coord == pview(runner.points@)[sel[t]].coord);
        }
        Ok(runner)
    }

    /// Runs the assign / sort / group / update loop sequentially until a
    /// pass changes no assignment or the iteration budget is exhausted, and
    /// returns the number of passes consumed. The whole outcome is pinned
    /// to the model's `run_model` — the same function `run_par` promises,
    /// which is why the two modes agree on every input.
    pub fn run_seq(&mut self) -> (iters: u32)
        requires
            old(self).wf(),
        ensures
            final(self).wf(),
            final(self).cfg == old(self).cfg,
            ({
                let (mp, mc, mi) = run_model(
                    pview(old(self).points@),
                    cview(old(self).clusters@),
                    old(self).cfg.max_iterations as nat,
                );
                &&& pview(final(self).points@) == mp
                &&& cview(final(self).clusters@) == mc
                &&& iters as nat == mi
            }),
            iters <= old(self).cfg.max_iterations,
            iters >= 1 ==> forall|i: int| 0 <= i < final(self).points@.len() ==> 0 <= (
            #[trigger] pview(final(self).points@)[i]).cluster < old(self).cfg.k,
    {
        let ghost p0 = pview(self.points@);
        let ghost c0 = cview(self.clusters@);
        let ghost maxn = self.cfg.max_iterations as nat;
        let ghost rm = run_model(p0, c0, maxn);
        let ghost cfg0 = self.cfg;
        let max_iterations = self.cfg.max_iterations;
        let k = self.cfg.k as usize;
        let mut iters: u32 = 0;
        let mut converged = false;
        while iters < max_iterations && !converged
            invariant
                self.wf(),
                self.cfg == cfg0,
                cfg0.max_iterations == max_iterations,
                k == cfg0.k as int,
                maxn == cfg0.max_iterations as nat,
                rm == run_model(p0, c0, maxn),
                iters <= max_iterations,
                !converged ==> ({
                    let (sp2, sc2, si2) = run_model(
                        pview(self.points@),
                        cview(self.clusters@),
                        (maxn - iters) as nat,
                    );
                    rm == (sp2, sc2, (si2 + iters) as nat)
                }),
                converged ==> rm == (pview(self.points@), cview(self.clusters@), iters as nat),
                converged ==> iters >= 1,
                iters >= 1 ==> forall|i: int| 0 <= i < self.points@.len() ==> 0 <= (
                #[trigger] pview(self.points@)[i]).cluster < cfg0.k,
            decreases max_iterations - iters,
        {
            let ghost pprev = pview(self.points@);
            let ghost cprev = cview(self.clusters@);
            let all_unchanged = reassign_seq(&mut self.points, &self.clusters);
            let ghost rp = pview(self.points@);
            sort_points_seq(&mut self.points);
            let ghost sp = pview(self.points@);
            proof {
                lemma_pass_glue(
                    pprev,
                    cprev,
                    rp,
                    sp,
                    cfg0.spatial_dimensions as int,
                    cfg0.k as int,
                );
            }
            let ranges = cluster_ranges(&self.points, k);
            update_clusters_seq(&mut self.clusters, &self.points, &ranges);
            proof {
                assert(cview(self.clusters@) =~= update_all(cprev, sp));
                let (mp1, mc1, conv1) = pass(pprev, cprev);
                assert(mp1 == sp);
                assert(mc1 == update_all(cprev, sp));
                assert(conv1 <==> all_unchanged);
            }
            converged = all_unchanged;
            iters = iters + 1;
        }
        iters
    }

    /// Runs the same loop with every phase data-parallel: reassignment is
    /// partitioned across points, the sort is a parallel sort, and centroid
    /// updates are partitioned across centroids. The contract is that of
    /// `run_seq`: the outcome is `run_model` of the starting state, so mode
    /// is a performance choice, never a behavioral one.
    pub fn run_par(&mut self) -> (iters: u32)
        requires
            old(self).wf(),
        ensures
            final(self).wf(),
            final(self).cfg == old(self).cfg,
            ({
                let (mp, mc, mi) = run_model(
                    pview(old(self).points@),
                    cview(old(self).clusters@),
                    old(self).cfg.max_iterations as nat,
                );
                &&& pview(final(self).points@) == mp
                &&& cview(final(self).clusters@) == mc
                &&& iters as nat == mi
            }),
            iters <= old(self).cfg.max_iterations,
            iters >= 1 ==> forall|i: int| 0 <= i < final(self).points@.len() ==> 0 <= (
            #[trigger] pview(final(self).points@)[i]).cluster < old(self).cfg.k,
    {
        let ghost p0 = pview(self.points@);
        let ghost c0 = cview(self.clusters@);
        let ghost maxn = self.cfg.max_iterations as nat;
        let ghost rm = run_model(p0, c0, maxn);
        let ghost cfg0 = self.cfg;
        let max_iterations = self.cfg.max_iterations;
        let k = self.cfg.k as usize;
        let mut iters: u32 = 0;
        let mut converged = false;
        while iters < max_iterations && !converged
            invariant
                self.wf(),
                self.cfg == cfg0,
                cfg0.max_iterations == max_iterations,
                k == cfg0.k as int,
                maxn == cfg0.max_iterations as nat,
                rm == run_model(p0, c0, maxn),
                iters <= max_iterations,
                !converged ==> ({
                    let (sp2, sc2, si2) = run_model(
                        pview(self.points@),
                        cview(self.clusters@),
                        (maxn - iters) as nat,
                    );
                    rm == (sp2, sc2, (si2 + iters) as nat)
                }),
                converged ==> rm == (pview(self.points@), cview(self.clusters@), iters as nat),
                converged ==> iters >= 1,
                iters >= 1 ==> forall|i: int| 0 <= i < self.points@.len() ==> 0 <= (
                #[trigger] pview(self.points@)[i]).cluster < cfg0.k,
            decreases max_iterations - iters,
        {
            let ghost pprev = pview(self.points@);
            let ghost cprev = cview(self.clusters@);
            let all_unchanged = reassign_par(&mut self.points, &self.clusters);
            let ghost rp = pview(self.points@);
            sort_points_par(&mut self.points);
            let ghost sp = pview(self.points@);
            proof {
                lemma_pass_glue(
                    pprev,
                    cprev,
                    rp,
                    sp,
                    cfg0.spatial_dimensions as int,
                    cfg0.k as int,
                );
            }
            let ranges = cluster_ranges(&self.points, k);
            update_clusters_par(&mut self.clusters, &self.points, &ranges);
            proof {
                assert(cview(self.clusters@) =~= update_all(cprev, sp));
                let (mp1, mc1, conv1) = pass(pprev, cprev);
                assert(mp1 == sp);
                assert(mc1 == update_all(cprev, sp));
                assert(conv1 <==> all_unchanged);
            }
            converged = all_unchanged;
            iters = iters + 1;
        }
        iters
    }
}

/// Runtime guard for callers outside verified code: checks that a point
/// sequence is well-formed for a run of dimensionality `dim` — every
/// point's identifier is its position, every coordinate vector has length
/// `dim`, and every coordinate is bounded. A `true` answer establishes the
/// precondition of `KMeansRunner::new`.
pub fn check_points(points: &Vec<Point>, dim: u32) -> (r: bool)
    ensures
        r ==> forall|i: int| 0 <= i < points@.len() ==> coord_ok(
            (#[trigger] pview(points@)[i]).coord,
            dim as int,
        ),
        r ==> ids_distinct(pview(points@)),
{
    let n = points.len();
    let mut i: usize = 0;
    while i < n
        invariant
            0 <= i <= n,
            n == points@.len(),
            forall|t: int| 0 <= t < i ==> coord_ok(
                (#[trigger] pview(points@)[t]).coord,
                dim as int,
            ),
            forall|t: int| 0 <= t < i ==> (#[trigger] pview(points@)[t]).id == t,
        decreases n - i,
    {
        proof {
            assert(pview(points@)[i as int] == points@[i as int]@);
        }
        let p = &points[i];
        if p.point_id != i {
            return false;
        }
        if p.coord.len() != dim as usize {
            return false;
        }
        let dims = p.coord.len();
        let mut d: usize = 0;
        while d < dims
            invariant
                0 <= d <= dims,
                dims == p.coord@.len(),
                forall|t: int| 0 <= t < d ==> -(COORD_LIMIT as int) <= #[trigger] p.coord@[t] as int
                    <= COORD_LIMIT as int,
            decreases dims - d,
        {
            let c = p.coord[d];
            if c < -COORD_LIMIT || c > COORD_LIMIT {
                return false;
            }
            d = d + 1;
        }
        proof {
            assert(points@[i as int]@.coord == crate::point::ints_of(p.coord@));
            assert(forall|t: int| 0 <= t < p.coord@.len() ==> #[trigger] crate::point::ints_of(
                p.coord@,
            )[t] == p.coord@[t] as int);
            assert(coord_ok(pview(points@)[i as int].coord, dim as int));
        }
        i = i + 1;
    }
    proof {
        assert(ids_distinct(pview(points@)));
    }
    true
}

/// Two runners with the same points, centroids, and budget are promised the
/// same outcome by `run_seq` and `run_par` alike: both contracts name
/// `run_model`, so the final assignment, the final centroid positions, and
/// the iteration count coincide across modes.
pub proof fn lemma_mode_equivalence(a: KMeansRunner, b: KMeansRunner)
    requires
        pview(a.points@) == pview(b.points@),
        cview(a.clusters@) == cview(b.clusters@),
        a.cfg.max_iterations == b.cfg.max_iterations,
    ensures
        run_model(pview(a.points@), cview(a.clusters@), a.cfg.max_iterations as nat) == run_model(
            pview(b.points@),
            cview(b.clusters@),
            b.cfg.max_iterations as nat,
        ),
{
}

} // verus!
