//! Points, centroids, and the per-element steps of the engine: nearest
//! centroid search, reassignment, and the centroid-update rule.

use vstd::prelude::*;
use vstd::arithmetic::mul::lemma_mul_inequality;
use vstd::arithmetic::div_mod::{lemma_div_is_ordered, lemma_div_multiples_vanish};
use crate::model::{
    COORD_LIMIT, PointV, ClusterV, coord_ok, sq_dist, sq_dist_to, nearest_in_prefix, nearest_idx,
    nearest_id, reassigned_point, sum_coord, update_range,
};

verus! {

/// One data point: a stable identifier, its current cluster assignment, and
/// an immutable coordinate vector.
#[derive(Debug, Clone)]
pub struct Point {
    pub point_id: usize,
    pub cluster_id: usize,
    pub coord: Vec<i64>,
}

/// One cluster centroid: a stable identifier and a position that the update
/// step rewrites wholesale each pass.
#[derive(Debug, Clone)]
pub struct Cluster {
    pub cluster_id: usize,
    pub coord: Vec<i64>,
}

/// Coordinate vectors as the model sees them: arbitrary-precision integers.
pub open spec fn ints_of(c: Seq<i64>) -> Seq<int> {
    c.map_values(|x: i64| x as int)
}

impl View for Point {
    type V = PointV;

    open spec fn view(&self) -> PointV {
        PointV { id: self.point_id as int, cluster: self.cluster_id as int, coord: ints_of(self.coord@) }
    }
}

impl View for Cluster {
    type V = ClusterV;

    open spec fn view(&self) -> ClusterV {
        ClusterV { id: self.cluster_id as int, coord: ints_of(self.coord@) }
    }
}

/// The views of a sequence of points.
pub open spec fn pview(s: Seq<Point>) -> Seq<PointV> {
    s.map_values(|p: Point| p@)
}

/// The views of a sequence of centroids.
pub open spec fn cview(s: Seq<Cluster>) -> Seq<ClusterV> {
    s.map_values(|c: Cluster| c@)
}

/// Upper bound on one squared-difference term under `coord_ok` bounds.
pub const MAX_SQ_TERM: i128 = 0x10000000000000000;

/// Dimensionality is bounded by what a `u32` can describe, which keeps a
/// whole squared distance inside `i128`.
pub const DIM_LIMIT: usize = 0xffffffff;

/// Squared Euclidean distance between two equal-dimensional positions.
/// Distances are only ever compared, and squaring is monotone, so the
/// square root is never taken and the comparison stays exact.
pub fn distance_squared(a: &Vec<i64>, b: &Vec<i64>) -> (r: i128)
    requires
        coord_ok(ints_of(a@), a@.len() as int),
        coord_ok(ints_of(b@), b@.len() as int),
        a@.len() == b@.len(),
        a@.len() <= DIM_LIMIT,
    ensures
        r == sq_dist(ints_of(a@), ints_of(b@)),
        r >= 0,
{
    let ghost av = ints_of(a@);
    let ghost bv = ints_of(b@);
    let n = a.len();
    let mut acc: i128 = 0;
    let mut i: usize = 0;
    while i < n
        invariant
            0 <= i <= n,
            n == a@.len() == b@.len(),
            n <= DIM_LIMIT,
            coord_ok(av, n as int),
            coord_ok(bv, n as int),
            av == ints_of(a@),
            bv == ints_of(b@),
            acc == sq_dist_to(av, bv, i as int),
            0 <= acc <= (i as int) * (MAX_SQ_TERM as int),
        decreases n - i,
    {
        proof {
            assert(av[i as int] == a@[i as int] as int);
            assert(bv[i as int] == b@[i as int] as int);
        }
        let d: i64 = a[i] - b[i];
        proof {
            assert(0 <= (d as int) * (d as int) <= MAX_SQ_TERM as int) by (nonlinear_arith)
                requires
                    -0x100000000 <= d as int <= 0x100000000,
            ;
            lemma_mul_inequality(i as int, DIM_LIMIT as int, MAX_SQ_TERM as int);
        }
        let t: i128 = (d as i128) * (d as i128);
        acc = acc + t;
        i = i + 1;
    }
    acc
}

impl Point {
    /// Stable identifier of the point.
    pub fn id(&self) -> (r: usize)
        ensures
            r as int == self@.id,
    {
        self.point_id
    }

    /// Cluster the point is currently assigned to.
    pub fn cluster(&self) -> (r: usize)
        ensures
            r as int == self@.cluster,
    {
        self.cluster_id
    }

    /// The point's coordinates.
    pub fn coordinates(&self) -> (r: &Vec<i64>)
        ensures
            ints_of(r@) == self@.coord,
    {
        &self.coord
    }

    /// Identifier of the centroid nearest to this point, by squared
    /// Euclidean distance; ties go to the first occurrence in the centroid
    /// sequence, deterministically.
    pub fn closest_cluster(&self, clusters: &Vec<Cluster>) -> (r: usize)
        requires
            clusters@.len() >= 1,
            coord_ok(self@.coord, self@.coord.len() as int),
            self@.coord.len() <= DIM_LIMIT,
            forall|c: int| 0 <= c < clusters@.len() ==> coord_ok(
                (#[trigger] cview(clusters@)[c]).coord,
                self@.coord.len() as int,
            ),
        ensures
            r as int == nearest_id(self@.coord, cview(clusters@)),
            r as int == cview(clusters@)[nearest_idx(self@.coord, cview(clusters@))].id,
    {
        let ghost cv = self@.coord;
        let ghost clsv = cview(clusters@);
        let n = clusters.len();
        let mut best: usize = 0;
        proof {
            assert(clsv[0] == clusters@[0]@);
            assert(coord_ok(ints_of(clusters@[0].coord@), clusters@[0].coord@.len() as int));
            assert(coord_ok(ints_of(self.coord@), self.coord@.len() as int));
        }
        let mut best_d: i128 = distance_squared(&self.coord, &clusters[0].coord);
        let mut i: usize = 1;
        while i < n
        invariant
            1 <= i <= n,
            n == clusters@.len(),
            best < i,
            cv == self@.coord,
            clsv == cview(clusters@),
            coord_ok(cv, cv.len() as int),
            cv.len() <= DIM_LIMIT,
            forall|c: int| 0 <= c < clsv.len() ==> coord_ok(
                (#[trigger] clsv[c]).coord,
                cv.len() as int,
            ),
            best as int == nearest_in_prefix(cv, clsv, i as int),
            best_d == sq_dist(cv, clsv[best as int].coord),
        decreases n - i,
        {
            proof {
                assert(clsv[i as int] == clusters@[i as int]@);
                assert(coord_ok(ints_of(clusters@[i as int].coord@), clusters@[i as int].coord@.len() as int));
                assert(coord_ok(ints_of(self.coord@), self.coord@.len() as int));
            }
            let d = distance_squared(&self.coord, &clusters[i].coord);
            if d < best_d {
                best = i;
                best_d = d;
            }
            i = i + 1;
        }
        proof {
            assert(clsv[best as int] == clusters@[best as int]@);
        }
        clusters[best].cluster_id
    }

    /// The assignment step for one point: move it to its nearest centroid.
    /// Returns true when the assignment did not change, the unit of
    /// convergence tracking.
    pub fn change_cluster(&mut self, clusters: &Vec<Cluster>) -> (unchanged: bool)
        requires
            clusters@.len() >= 1,
            coord_ok(old(self)@.coord, old(self)@.coord.len() as int),
            old(self)@.coord.len() <= DIM_LIMIT,
            forall|c: int| 0 <= c < clusters@.len() ==> coord_ok(
                (#[trigger] cview(clusters@)[c]).coord,
                old(self)@.coord.len() as int,
            ),
        ensures
            final(self)@ == reassigned_point(old(self)@, cview(clusters@)),
            unchanged <==> old(self)@.cluster == final(self)@.cluster,
    {
        let old_cluster = self.cluster_id;
        let next = self.closest_cluster(clusters);
        self.cluster_id = next;
        old_cluster == next
    }
}

impl Cluster {
    /// A centroid with the given identifier at the given position.
    pub fn new(cluster_id: u32, coord: Vec<i64>) -> (r: Cluster)
        ensures
            r@.id == cluster_id as int,
            r@.coord == ints_of(coord@),
    {
        Cluster { cluster_id: cluster_id as usize, coord }
    }

    /// Stable identifier of the centroid.
    pub fn id(&self) -> (r: usize)
        ensures
            r as int == self@.id,
    {
        self.cluster_id
    }

    /// The centroid's position.
    pub fn coordinates(&self) -> (r: &Vec<i64>)
        ensures
            ints_of(r@) == self@.coord,
    {
        &self.coord
    }

    /// The centroid-update step for one centroid whose assigned points stand
    /// at indices `[lo, hi)` of the point sequence: each coordinate becomes
    /// the arithmetic mean of that coordinate over those points, rounded
    /// toward negative infinity. A centroid with no assigned points keeps
    /// its position: an empty group is handled here, never by dividing by
    /// zero.
    pub fn update_center(&mut self, points: &Vec<Point>, lo: usize, hi: usize)
        requires
            lo <= hi <= points@.len(),
            coord_ok(old(self)@.coord, old(self)@.coord.len() as int),
            forall|i: int| lo <= i < hi ==> coord_ok(
                (#[trigger] pview(points@)[i]).coord,
                old(self)@.coord.len() as int,
            ),
        ensures
            final(self)@ == update_range(old(self)@, pview(points@), lo as int, hi as int),
            coord_ok(final(self)@.coord, old(self)@.coord.len() as int),
    {
        if lo == hi {
            return ;
        }
        let ghost pv = pview(points@);
        let ghost oldc = self@;
        let cnt: usize = hi - lo;
        let dims = self.coord.len();
        let mut new_coord: Vec<i64> = Vec::new();
        let mut d: usize = 0;
        while d < dims
            invariant
                0 <= d <= dims,
                lo < hi <= points@.len(),
                cnt == hi - lo,
                pv == pview(points@),
                dims == oldc.coord.len(),
                forall|i: int| lo <= i < hi ==> coord_ok((#[trigger] pv[i]).coord, dims as int),
                new_coord@.len() == d,
                forall|e: int| 0 <= e < d ==> #[trigger] new_coord@[e] as int == sum_coord(
                    pv,
                    lo as int,
                    hi as int,
                    e,
                ) / (hi - lo),
                forall|e: int| 0 <= e < d ==> -(COORD_LIMIT as int) <= #[trigger] new_coord@[e] as int
                    <= COORD_LIMIT as int,
            decreases dims - d,
        {
            let mut sum: i128 = 0;
            let mut idx: usize = lo;
            while idx < hi
                invariant
                    lo <= idx <= hi <= points@.len(),
                    d < dims,
                    pv == pview(points@),
                    forall|i: int| lo <= i < hi ==> coord_ok((#[trigger] pv[i]).coord, dims as int),
                    sum == sum_coord(pv, lo as int, idx as int, d as int),
                    -((idx - lo) as int) * (COORD_LIMIT as int) <= sum
                        <= ((idx - lo) as int) * (COORD_LIMIT as int),
                decreases hi - idx,
            {
                proof {
                    assert(pv[idx as int] == points@[idx as int]@);
                    assert(pv[idx as int].coord[d as int] == points@[idx as int].coord@[d as int] as int);
                    lemma_mul_inequality(
                        (idx - lo) as int,
                        (idx - lo + 1) as int,
                        COORD_LIMIT as int,
                    );
                }
                sum = sum + points[idx].coord[d] as i128;
                idx = idx + 1;
            }
            proof {
                lemma_div_is_ordered(sum as int, (cnt as int) * (COORD_LIMIT as int), cnt as int);
                lemma_div_is_ordered(
                    -(cnt as int) * (COORD_LIMIT as int),
                    sum as int,
                    cnt as int,
                );
                lemma_div_multiples_vanish(COORD_LIMIT as int, cnt as int);
                lemma_div_multiples_vanish(-(COORD_LIMIT as int), cnt as int);
                assert((cnt as int) * (COORD_LIMIT as int) == (COORD_LIMIT as int) * (cnt as int));
                assert(-(cnt as int) * (COORD_LIMIT as int) == (cnt as int) * (-(COORD_LIMIT as int)))
                    by (nonlinear_arith);
                assert((cnt as int) * (-(COORD_LIMIT as int)) == (-(COORD_LIMIT as int)) * (cnt as int));
            }
            let q_opt = sum.checked_div_euclid(cnt as i128);
            let q: i128 = q_opt.unwrap();
            new_coord.push(q as i64);
            d = d + 1;
        }
        self.coord = new_coord;
        proof {
            assert(self@.coord =~= update_range(oldc, pv, lo as int, hi as int).coord);
        }
    }
}

/// What `points_from_vec` makes of point `i`: its identifier is its
/// position, it starts assigned to cluster 0, and its coordinates are the
/// buffer values at positions `[i*dim, i*dim + dim)`, clipped to the buffer
/// length for a short trailing group.
pub open spec fn chunked_point(p: PointV, i: int, v: Seq<i64>, dim: int) -> bool {
    &&& p.id == i
    &&& p.cluster == 0
    &&& p.coord == ints_of(
        v.subrange(
            i * dim,
            if i * dim + dim <= v.len() {
                i * dim + dim
            } else {
                v.len() as int
            },
        ),
    )
}

/// Splits a flat coordinate buffer into points of dimensionality `dim`, in
/// input order: point `i` takes the values at positions `[i*dim, (i+1)*dim)`,
/// a stable identifier equal to its position, and an initial assignment to
/// cluster 0. A trailing group shorter than `dim` still becomes a point, as
/// the configuration check rejects such buffers before a run.
pub fn points_from_vec(v: Vec<i64>, dim: u32) -> (r: Vec<Point>)
    requires
        dim >= 1,
    ensures
        r@.len() == (v@.len() + dim - 1) / (dim as int),
        forall|i: int| 0 <= i < r@.len() ==> chunked_point(
            #[trigger] pview(r@)[i],
            i,
            v@,
            dim as int,
        ),
{
    let mut points: Vec<Point> = Vec::new();
    let d = dim as usize;
    let n = v.len();
    let mut start: usize = 0;
    let mut pid: usize = 0;
    while start < n
        invariant
            0 <= start <= n,
            n == v@.len(),
            d == dim as int,
            d >= 1,
            start == pid * d || (start == n && n < pid * d),
            pid > 0 ==> (pid - 1) * d < n,
            n == 0 ==> pid == 0,
            points@.len() == pid,
            forall|i: int| 0 <= i < points@.len() ==> chunked_point(
                #[trigger] pview(points@)[i],
                i,
                v@,
                d as int,
            ),
        decreases n - start,
    {
        let end = if n - start < d {
            n
        } else {
            start + d
        };
        let mut coord: Vec<i64> = Vec::new();
        let mut j: usize = start;
        while j < end
            invariant
                start <= j <= end <= n,
                n == v@.len(),
                coord@.len() == j - start,
                forall|t: int| 0 <= t < coord@.len() ==> #[trigger] coord@[t] == v@[start + t],
            decreases end - j,
        {
            coord.push(v[j]);
            j = j + 1;
        }
        let p = Point { point_id: pid, cluster_id: 0, coord };
        proof {
            let lo = (pid as int) * (d as int);
            let hi = if lo + d as int <= n as int {
                lo + d as int
            } else {
                n as int
            };
            assert(lo == start as int);
            assert(hi == end as int);
            assert(p.coord@ =~= v@.subrange(lo, hi));
            assert(p@.coord =~= ints_of(v@.subrange(lo, hi)));
            assert(chunked_point(p@, pid as int, v@, d as int));
            assert(pid as int <= start as int) by (nonlinear_arith)
                requires
                    start as int == (pid as int) * (d as int),
                    d >= 1,
            ;
        }
        let ghost opts = points@;
        points.push(p);
        proof {
            assert(points@ == opts.push(p));
            assert(points@[opts.len() as int] == p);
            assert(forall|i: int| 0 <= i < points@.len() ==> #[trigger] pview(points@)[i]
                == points@[i]@);
            assert(forall|i: int| 0 <= i < opts.len() ==> #[trigger] pview(opts)[i] == opts[i]@);
            assert forall|i: int| 0 <= i < points@.len() implies chunked_point(
                #[trigger] pview(points@)[i],
                i,
                v@,
                d as int,
            ) by {
                if i < opts.len() {
                    assert(pview(points@)[i] == pview(opts)[i]);
                    assert(chunked_point(pview(opts)[i], i, v@, d as int));
                } else {
                    assert(pview(points@)[i] == p@);
                }
            }
        }
        proof {
            assert((pid as int + 1) * (d as int) == (pid as int) * (d as int) + d as int)
                by (nonlinear_arith);
        }
        pid = pid + 1;
        start = end;
    }
    proof {
        let nd = n as int;
        let dd = d as int;
        let p = points@.len() as int;
        if n == 0 {
            vstd::arithmetic::div_mod::lemma_basic_div(dd - 1, dd);
        } else {
            assert(p * dd >= nd);
            assert(nd > (p - 1) * dd);
            assert((p - 1) * dd == p * dd - dd) by (nonlinear_arith);
            vstd::arithmetic::div_mod::lemma_fundamental_div_mod_converse(
                nd + dd - 1,
                dd,
                p,
                nd + dd - 1 - p * dd,
            );
        }
    }
    points
}

} // verus!
