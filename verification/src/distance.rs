//! Pairwise Euclidean distances between point sets, and the statistics
//! derived from them: the mean pairwise distance and the nearest-neighbour
//! distance per query point with a self-exclusion policy.
//!
//! A distance is the floor of the real Euclidean distance between two integer
//! coordinate rows, i.e. `sqrt_floor` of the exact squared distance; callers
//! that want sub-unit precision scale their coordinates up before calling.

use vstd::prelude::*;

use crate::sums::{sq, sum_int, lemma_sum_take_succ, lemma_sum_nonneg, lemma_sum_zero,
    lemma_sum_elem_le};
use crate::sqrt::{sqrt_floor, isqrt, lemma_sqrt_floor_le, lemma_sqrt_floor_zero_iff};
use crate::types::{StatError, Ratio, in_coord_range, MAX_COORD, MAX_POINTS, MAX_DIMS};

verus! {

/// Largest possible exact squared distance between two rows in range:
/// `MAX_DIMS * (2 * MAX_COORD)^2`.
pub const MAX_SQDIST: i64 = 40_000_000_000_000_000;

/// Largest possible distance entry: the floor square root of `MAX_SQDIST`.
pub const MAX_DIST: i64 = 200_000_000;

/// Every value of a coordinate row is within the accepted range.
pub open spec fn row_ok(r: Seq<i64>) -> bool {
    forall|i: int| 0 <= i < r.len() ==> in_coord_range(#[trigger] r[i])
}

/// A set of points: `rows` are the points, each a row of `dims` feature
/// values.
#[derive(Debug)]
pub struct PointSet {
    pub dims: usize,
    pub rows: Vec<Vec<i64>>,
}

impl View for PointSet {
    type V = Seq<Seq<i64>>;

    open spec fn view(&self) -> Seq<Seq<i64>> {
        self.rows@.map_values(|r: Vec<i64>| r@)
    }
}

impl PointSet {
    /// Well-formed: rectangular with `dims` columns, within the size and
    /// coordinate limits.
    pub open spec fn wf(self) -> bool {
        &&& self.rows@.len() <= MAX_POINTS as int
        &&& self.dims <= MAX_DIMS
        &&& forall|i: int| 0 <= i < self.rows@.len()
            ==> (#[trigger] self.rows@[i])@.len() == self.dims as int
        &&& forall|i: int| 0 <= i < self.rows@.len() ==> row_ok((#[trigger] self.rows@[i])@)
    }

    /// Runtime check of `wf`.
    pub fn is_well_formed(&self) -> (b: bool)
        ensures
            b == self.wf(),
    {
        if self.rows.len() > MAX_POINTS || self.dims > MAX_DIMS {
            return false;
        }
        let n = self.rows.len();
        let mut i: usize = 0;
        while i < n
            invariant
                0 <= i <= n,
                n == self.rows@.len(),
                n <= MAX_POINTS,
                self.dims <= MAX_DIMS,
                forall|k: int| 0 <= k < i
                    ==> (#[trigger] self.rows@[k])@.len() == self.dims as int,
                forall|k: int| 0 <= k < i ==> row_ok((#[trigger] self.rows@[k])@),
            decreases n - i,
        {
            let row = &self.rows[i];
            if row.len() != self.dims {
                return false;
            }
            if !crate::types::coords_in_range(row) {
                return false;
            }
            i = i + 1;
        }
        true
    }
}

/// The squared differences, coordinate by coordinate, of two rows.
pub open spec fn sqdist_terms(q: Seq<i64>, d: Seq<i64>) -> Seq<int> {
    Seq::new(q.len(), |f: int| sq(q[f] - d[f]))
}

/// Exact squared Euclidean distance between two rows.
pub open spec fn sqdist(q: Seq<i64>, d: Seq<i64>) -> int {
    sum_int(sqdist_terms(q, d))
}

/// A distance-matrix entry: the floor square root of the exact squared
/// distance.
pub open spec fn dist_entry(q: Seq<i64>, d: Seq<i64>) -> int {
    sqrt_floor(sqdist(q, d))
}

/// Every distance entry is non-negative.
pub proof fn lemma_dist_entry_nonneg(q: Seq<i64>, d: Seq<i64>)
    ensures
        0 <= dist_entry(q, d),
{
    let t = sqdist_terms(q, d);
    assert forall|i: int| 0 <= i < t.len() implies 0 <= #[trigger] t[i] by {
        let df = q[i] - d[i];
        assert(0 <= df * df) by (nonlinear_arith);
    };
    lemma_sum_nonneg(t);
    crate::sqrt::lemma_sqrt_floor_exists(sqdist(q, d));
}

/// A distance entry of zero means the two rows are identical.
pub proof fn lemma_zero_distance_equal(a: Seq<i64>, b: Seq<i64>)
    requires
        a.len() == b.len(),
        dist_entry(a, b) == 0,
    ensures
        a == b,
{
    let t = sqdist_terms(a, b);
    assert forall|i: int| 0 <= i < t.len() implies 0 <= #[trigger] t[i] by {
        let df = a[i] - b[i];
        assert(0 <= df * df) by (nonlinear_arith);
    };
    lemma_sum_nonneg(t);
    lemma_sqrt_floor_zero_iff(sqdist(a, b));
    assert forall|i: int| 0 <= i < a.len() implies a[i] == b[i] by {
        lemma_sum_elem_le(t, i);
        let df = a[i] - b[i];
        assert(df == 0) by (nonlinear_arith)
            requires df * df == 0;
    };
    assert(a =~= b);
}

/// Every point is at distance zero from itself, so the diagonal of a
/// self-distance matrix is zero.
pub proof fn lemma_self_distance_zero(p: Seq<i64>)
    ensures
        dist_entry(p, p) == 0,
{
    let t = sqdist_terms(p, p);
    assert(forall|i: int| 0 <= i < t.len() ==> #[trigger] t[i] == 0);
    lemma_sum_zero(t);
    lemma_sqrt_floor_zero_iff(0);
}

/// The distance between two rows does not depend on their order, so a
/// self-distance matrix is symmetric: entry (i, j) equals entry (j, i).
pub proof fn lemma_dist_entry_symmetric(a: Seq<i64>, b: Seq<i64>)
    requires
        a.len() == b.len(),
    ensures
        dist_entry(a, b) == dist_entry(b, a),
{
    let t1 = sqdist_terms(a, b);
    let t2 = sqdist_terms(b, a);
    assert forall|i: int| 0 <= i < t1.len() implies #[trigger] t1[i] == t2[i] by {
        let df = a[i] - b[i];
        let dg = b[i] - a[i];
        assert(df * df == dg * dg) by (nonlinear_arith)
            requires df == -dg;
    };
    assert(t1 =~= t2);
}

/// Of a matrix of a point set against itself: every entry is non-negative,
/// the diagonal is zero, and the matrix is symmetric.
pub proof fn lemma_self_matrix_properties(m: DistanceMatrix, p: Seq<Seq<i64>>, k: int)
    requires
        m.is_distances_of(p, p),
        forall|i: int| 0 <= i < p.len() ==> (#[trigger] p[i]).len() == k,
    ensures
        forall|i: int, j: int| 0 <= i < p.len() && 0 <= j < p.len()
            ==> 0 <= #[trigger] m@[i][j],
        forall|i: int| 0 <= i < p.len() ==> #[trigger] m@[i][i] == 0,
        forall|i: int, j: int| 0 <= i < p.len() && 0 <= j < p.len()
            ==> #[trigger] m@[i][j] == m@[j][i],
{
    assert forall|i: int, j: int| 0 <= i < p.len() && 0 <= j < p.len()
        implies 0 <= #[trigger] m@[i][j] by {
        lemma_dist_entry_nonneg(p[i], p[j]);
    };
    assert forall|i: int| 0 <= i < p.len() implies #[trigger] m@[i][i] == 0 by {
        lemma_self_distance_zero(p[i]);
    };
    assert forall|i: int, j: int| 0 <= i < p.len() && 0 <= j < p.len()
        implies #[trigger] m@[i][j] == m@[j][i] by {
        lemma_dist_entry_symmetric(p[i], p[j]);
    };
}

/// Squared distance between two rows, computed exactly.
fn sq_dist_row(q: &Vec<i64>, d: &Vec<i64>) -> (r: i64)
    requires
        q@.len() == d@.len(),
        q@.len() <= MAX_DIMS as int,
        row_ok(q@),
        row_ok(d@),
    ensures
        r as int == sqdist(q@, d@),
        0 <= r <= MAX_SQDIST,
{
    let k = q.len();
    let mut acc: i64 = 0;
    let mut f: usize = 0;
    while f < k
        invariant
            0 <= f <= k,
            k == q@.len(),
            k == d@.len(),
            k <= MAX_DIMS,
            row_ok(q@),
            row_ok(d@),
            acc as int == sum_int(sqdist_terms(q@, d@).take(f as int)),
            0 <= acc as int <= (f as int) * 4_000_000_000_000,
        decreases k - f,
    {
        proof {
            assert(in_coord_range(q@[f as int]));
            assert(in_coord_range(d@[f as int]));
        }
        let dv: i64 = q[f] - d[f];
        proof {
            assert(0 <= (dv as int) * (dv as int) <= 4_000_000_000_000) by (nonlinear_arith)
                requires -2_000_000 <= dv as int <= 2_000_000;
            assert((f as int) * 4_000_000_000_000 + 4_000_000_000_000
                == ((f as int) + 1) * 4_000_000_000_000) by (nonlinear_arith);
            assert(((f as int) + 1) * 4_000_000_000_000 <= MAX_SQDIST as int) by (nonlinear_arith)
                requires (f as int) + 1 <= 10_000;
            lemma_sum_take_succ(sqdist_terms(q@, d@), f as int);
        }
        let t: i64 = dv * dv;
        acc = acc + t;
        f = f + 1;
    }
    proof {
        assert(sqdist_terms(q@, d@).take(k as int) =~= sqdist_terms(q@, d@));
    }
    acc
}

/// Distance entry between two rows, computed exactly.
fn dist_entry_row(q: &Vec<i64>, d: &Vec<i64>) -> (r: i64)
    requires
        q@.len() == d@.len(),
        q@.len() <= MAX_DIMS as int,
        row_ok(q@),
        row_ok(d@),
    ensures
        r as int == dist_entry(q@, d@),
        0 <= r <= MAX_DIST,
{
    let s = sq_dist_row(q, d);
    proof {
        assert((MAX_DIST as int) * (MAX_DIST as int) == MAX_SQDIST as int) by (nonlinear_arith);
        lemma_sqrt_floor_le(s as int, MAX_DIST as int);
    }
    let rr = isqrt(s as i128);
    rr as i64
}

/// The full matrix of entries of `query` against `data`, row by row.
fn mat_entries(data: &PointSet, query: &PointSet) -> (m: Vec<Vec<i64>>)
    requires
        data.wf(),
        query.wf(),
        data.dims == query.dims,
    ensures
        m@.len() == query@.len(),
        forall|i: int| 0 <= i < m@.len() ==> (#[trigger] m@[i])@.len() == data@.len(),
        forall|i: int, j: int| 0 <= i < m@.len() && 0 <= j < data@.len()
            ==> (#[trigger] m@[i]@[j]) as int == dist_entry(query@[i], data@[j]),
        forall|i: int, j: int| 0 <= i < m@.len() && 0 <= j < data@.len()
            ==> 0 <= #[trigger] m@[i]@[j] <= MAX_DIST,
{
    let nq = query.rows.len();
    let nd = data.rows.len();
    let mut m: Vec<Vec<i64>> = Vec::new();
    let mut i: usize = 0;
    while i < nq
        invariant
            0 <= i <= nq,
            nq == query@.len(),
            nd == data@.len(),
            data.wf(),
            query.wf(),
            data.dims == query.dims,
            m@.len() == i,
            forall|a: int| 0 <= a < i ==> (#[trigger] m@[a])@.len() == nd as int,
            forall|a: int, b: int| 0 <= a < i && 0 <= b < nd
                ==> (#[trigger] m@[a]@[b]) as int == dist_entry(query@[a], data@[b]),
            forall|a: int, b: int| 0 <= a < i && 0 <= b < nd
                ==> 0 <= #[trigger] m@[a]@[b] <= MAX_DIST,
        decreases nq - i,
    {
        let qrow = &query.rows[i];
        let mut row: Vec<i64> = Vec::new();
        let mut j: usize = 0;
        while j < nd
            invariant
                0 <= j <= nd,
                0 <= i < nq,
                nq == query@.len(),
                nd == data@.len(),
                data.wf(),
                query.wf(),
                data.dims == query.dims,
                qrow@ == query@[i as int],
                qrow@.len() == query.dims as int,
                row_ok(qrow@),
                row@.len() == j,
                forall|b: int| 0 <= b < j
                    ==> (#[trigger] row@[b]) as int == dist_entry(query@[i as int], data@[b]),
                forall|b: int| 0 <= b < j ==> 0 <= #[trigger] row@[b] <= MAX_DIST,
            decreases nd - j,
        {
            let drow = &data.rows[j];
            proof {
                assert(drow@ == data@[j as int]);
                assert(drow@.len() == data.dims as int);
            }
            let e = dist_entry_row(qrow, drow);
            row.push(e);
            j = j + 1;
        }
        m.push(row);
        i = i + 1;
    }
    m
}

/// A matrix of pairwise distances: entry (i, j) is the distance between
/// query point i and data point j.
#[derive(Debug)]
pub struct DistanceMatrix {
    pub entries: Vec<Vec<i64>>,
}

impl View for DistanceMatrix {
    type V = Seq<Seq<i64>>;

    open spec fn view(&self) -> Seq<Seq<i64>> {
        self.entries@.map_values(|r: Vec<i64>| r@)
    }
}

impl DistanceMatrix {
    /// The matrix holds exactly the distances of `query` against `data`.
    pub open spec fn is_distances_of(self, data: Seq<Seq<i64>>, query: Seq<Seq<i64>>) -> bool {
        &&& self@.len() == query.len()
        &&& forall|i: int| 0 <= i < query.len() ==> (#[trigger] self@[i]).len() == data.len()
        &&& forall|i: int, j: int| 0 <= i < query.len() && 0 <= j < data.len()
            ==> (#[trigger] self@[i][j]) as int == dist_entry(query[i], data[j])
    }
}

/// Pairwise distance matrix of `query` against `data`: entry (i, j) is the
/// Euclidean distance between query point i and data point j.  The column
/// counts of the two sets must agree; empty sets give an empty matrix.
pub fn distmat(data: &PointSet, query: &PointSet) -> (r: Result<DistanceMatrix, StatError>)
    requires
        data.wf(),
        query.wf(),
    ensures
        r is Ok <==> data.dims == query.dims,
        r matches Err(e) ==> e == StatError::DimensionMismatch,
        r matches Ok(m) ==> m.is_distances_of(data@, query@),
        r matches Ok(m) ==> forall|i: int, j: int|
            0 <= i < query@.len() && 0 <= j < data@.len() ==> 0 <= #[trigger] m@[i][j] <= MAX_DIST,
{
    if data.dims != query.dims {
        return Err(StatError::DimensionMismatch);
    }
    let entries = mat_entries(data, query);
    Ok(DistanceMatrix { entries })
}

/// Sum of row `i` of the self-distance matrix of `p`.
pub open spec fn row_total(p: Seq<Seq<i64>>, i: int) -> int {
    sum_int(Seq::new(p.len(), |j: int| dist_entry(p[i], p[j])))
}

/// Sum of all entries of the self-distance matrix of `p`.
pub open spec fn mat_total(p: Seq<Seq<i64>>) -> int {
    sum_int(Seq::new(p.len(), |i: int| row_total(p, i)))
}

/// The total of the self-distance matrix of identical points is zero, so the
/// mean pairwise distance of a set of identical points is zero.
pub proof fn lemma_mat_total_identical(p: Seq<Seq<i64>>)
    requires
        forall|i: int| 0 <= i < p.len() ==> #[trigger] p[i] == p[0],
    ensures
        mat_total(p) == 0,
{
    let rt = Seq::new(p.len(), |i: int| row_total(p, i));
    assert forall|i: int| 0 <= i < rt.len() implies #[trigger] rt[i] == 0 by {
        let t = Seq::new(p.len(), |j: int| dist_entry(p[i], p[j]));
        assert forall|j: int| 0 <= j < t.len() implies #[trigger] t[j] == 0 by {
            assert(p[j] == p[0] && p[i] == p[0]);
            lemma_self_distance_zero(p[i]);
        };
        lemma_sum_zero(t);
    };
    lemma_sum_zero(rt);
}

/// Mean pairwise distance of a point set against itself: the sum of all
/// distance-matrix entries divided by `n * (n - 1)`, i.e. the mean over the
/// off-diagonal pairs (the diagonal contributes zero to the sum).  Needs at
/// least two points.
pub fn d_bar(points: &PointSet) -> (r: Result<Ratio, StatError>)
    requires
        points.wf(),
    ensures
        r is Ok <==> points@.len() >= 2,
        r matches Err(e) ==> e == StatError::DegenerateInput,
        r matches Ok(v) ==> {
            &&& v.num == mat_total(points@)
            &&& v.den == points@.len() * (points@.len() - 1)
            &&& 0 < v.den
            &&& 0 <= v.num
        },
{
    let n = points.rows.len();
    if n < 2 {
        return Err(StatError::DegenerateInput);
    }
    let m = mat_entries(points, points);
    let ghost rowsums = Seq::new(points@.len(), |i: int| row_total(points@, i));
    let mut total: i128 = 0;
    let mut i: usize = 0;
    while i < n
        invariant
            0 <= i <= n,
            n == points@.len(),
            2 <= n <= MAX_POINTS,
            m@.len() == n,
            forall|a: int| 0 <= a < n ==> (#[trigger] m@[a])@.len() == n as int,
            forall|a: int, b: int| 0 <= a < n && 0 <= b < n
                ==> (#[trigger] m@[a]@[b]) as int == dist_entry(points@[a], points@[b]),
            forall|a: int, b: int| 0 <= a < n && 0 <= b < n
                ==> 0 <= #[trigger] m@[a]@[b] <= MAX_DIST,
            rowsums == Seq::new(points@.len(), |a: int| row_total(points@, a)),
            total == sum_int(rowsums.take(i as int)),
            0 <= total <= (i as int) * 2_000_000_000_000,
        decreases n - i,
    {
        let ghost terms = Seq::new(points@.len(), |j: int| dist_entry(points@[i as int], points@[j]));
        let mut rsum: i128 = 0;
        let mut j: usize = 0;
        while j < n
            invariant
                0 <= j <= n,
                0 <= i < n,
                n == points@.len(),
                2 <= n <= MAX_POINTS,
                m@.len() == n,
                forall|a: int| 0 <= a < n ==> (#[trigger] m@[a])@.len() == n as int,
                forall|a: int, b: int| 0 <= a < n && 0 <= b < n
                    ==> (#[trigger] m@[a]@[b]) as int == dist_entry(points@[a], points@[b]),
                forall|a: int, b: int| 0 <= a < n && 0 <= b < n
                    ==> 0 <= #[trigger] m@[a]@[b] <= MAX_DIST,
                terms == Seq::new(points@.len(), |b: int| dist_entry(points@[i as int], points@[b])),
                rsum == sum_int(terms.take(j as int)),
                0 <= rsum <= (j as int) * (MAX_DIST as int),
            decreases n - j,
        {
            let mrow = &m[i];
            let e = mrow[j];
            proof {
                lemma_sum_take_succ(terms, j as int);
                assert((j as int) * (MAX_DIST as int) + MAX_DIST as int
                    == ((j as int) + 1) * (MAX_DIST as int)) by (nonlinear_arith);
            }
            rsum = rsum + (e as i128);
            j = j + 1;
        }
        proof {
            assert(terms.take(n as int) =~= terms);
            assert(rsum == row_total(points@, i as int));
            lemma_sum_take_succ(rowsums, i as int);
            assert((n as int) * (MAX_DIST as int) <= 2_000_000_000_000) by (nonlinear_arith)
                requires n as int <= 10_000;
            assert((i as int) * 2_000_000_000_000 + 2_000_000_000_000
                == ((i as int) + 1) * 2_000_000_000_000) by (nonlinear_arith);
            assert(((i as int) + 1) * 2_000_000_000_000 <= 20_000_000_000_000_000) by (nonlinear_arith)
                requires (i as int) + 1 <= 10_000;
        }
        total = total + rsum;
        i = i + 1;
    }
    proof {
        assert(rowsums.take(n as int) =~= rowsums);
        assert(sum_int(rowsums) == mat_total(points@));
        assert(0 < (n as int) * ((n as int) - 1) <= 100_000_000) by (nonlinear_arith)
            requires 2 <= n as int <= 10_000;
    }
    let den = (n as i128) * ((n as i128) - 1);
    Ok(Ratio { num: total, den })
}

/// Index `j` may be compared against row `i`: always when the two sets are
/// known to be distinct, and only off the diagonal otherwise.
pub open spec fn allowed_index(i: int, j: int, distinct: bool) -> bool {
    distinct || i != j
}

/// Nearest-neighbour distance of each query point to the data set.  When
/// `distinct` is false the diagonal is excluded before the reduction, so a
/// point is never matched against itself; a row whose every index is
/// excluded yields `None` (an infinite distance).  A zero minimum occurs only
/// when an allowed data row coincides exactly with the query row.
pub fn min_dists(data: &PointSet, query: &PointSet, distinct: bool) -> (r: Result<
    Vec<Option<i64>>,
    StatError,
>)
    requires
        data.wf(),
        query.wf(),
    ensures
        r is Ok <==> (data.dims == query.dims && data@.len() >= 1),
        r matches Err(e) ==> (e == StatError::DimensionMismatch <==> data.dims != query.dims),
        r matches Err(e) ==> (e == StatError::DegenerateInput
            <==> (data.dims == query.dims && data@.len() == 0)),
        r matches Ok(v) ==> {
            &&& v@.len() == query@.len()
            &&& forall|i: int| 0 <= i < v@.len()
                ==> ((#[trigger] v@[i]) is None
                    <==> !(exists|j: int| 0 <= j < data@.len() && allowed_index(i, j, distinct)))
            &&& forall|i: int| 0 <= i < v@.len() ==> ((#[trigger] v@[i]) matches Some(mv) ==> {
                &&& exists|j: int| 0 <= j < data@.len() && allowed_index(i, j, distinct)
                    && dist_entry(query@[i], data@[j]) == mv as int
                &&& forall|j: int| 0 <= j < data@.len() && allowed_index(i, j, distinct)
                    ==> mv as int <= dist_entry(query@[i], data@[j])
            })
            &&& forall|i: int| 0 <= i < v@.len() ==> ((#[trigger] v@[i]) matches Some(mv) && mv == 0
                ==> exists|j: int| 0 <= j < data@.len() && allowed_index(i, j, distinct)
                    && data@[j] == query@[i])
        },
{
    if data.dims != query.dims {
        return Err(StatError::DimensionMismatch);
    }
    let nd = data.rows.len();
    if nd == 0 {
        return Err(StatError::DegenerateInput);
    }
    let m = mat_entries(data, query);
    let nq = query.rows.len();
    let mut out: Vec<Option<i64>> = Vec::new();
    let mut i: usize = 0;
    while i < nq
        invariant
            0 <= i <= nq,
            nq == query@.len(),
            nd == data@.len(),
            1 <= nd,
            data.wf(),
            query.wf(),
            data.dims == query.dims,
            m@.len() == nq,
            forall|a: int| 0 <= a < nq ==> (#[trigger] m@[a])@.len() == nd as int,
            forall|a: int, b: int| 0 <= a < nq && 0 <= b < nd
                ==> (#[trigger] m@[a]@[b]) as int == dist_entry(query@[a], data@[b]),
            out@.len() == i,
            forall|a: int| 0 <= a < i
                ==> ((#[trigger] out@[a]) is None
                    <==> !(exists|j: int| 0 <= j < nd && allowed_index(a, j, distinct))),
            forall|a: int| 0 <= a < i ==> ((#[trigger] out@[a]) matches Some(mv) ==> {
                &&& exists|j: int| 0 <= j < nd && allowed_index(a, j, distinct)
                    && dist_entry(query@[a], data@[j]) == mv as int
                &&& forall|j: int| 0 <= j < nd && allowed_index(a, j, distinct)
                    ==> mv as int <= dist_entry(query@[a], data@[j])
            }),
            forall|a: int| 0 <= a < i ==> ((#[trigger] out@[a]) matches Some(mv) && mv == 0
                ==> exists|j: int| 0 <= j < nd && allowed_index(a, j, distinct)
                    && data@[j] == query@[a]),
        decreases nq - i,
    {
        let mut best: Option<i64> = None;
        let mut j: usize = 0;
        while j < nd
            invariant
                0 <= j <= nd,
                0 <= i < nq,
                nq == query@.len(),
                nd == data@.len(),
                m@.len() == nq,
                forall|a: int| 0 <= a < nq ==> (#[trigger] m@[a])@.len() == nd as int,
                forall|a: int, b: int| 0 <= a < nq && 0 <= b < nd
                    ==> (#[trigger] m@[a]@[b]) as int == dist_entry(query@[a], data@[b]),
                best is None <==> !(exists|jj: int|
                    0 <= jj < j && allowed_index(i as int, jj, distinct)),
                best matches Some(bv) ==> {
                    &&& exists|jj: int| 0 <= jj < j && allowed_index(i as int, jj, distinct)
                        && dist_entry(query@[i as int], data@[jj]) == bv as int
                    &&& forall|jj: int| 0 <= jj < j && allowed_index(i as int, jj, distinct)
                        ==> bv as int <= dist_entry(query@[i as int], data@[jj])
                },
            decreases nd - j,
        {
            if distinct || j != i {
                let mrow = &m[i];
                let e = mrow[j];
                proof {
                    assert(allowed_index(i as int, j as int, distinct));
                }
                best = match best {
                    None => Some(e),
                    Some(b) => if e < b {
                        Some(e)
                    } else {
                        Some(b)
                    },
                };
            }
            j = j + 1;
        }
        proof {
            match best {
                Some(bv) => {
                    if bv == 0 {
                        let jj = choose|jj: int| 0 <= jj < nd
                            && allowed_index(i as int, jj, distinct)
                            && dist_entry(query@[i as int], data@[jj]) == bv as int;
                        assert(query@[i as int].len() == query.dims as int);
                        assert(data@[jj].len() == data.dims as int);
                        lemma_zero_distance_equal(query@[i as int], data@[jj]);
                    }
                },
                None => {},
            }
        }
        out.push(best);
        i = i + 1;
    }
    Ok(out)
}

} // verus!
