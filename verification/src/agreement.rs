//! Agreement statistics between a truth series and an estimate series:
//! the geometric mean functional relationship (GMFR) fit, the sum of squared
//! differences (SSD), the sum of potential difference (SPOD), and the
//! unsystematic/systematic decomposition of SSD (SPDU and SPDS), after
//! Ji & Gallo (2006).
//!
//! Every mean enters as an exact ratio: a value that the real-valued
//! formulas divide by `n` is kept as a numerator over an explicit
//! denominator, so each result below is stated exactly.  The only rounding
//! is the floor square root inside the GMFR slope, whose numerator is
//! reported over the fixed denominator `SCALE`.

use vstd::prelude::*;
use vstd::arithmetic::div_mod::{lemma_div_multiples_vanish, lemma_div_nonincreasing,
    lemma_div_pos_is_pos};

use crate::sums::{sq, abs_val, sum_int, lemma_sum_take_succ, lemma_sum_bound, lemma_sum_nonneg,
    lemma_sum_zero, lemma_sum_elem_le};
use crate::sqrt::{sqrt_floor, isqrt, lemma_sqrt_floor_le, lemma_sqrt_floor_square};
use crate::types::{StatError, Ratio, series_ok, in_coord_range, SCALE, MAX_LEN};

verus! {

/// A series as a sequence of unbounded integers.
pub open spec fn series_terms(s: Seq<i64>) -> Seq<int> {
    Seq::new(s.len(), |i: int| s[i] as int)
}

/// Sum of a series.
pub open spec fn series_sum(s: Seq<i64>) -> int {
    sum_int(series_terms(s))
}

/// Deviation of sample `i` from the series mean, scaled by the length:
/// `n * s[i] - sum(s)`, i.e. `n` times `s[i] - mean(s)`.
pub open spec fn dev(s: Seq<i64>, i: int) -> int {
    s.len() * s[i] - series_sum(s)
}

/// The scaled squared deviations of a series.
pub open spec fn ssdev_terms(s: Seq<i64>) -> Seq<int> {
    Seq::new(s.len(), |i: int| sq(dev(s, i)))
}

/// Sum of scaled squared deviations: `n * n` times the population variance
/// numerator `sum((s[i] - mean)^2)`.  Zero exactly when the series is
/// constant.
pub open spec fn ssdev(s: Seq<i64>) -> int {
    sum_int(ssdev_terms(s))
}

/// The squared pairwise differences of two series.
pub open spec fn ssd_terms(t: Seq<i64>, e: Seq<i64>) -> Seq<int> {
    Seq::new(t.len(), |i: int| sq(t[i] - e[i]))
}

/// Sum of squared differences between paired series.
pub open spec fn ssd_spec(t: Seq<i64>, e: Seq<i64>) -> int {
    sum_int(ssd_terms(t, e))
}

/// Numerator of the GMFR slope over denominator `SCALE`: the floor square
/// root of `SCALE^2 * ssdev(t) / ssdev(e)`, carrying the caller's sign.
pub open spec fn gmfr_b_num(t: Seq<i64>, e: Seq<i64>, sign: int) -> int {
    sign * sqrt_floor(((SCALE as int) * (SCALE as int) * ssdev(t)) / ssdev(e))
}

/// Numerator of the GMFR intercept over denominator `SCALE * n`:
/// `mean(t) - b * mean(e)` with every mean kept over its denominator.
pub open spec fn gmfr_a_num(t: Seq<i64>, e: Seq<i64>, sign: int) -> int {
    (SCALE as int) * series_sum(t) - gmfr_b_num(t, e, sign) * series_sum(e)
}

/// The SPOD terms over denominator `n * n`:
/// `(|mean(t) - mean(e)| + |t[i] - mean(t)|) * (|mean(t) - mean(e)| + |e[i] - mean(e)|)`
/// with both factors multiplied through by `n`.
pub open spec fn spod_terms(t: Seq<i64>, e: Seq<i64>) -> Seq<int> {
    Seq::new(t.len(), |i: int|
        (abs_val(series_sum(t) - series_sum(e)) + abs_val(dev(t, i)))
        * (abs_val(series_sum(t) - series_sum(e)) + abs_val(dev(e, i))))
}

/// Numerator of SPOD over denominator `n * n`.
pub open spec fn spod_num(t: Seq<i64>, e: Seq<i64>) -> int {
    sum_int(spod_terms(t, e))
}

/// Residual of `t[i]` against the GMFR prediction from `e[i]`, multiplied
/// through by the denominator `SCALE * n`.
pub open spec fn resid_t_num(t: Seq<i64>, e: Seq<i64>, sign: int, i: int) -> int {
    (SCALE as int) * t.len() * t[i] - gmfr_a_num(t, e, sign)
        - t.len() * gmfr_b_num(t, e, sign) * e[i]
}

/// Residual of `e[i]` against the GMFR prediction from `t[i]` (the fit in
/// the opposite direction), multiplied through by `SCALE * n`.
pub open spec fn resid_e_num(t: Seq<i64>, e: Seq<i64>, sign: int, i: int) -> int {
    (SCALE as int) * e.len() * e[i] - gmfr_a_num(e, t, sign)
        - e.len() * gmfr_b_num(e, t, sign) * t[i]
}

/// The SPDU terms over denominator `(SCALE * n)^2`.
pub open spec fn spdu_terms(t: Seq<i64>, e: Seq<i64>, sign: int) -> Seq<int> {
    Seq::new(t.len(), |i: int|
        abs_val(resid_e_num(t, e, sign, i)) * abs_val(resid_t_num(t, e, sign, i)))
}

/// Numerator of SPDU over denominator `(SCALE * n)^2`.
pub open spec fn spdu_num(t: Seq<i64>, e: Seq<i64>, sign: int) -> int {
    sum_int(spdu_terms(t, e, sign))
}

/// The common denominator of SPDU and SPDS: `(SCALE * n)^2`.
pub open spec fn spd_den(n: int) -> int {
    sq((SCALE as int) * n)
}

/// Numerator of SPDS over `(SCALE * n)^2`: SSD minus SPDU over the common
/// denominator.
pub open spec fn spds_num(t: Seq<i64>, e: Seq<i64>, sign: int) -> int {
    ssd_spec(t, e) * spd_den(t.len() as int) - spdu_num(t, e, sign)
}

/// The sum of a series in range is bounded.
pub proof fn lemma_series_sum_bound(s: Seq<i64>)
    requires
        series_ok(s),
    ensures
        -10_000_000_000 <= series_sum(s) <= 10_000_000_000,
{
    let t = series_terms(s);
    assert forall|i: int| 0 <= i < t.len()
        implies -1_000_000 <= #[trigger] t[i] <= 1_000_000 by {
        assert(in_coord_range(s[i]));
    };
    lemma_sum_bound(t, 1_000_000);
    assert(t.len() * 1_000_000 <= 10_000_000_000) by (nonlinear_arith)
        requires t.len() <= 10_000;
}

/// The scaled deviation of a sample in range is bounded.
pub proof fn lemma_dev_bound(s: Seq<i64>, i: int)
    requires
        series_ok(s),
        0 <= i < s.len(),
    ensures
        -20_000_000_000 <= dev(s, i) <= 20_000_000_000,
{
    lemma_series_sum_bound(s);
    assert(in_coord_range(s[i]));
    assert(-10_000_000_000 <= s.len() * s[i] <= 10_000_000_000) by (nonlinear_arith)
        requires s.len() <= 10_000, -1_000_000 <= s[i] <= 1_000_000;
}

/// The sum of scaled squared deviations is non-negative and bounded.
pub proof fn lemma_ssdev_bounds(s: Seq<i64>)
    requires
        series_ok(s),
    ensures
        0 <= ssdev(s) <= 400_000_000_000_000_000_000_000_0,
{
    let t = ssdev_terms(s);
    assert forall|i: int| 0 <= i < t.len()
        implies 0 <= #[trigger] t[i] <= 400_000_000_000_000_000_000 by {
        lemma_dev_bound(s, i);
        let d = dev(s, i);
        assert(0 <= d * d <= 400_000_000_000_000_000_000) by (nonlinear_arith)
            requires -20_000_000_000 <= d <= 20_000_000_000;
    };
    assert forall|i: int| 0 <= i < t.len()
        implies -400_000_000_000_000_000_000 <= #[trigger] t[i] <= 400_000_000_000_000_000_000 by {
    };
    lemma_sum_nonneg(t);
    lemma_sum_bound(t, 400_000_000_000_000_000_000);
    assert(t.len() * 400_000_000_000_000_000_000 <= 400_000_000_000_000_000_000_000_0)
        by (nonlinear_arith)
        requires t.len() <= 10_000;
}

/// Bounds on the GMFR coefficient numerators for series in range.
pub proof fn lemma_gmfr_num_bounds(t: Seq<i64>, e: Seq<i64>, sign: int)
    requires
        series_ok(t),
        series_ok(e),
        sign == 1 || sign == -1,
        ssdev(e) != 0,
    ensures
        abs_val(gmfr_b_num(t, e, sign)) <= 20_000_000_000_000_000,
        abs_val(gmfr_a_num(t, e, sign)) <= 300_000_000_000_000_000_000_000_000,
{
    lemma_ssdev_bounds(t);
    lemma_ssdev_bounds(e);
    let num = (SCALE as int) * (SCALE as int) * ssdev(t);
    assert(0 <= num <= 400_000_000_000_000_000_000_000_000_000_000) by (nonlinear_arith)
        requires
            num == (SCALE as int) * (SCALE as int) * ssdev(t),
            SCALE == 10_000,
            0 <= ssdev(t) <= 400_000_000_000_000_000_000_000_0;
    lemma_div_pos_is_pos(num, ssdev(e));
    lemma_div_nonincreasing(num, ssdev(e));
    assert(20_000_000_000_000_000 * 20_000_000_000_000_000
        == 400_000_000_000_000_000_000_000_000_000_000) by (nonlinear_arith);
    lemma_sqrt_floor_le(num / ssdev(e), 20_000_000_000_000_000);
    let bb = sqrt_floor(num / ssdev(e));
    let b = gmfr_b_num(t, e, sign);
    if sign == 1 {
        assert(b == bb);
    } else {
        assert(b == -bb);
    }
    assert(abs_val(b) <= 20_000_000_000_000_000);
    lemma_series_sum_bound(t);
    lemma_series_sum_bound(e);
    assert(-200_000_000_000_000_000_000_000_000 <= b * series_sum(e)
        <= 200_000_000_000_000_000_000_000_000) by (nonlinear_arith)
        requires
            -20_000_000_000_000_000 <= b <= 20_000_000_000_000_000,
            -10_000_000_000 <= series_sum(e) <= 10_000_000_000;
}

/// One direction of the SPDU residual bound: the slope numerator times the
/// other series' deviation is at most `SCALE` times the square root of its
/// own sum of squared deviations, so a large slope meets only small
/// deviations and the residual numerator stays bounded.
proof fn lemma_resid_one_direction(t: Seq<i64>, e: Seq<i64>, sign: int, i: int)
    requires
        series_ok(t),
        series_ok(e),
        t.len() == e.len(),
        0 <= i < t.len(),
        sign == 1 || sign == -1,
        ssdev(t) != 0,
        ssdev(e) != 0,
    ensures
        abs_val(resid_t_num(t, e, sign, i)) <= 21_000_000_000_000_000,
{
    let nn = t.len() as int;
    let st = series_sum(t);
    let se = series_sum(e);
    let b = gmfr_b_num(t, e, sign);
    let a = gmfr_a_num(t, e, sign);
    let dn = ssdev(e);
    lemma_ssdev_bounds(t);
    lemma_ssdev_bounds(e);
    let num = (SCALE as int) * (SCALE as int) * ssdev(t);
    assert(0 <= num <= 400_000_000_000_000_000_000_000_000_000_000) by (nonlinear_arith)
        requires
            num == (SCALE as int) * (SCALE as int) * ssdev(t),
            SCALE == 10_000,
            0 <= ssdev(t) <= 400_000_000_000_000_000_000_000_0;
    let q = num / dn;
    let s0 = sqrt_floor(q);
    lemma_div_pos_is_pos(num, dn);
    crate::sqrt::lemma_sqrt_floor_exists(q);
    vstd::arithmetic::div_mod::lemma_fundamental_div_mod(num, dn);
    vstd::arithmetic::div_mod::lemma_mod_bound(num, dn);
    assert(dn * q <= num);
    let de = dev(e, i);
    let tms = ssdev_terms(e);
    assert forall|k: int| 0 <= k < tms.len() implies 0 <= #[trigger] tms[k] by {
        let d = dev(e, k);
        assert(0 <= d * d) by (nonlinear_arith);
    };
    lemma_sum_elem_le(tms, i);
    assert(de * de <= dn);
    assert(b * b == s0 * s0) by (nonlinear_arith)
        requires
            b == sign * s0,
            sign == 1 || sign == -1;
    assert(s0 * s0 <= q);
    assert((b * de) * (b * de) == (b * b) * (de * de)) by (nonlinear_arith);
    assert((b * b) * (de * de) <= q * (de * de)) by (nonlinear_arith)
        requires
            b * b <= q,
            0 <= de * de;
    assert(q * (de * de) <= q * dn) by (nonlinear_arith)
        requires
            de * de <= dn,
            0 <= q;
    assert(q * dn == dn * q) by (nonlinear_arith);
    assert((b * de) * (b * de) <= 400_000_000_000_000_000_000_000_000_000_000);
    assert(-20_000_000_000_000_000 <= b * de <= 20_000_000_000_000_000) by (nonlinear_arith)
        requires (b * de) * (b * de) <= 400_000_000_000_000_000_000_000_000_000_000;
    lemma_dev_bound(t, i);
    let x = t[i] as int;
    let y = e[i] as int;
    assert(resid_t_num(t, e, sign, i) == (SCALE as int) * dev(t, i) - b * dev(e, i))
        by (nonlinear_arith)
        requires
            resid_t_num(t, e, sign, i) == (SCALE as int) * nn * x - a - nn * b * y,
            a == (SCALE as int) * st - b * se,
            dev(t, i) == nn * x - st,
            dev(e, i) == nn * y - se;
    assert(-200_000_000_000_000 <= (SCALE as int) * dev(t, i) <= 200_000_000_000_000)
        by (nonlinear_arith)
        requires
            -20_000_000_000 <= dev(t, i) <= 20_000_000_000,
            SCALE == 10_000;
}

/// Both SPDU residual numerators are bounded well within the kernel's
/// integer range.
pub proof fn lemma_resid_bounds(t: Seq<i64>, e: Seq<i64>, sign: int, i: int)
    requires
        series_ok(t),
        series_ok(e),
        t.len() == e.len(),
        0 <= i < t.len(),
        sign == 1 || sign == -1,
        ssdev(t) != 0,
        ssdev(e) != 0,
    ensures
        abs_val(resid_t_num(t, e, sign, i)) <= 21_000_000_000_000_000,
        abs_val(resid_e_num(t, e, sign, i)) <= 21_000_000_000_000_000,
{
    lemma_resid_one_direction(t, e, sign, i);
    lemma_resid_one_direction(e, t, sign, i);
    assert(resid_e_num(t, e, sign, i) == resid_t_num(e, t, sign, i));
}

/// The SPDU numerator is non-negative and, for series in range, fits the
/// kernel's 128-bit integers with a wide margin: the sum can never
/// overflow.
pub proof fn lemma_spdu_num_bounds(t: Seq<i64>, e: Seq<i64>, sign: int)
    requires
        series_ok(t),
        series_ok(e),
        t.len() == e.len(),
        sign == 1 || sign == -1,
        ssdev(t) != 0,
        ssdev(e) != 0,
    ensures
        0 <= spdu_num(t, e, sign),
        spdu_num(t, e, sign) <= 4_410_000_000_000_000_000_000_000_000_000_000_000,
{
    let tm = spdu_terms(t, e, sign);
    assert forall|i: int| 0 <= i < tm.len()
        implies 0 <= #[trigger] tm[i] <= 441_000_000_000_000_000_000_000_000_000_000 by {
        lemma_resid_bounds(t, e, sign, i);
        let x = abs_val(resid_e_num(t, e, sign, i));
        let y = abs_val(resid_t_num(t, e, sign, i));
        assert(0 <= x * y <= 441_000_000_000_000_000_000_000_000_000_000) by (nonlinear_arith)
            requires
                0 <= x <= 21_000_000_000_000_000,
                0 <= y <= 21_000_000_000_000_000;
    };
    assert forall|i: int| 0 <= i < tm.len()
        implies -441_000_000_000_000_000_000_000_000_000_000 <= #[trigger] tm[i]
            <= 441_000_000_000_000_000_000_000_000_000_000 by {
    };
    lemma_sum_nonneg(tm);
    lemma_sum_bound(tm, 441_000_000_000_000_000_000_000_000_000_000);
    assert(tm.len() * 441_000_000_000_000_000_000_000_000_000_000
        <= 4_410_000_000_000_000_000_000_000_000_000_000_000) by (nonlinear_arith)
        requires tm.len() <= 10_000;
}

/// Sum of a series, computed exactly.
fn sum_series_exec(s: &Vec<i64>) -> (r: i128)
    requires
        series_ok(s@),
    ensures
        r as int == series_sum(s@),
        -10_000_000_000 <= r <= 10_000_000_000,
{
    let n = s.len();
    let mut acc: i128 = 0;
    let mut i: usize = 0;
    while i < n
        invariant
            0 <= i <= n,
            n == s@.len(),
            series_ok(s@),
            acc as int == sum_int(series_terms(s@).take(i as int)),
            -(i as int) * 1_000_000 <= acc as int <= (i as int) * 1_000_000,
        decreases n - i,
    {
        proof {
            assert(in_coord_range(s@[i as int]));
            lemma_sum_take_succ(series_terms(s@), i as int);
            assert((i as int) * 1_000_000 + 1_000_000 == ((i as int) + 1) * 1_000_000)
                by (nonlinear_arith);
            assert(((i as int) + 1) * 1_000_000 <= 10_000_000_000) by (nonlinear_arith)
                requires (i as int) + 1 <= 10_000;
        }
        acc = acc + (s[i] as i128);
        i = i + 1;
    }
    proof {
        assert(series_terms(s@).take(n as int) =~= series_terms(s@));
    }
    acc
}

/// Sum of scaled squared deviations of a series, computed exactly.
fn ssdev_exec(s: &Vec<i64>) -> (r: i128)
    requires
        series_ok(s@),
    ensures
        r as int == ssdev(s@),
        0 <= r <= 400_000_000_000_000_000_000_000_0,
{
    let n = s.len();
    let sm = sum_series_exec(s);
    let mut acc: i128 = 0;
    let mut i: usize = 0;
    while i < n
        invariant
            0 <= i <= n,
            n == s@.len(),
            n <= MAX_LEN,
            series_ok(s@),
            sm as int == series_sum(s@),
            -10_000_000_000 <= sm <= 10_000_000_000,
            acc as int == sum_int(ssdev_terms(s@).take(i as int)),
            0 <= acc as int <= (i as int) * 400_000_000_000_000_000_000,
        decreases n - i,
    {
        proof {
            assert(in_coord_range(s@[i as int]));
            assert(-10_000_000_000 <= (n as int) * (s@[i as int] as int) <= 10_000_000_000)
                by (nonlinear_arith)
                requires n as int <= 10_000, -1_000_000 <= s@[i as int] as int <= 1_000_000;
        }
        let d: i128 = (n as i128) * (s[i] as i128) - sm;
        proof {
            assert(0 <= (d as int) * (d as int) <= 400_000_000_000_000_000_000)
                by (nonlinear_arith)
                requires -20_000_000_000 <= d as int <= 20_000_000_000;
            lemma_sum_take_succ(ssdev_terms(s@), i as int);
            assert((i as int) * 400_000_000_000_000_000_000 + 400_000_000_000_000_000_000
                == ((i as int) + 1) * 400_000_000_000_000_000_000) by (nonlinear_arith);
            assert(((i as int) + 1) * 400_000_000_000_000_000_000
                <= 400_000_000_000_000_000_000_000_0) by (nonlinear_arith)
                requires (i as int) + 1 <= 10_000;
        }
        let t = d * d;
        acc = acc + t;
        i = i + 1;
    }
    proof {
        assert(ssdev_terms(s@).take(n as int) =~= ssdev_terms(s@));
    }
    acc
}

/// Geometric mean functional relationship fit `truth = a + b * estimate`.
/// The slope magnitude is `sqrt(ssdev(truth) / ssdev(estimate))` — the square
/// root loses the sign of the underlying covariance, so the caller supplies
/// it — and the intercept is `mean(truth) - b * mean(estimate)`.  Returned
/// as `(a, b)` with `a` over denominator `SCALE * n` and `b` over `SCALE`.
pub fn gmfr(truth: &Vec<i64>, estimate: &Vec<i64>, sign: i8) -> (r: Result<
    (Ratio, Ratio),
    StatError,
>)
    requires
        series_ok(truth@),
        series_ok(estimate@),
        sign == 1i8 || sign == -1i8,
    ensures
        r is Ok <==> (truth@.len() == estimate@.len() && truth@.len() >= 2
            && ssdev(estimate@) != 0),
        r matches Err(e) ==> (e == StatError::DimensionMismatch
            <==> truth@.len() != estimate@.len()),
        r matches Err(e) ==> (e == StatError::DegenerateInput
            <==> (truth@.len() == estimate@.len()
                && (truth@.len() < 2 || ssdev(estimate@) == 0))),
        r matches Ok(v) ==> {
            &&& v.1.num == gmfr_b_num(truth@, estimate@, sign as int)
            &&& v.1.den == SCALE
            &&& v.0.num == gmfr_a_num(truth@, estimate@, sign as int)
            &&& v.0.den == (SCALE as int) * truth@.len()
            &&& 0 < v.0.den
            &&& 0 < v.1.den
        },
{
    if truth.len() != estimate.len() {
        return Err(StatError::DimensionMismatch);
    }
    let n = truth.len();
    if n < 2 {
        return Err(StatError::DegenerateInput);
    }
    let tvar = ssdev_exec(truth);
    let evar = ssdev_exec(estimate);
    if evar == 0 {
        return Err(StatError::DegenerateInput);
    }
    let st = sum_series_exec(truth);
    let se = sum_series_exec(estimate);
    let num = SCALE * SCALE * tvar;
    let ratio = num / evar;
    proof {
        lemma_div_pos_is_pos(num as int, evar as int);
        lemma_div_nonincreasing(num as int, evar as int);
        assert(num as int <= 400_000_000_000_000_000_000_000_000_000_000);
        assert(20_000_000_000_000_000 * 20_000_000_000_000_000
            == 400_000_000_000_000_000_000_000_000_000_000) by (nonlinear_arith);
        lemma_sqrt_floor_le(ratio as int, 20_000_000_000_000_000);
    }
    let babs = isqrt(ratio);
    let bnum = if sign == 1 {
        babs
    } else {
        -babs
    };
    proof {
        assert(bnum as int == gmfr_b_num(truth@, estimate@, sign as int));
        assert(-200_000_000_000_000_000_000_000_000 <= (bnum as int) * (se as int)
            <= 200_000_000_000_000_000_000_000_000) by (nonlinear_arith)
            requires
                -20_000_000_000_000_000 <= bnum as int <= 20_000_000_000_000_000,
                -10_000_000_000 <= se as int <= 10_000_000_000;
    }
    let anum = SCALE * st - bnum * se;
    let aden = SCALE * (n as i128);
    Ok((Ratio { num: anum, den: aden }, Ratio { num: bnum, den: SCALE }))
}

/// SSD is symmetric in its two series.
pub proof fn lemma_ssd_symmetric(a: Seq<i64>, b: Seq<i64>)
    requires
        a.len() == b.len(),
    ensures
        ssd_spec(a, b) == ssd_spec(b, a),
{
    let t1 = ssd_terms(a, b);
    let t2 = ssd_terms(b, a);
    assert forall|i: int| 0 <= i < t1.len() implies #[trigger] t1[i] == t2[i] by {
        let df = a[i] - b[i];
        let dg = b[i] - a[i];
        assert(df * df == dg * dg) by (nonlinear_arith)
            requires df == -dg;
    };
    assert(t1 =~= t2);
}

/// Sum of squared differences between the paired series; zero exactly when
/// the two series are identical.
pub fn ssd(truth: &Vec<i64>, estimate: &Vec<i64>) -> (r: Result<i128, StatError>)
    requires
        series_ok(truth@),
        series_ok(estimate@),
    ensures
        r is Ok <==> (truth@.len() == estimate@.len() && truth@.len() >= 1),
        r matches Err(e) ==> (e == StatError::DimensionMismatch
            <==> truth@.len() != estimate@.len()),
        r matches Err(e) ==> (e == StatError::DegenerateInput
            <==> (truth@.len() == estimate@.len() && truth@.len() == 0)),
        r matches Ok(v) ==> {
            &&& v as int == ssd_spec(truth@, estimate@)
            &&& 0 <= v <= 40_000_000_000_000_000
            &&& (v == 0 <==> truth@ == estimate@)
        },
{
    if truth.len() != estimate.len() {
        return Err(StatError::DimensionMismatch);
    }
    let n = truth.len();
    if n == 0 {
        return Err(StatError::DegenerateInput);
    }
    let mut acc: i128 = 0;
    let mut i: usize = 0;
    while i < n
        invariant
            0 <= i <= n,
            n == truth@.len(),
            n == estimate@.len(),
            n <= MAX_LEN,
            series_ok(truth@),
            series_ok(estimate@),
            acc as int == sum_int(ssd_terms(truth@, estimate@).take(i as int)),
            0 <= acc as int <= (i as int) * 4_000_000_000_000,
        decreases n - i,
    {
        proof {
            assert(in_coord_range(truth@[i as int]));
            assert(in_coord_range(estimate@[i as int]));
        }
        let d: i128 = (truth[i] as i128) - (estimate[i] as i128);
        proof {
            assert(0 <= (d as int) * (d as int) <= 4_000_000_000_000) by (nonlinear_arith)
                requires -2_000_000 <= d as int <= 2_000_000;
            lemma_sum_take_succ(ssd_terms(truth@, estimate@), i as int);
            assert((i as int) * 4_000_000_000_000 + 4_000_000_000_000
                == ((i as int) + 1) * 4_000_000_000_000) by (nonlinear_arith);
            assert(((i as int) + 1) * 4_000_000_000_000 <= 40_000_000_000_000_000)
                by (nonlinear_arith)
                requires (i as int) + 1 <= 10_000;
        }
        let t = d * d;
        acc = acc + t;
        i = i + 1;
    }
    proof {
        let tm = ssd_terms(truth@, estimate@);
        assert(tm.take(n as int) =~= tm);
        assert forall|k: int| 0 <= k < tm.len() implies 0 <= #[trigger] tm[k] by {
            let df = truth@[k] - estimate@[k];
            assert(0 <= df * df) by (nonlinear_arith);
        };
        if acc == 0 {
            assert forall|k: int| 0 <= k < truth@.len()
                implies truth@[k] == estimate@[k] by {
                lemma_sum_elem_le(tm, k);
                let df = truth@[k] - estimate@[k];
                assert(df == 0) by (nonlinear_arith)
                    requires df * df == 0;
            };
            assert(truth@ =~= estimate@);
        }
        if truth@ == estimate@ {
            assert forall|k: int| 0 <= k < tm.len() implies #[trigger] tm[k] == 0 by {
                assert(truth@[k] == estimate@[k]);
                let df = truth@[k] - estimate@[k];
                assert(df * df == 0) by (nonlinear_arith)
                    requires df == 0;
            };
            lemma_sum_zero(tm);
        }
    }
    Ok(acc)
}

/// Sum of potential difference: with `d = |mean(truth) - mean(estimate)|`,
/// the sum over samples of
/// `(d + |truth[i] - mean(truth)|) * (d + |estimate[i] - mean(estimate)|)`,
/// returned exactly over denominator `n * n`.
pub fn spod(truth: &Vec<i64>, estimate: &Vec<i64>) -> (r: Result<Ratio, StatError>)
    requires
        series_ok(truth@),
        series_ok(estimate@),
    ensures
        r is Ok <==> (truth@.len() == estimate@.len() && truth@.len() >= 2),
        r matches Err(e) ==> (e == StatError::DimensionMismatch
            <==> truth@.len() != estimate@.len()),
        r matches Err(e) ==> (e == StatError::DegenerateInput
            <==> (truth@.len() == estimate@.len() && truth@.len() < 2)),
        r matches Ok(v) ==> {
            &&& v.num == spod_num(truth@, estimate@)
            &&& v.den == truth@.len() * truth@.len()
            &&& 0 <= v.num
            &&& 0 < v.den
        },
{
    if truth.len() != estimate.len() {
        return Err(StatError::DimensionMismatch);
    }
    let n = truth.len();
    if n < 2 {
        return Err(StatError::DegenerateInput);
    }
    let st = sum_series_exec(truth);
    let se = sum_series_exec(estimate);
    let diff = st - se;
    let d0: i128 = if diff < 0 {
        -diff
    } else {
        diff
    };
    let mut acc: i128 = 0;
    let mut i: usize = 0;
    while i < n
        invariant
            0 <= i <= n,
            n == truth@.len(),
            n == estimate@.len(),
            2 <= n <= MAX_LEN,
            series_ok(truth@),
            series_ok(estimate@),
            st as int == series_sum(truth@),
            se as int == series_sum(estimate@),
            -10_000_000_000 <= st <= 10_000_000_000,
            -10_000_000_000 <= se <= 10_000_000_000,
            d0 as int == abs_val(series_sum(truth@) - series_sum(estimate@)),
            0 <= d0 <= 20_000_000_000,
            acc as int == sum_int(spod_terms(truth@, estimate@).take(i as int)),
            0 <= acc as int <= (i as int) * 1_600_000_000_000_000_000_000,
        decreases n - i,
    {
        proof {
            assert(in_coord_range(truth@[i as int]));
            assert(in_coord_range(estimate@[i as int]));
            assert(-10_000_000_000 <= (n as int) * (truth@[i as int] as int) <= 10_000_000_000)
                by (nonlinear_arith)
                requires n as int <= 10_000, -1_000_000 <= truth@[i as int] as int <= 1_000_000;
            assert(-10_000_000_000 <= (n as int) * (estimate@[i as int] as int) <= 10_000_000_000)
                by (nonlinear_arith)
                requires
                    n as int <= 10_000,
                    -1_000_000 <= estimate@[i as int] as int <= 1_000_000;
        }
        let dt: i128 = (n as i128) * (truth[i] as i128) - st;
        let de: i128 = (n as i128) * (estimate[i] as i128) - se;
        let at: i128 = if dt < 0 {
            -dt
        } else {
            dt
        };
        let ae: i128 = if de < 0 {
            -de
        } else {
            de
        };
        let f1 = d0 + at;
        let f2 = d0 + ae;
        proof {
            assert(0 <= (f1 as int) * (f2 as int) <= 1_600_000_000_000_000_000_000)
                by (nonlinear_arith)
                requires 0 <= f1 as int <= 40_000_000_000, 0 <= f2 as int <= 40_000_000_000;
            lemma_sum_take_succ(spod_terms(truth@, estimate@), i as int);
            assert((i as int) * 1_600_000_000_000_000_000_000 + 1_600_000_000_000_000_000_000
                == ((i as int) + 1) * 1_600_000_000_000_000_000_000) by (nonlinear_arith);
            assert(((i as int) + 1) * 1_600_000_000_000_000_000_000
                <= 16_000_000_000_000_000_000_000_000) by (nonlinear_arith)
                requires (i as int) + 1 <= 10_000;
        }
        let term = f1 * f2;
        acc = acc + term;
        i = i + 1;
    }
    proof {
        let tm = spod_terms(truth@, estimate@);
        assert(tm.take(n as int) =~= tm);
        assert(0 < (n as int) * (n as int) <= 100_000_000) by (nonlinear_arith)
            requires 2 <= n as int <= 10_000;
    }
    let den = (n as i128) * (n as i128);
    Ok(Ratio { num: acc, den })
}

/// The SPDU and SPDS numerators sum exactly to the SSD numerator over the
/// common denominator `(SCALE * n)^2`: the decomposition loses nothing.
pub proof fn lemma_spd_decomposition(t: Seq<i64>, e: Seq<i64>, sign: int)
    ensures
        spdu_num(t, e, sign) + spds_num(t, e, sign)
            == ssd_spec(t, e) * spd_den(t.len() as int),
{
}

/// GMFR of a non-constant series against itself, with positive sign, is the
/// identity fit: intercept numerator 0 and slope numerator `SCALE` (i.e.
/// slope exactly 1).
pub proof fn lemma_gmfr_identity_fit(t: Seq<i64>)
    requires
        exists|i: int, j: int| 0 <= i < t.len() && 0 <= j < t.len() && t[i] != t[j],
    ensures
        gmfr_b_num(t, t, 1) == SCALE as int,
        gmfr_a_num(t, t, 1) == 0,
        ssdev(t) != 0,
{
    let (i, j) = choose|i: int, j: int| 0 <= i < t.len() && 0 <= j < t.len() && t[i] != t[j];
    assert(t.len() * t[i] != t.len() * t[j]) by (nonlinear_arith)
        requires t[i] != t[j], t.len() > 0;
    assert(dev(t, i) != dev(t, j));
    let k = if dev(t, i) != 0 {
        i
    } else {
        j
    };
    assert(dev(t, k) != 0);
    let tm = ssdev_terms(t);
    assert forall|a: int| 0 <= a < tm.len() implies 0 <= #[trigger] tm[a] by {
        let d = dev(t, a);
        assert(0 <= d * d) by (nonlinear_arith);
    };
    lemma_sum_elem_le(tm, k);
    assert(tm[k] > 0) by (nonlinear_arith)
        requires tm[k] == dev(t, k) * dev(t, k), dev(t, k) != 0;
    let v = ssdev(t);
    assert(v > 0);
    assert((SCALE as int) * (SCALE as int) * v == v * ((SCALE as int) * (SCALE as int)))
        by (nonlinear_arith);
    lemma_div_multiples_vanish((SCALE as int) * (SCALE as int), v);
    lemma_sqrt_floor_square(SCALE as int);
}

/// The unsystematic component of SSD: both GMFR fits are computed with the
/// caller's sign, each series is predicted from the other, and the products
/// of the absolute residuals are summed, exactly over `(SCALE * n)^2`.
pub fn spdu(truth: &Vec<i64>, estimate: &Vec<i64>, sign: i8) -> (r: Result<Ratio, StatError>)
    requires
        series_ok(truth@),
        series_ok(estimate@),
        sign == 1i8 || sign == -1i8,
    ensures
        r is Ok <==> (truth@.len() == estimate@.len() && truth@.len() >= 2
            && ssdev(estimate@) != 0 && ssdev(truth@) != 0),
        r matches Err(e) ==> (e == StatError::DimensionMismatch
            <==> truth@.len() != estimate@.len()),
        r matches Err(e) ==> (e == StatError::DegenerateInput
            <==> (truth@.len() == estimate@.len()
                && (truth@.len() < 2 || ssdev(estimate@) == 0 || ssdev(truth@) == 0))),
        r matches Ok(v) ==> {
            &&& v.num == spdu_num(truth@, estimate@, sign as int)
            &&& v.den == spd_den(truth@.len() as int)
            &&& 0 <= v.num
            &&& 0 < v.den
        },
{
    let fit_t = match gmfr(truth, estimate, sign) {
        Ok(p) => p,
        Err(er) => {
            return Err(er);
        },
    };
    let fit_e = match gmfr(estimate, truth, sign) {
        Ok(p) => p,
        Err(er) => {
            return Err(er);
        },
    };
    let (a1, b1) = fit_t;
    let (a2, b2) = fit_e;
    let n = truth.len();
    proof {
        lemma_gmfr_num_bounds(truth@, estimate@, sign as int);
        lemma_gmfr_num_bounds(estimate@, truth@, sign as int);
    }
    let mut acc: i128 = 0;
    let mut i: usize = 0;
    while i < n
        invariant
            0 <= i <= n,
            n == truth@.len(),
            n == estimate@.len(),
            2 <= n <= MAX_LEN,
            series_ok(truth@),
            series_ok(estimate@),
            sign == 1i8 || sign == -1i8,
            ssdev(truth@) != 0,
            ssdev(estimate@) != 0,
            a1.num as int == gmfr_a_num(truth@, estimate@, sign as int),
            b1.num as int == gmfr_b_num(truth@, estimate@, sign as int),
            a2.num as int == gmfr_a_num(estimate@, truth@, sign as int),
            b2.num as int == gmfr_b_num(estimate@, truth@, sign as int),
            abs_val(a1.num as int) <= 300_000_000_000_000_000_000_000_000,
            abs_val(b1.num as int) <= 20_000_000_000_000_000,
            abs_val(a2.num as int) <= 300_000_000_000_000_000_000_000_000,
            abs_val(b2.num as int) <= 20_000_000_000_000_000,
            acc as int == sum_int(spdu_terms(truth@, estimate@, sign as int).take(i as int)),
            0 <= acc as int <= (i as int) * 441_000_000_000_000_000_000_000_000_000_000,
        decreases n - i,
    {
        let ghost tm = spdu_terms(truth@, estimate@, sign as int);
        proof {
            lemma_resid_bounds(truth@, estimate@, sign as int, i as int);
            assert(in_coord_range(truth@[i as int]));
            assert(in_coord_range(estimate@[i as int]));
            assert(-100_000_000_000_000 <= (SCALE as int) * (n as int) * (truth@[i as int] as int)
                <= 100_000_000_000_000) by (nonlinear_arith)
                requires
                    n as int <= 10_000,
                    -1_000_000 <= truth@[i as int] as int <= 1_000_000,
                    SCALE == 10_000;
            assert(-100_000_000_000_000
                <= (SCALE as int) * (n as int) * (estimate@[i as int] as int)
                <= 100_000_000_000_000) by (nonlinear_arith)
                requires
                    n as int <= 10_000,
                    -1_000_000 <= estimate@[i as int] as int <= 1_000_000,
                    SCALE == 10_000;
            assert(-200_000_000_000_000_000_000 <= (n as int) * (b1.num as int)
                <= 200_000_000_000_000_000_000) by (nonlinear_arith)
                requires
                    0 < n as int <= 10_000,
                    -20_000_000_000_000_000 <= b1.num as int <= 20_000_000_000_000_000;
            assert(-200_000_000_000_000_000_000_000_000
                <= (n as int) * (b1.num as int) * (estimate@[i as int] as int)
                <= 200_000_000_000_000_000_000_000_000) by (nonlinear_arith)
                requires
                    -200_000_000_000_000_000_000 <= (n as int) * (b1.num as int)
                        <= 200_000_000_000_000_000_000,
                    -1_000_000 <= estimate@[i as int] as int <= 1_000_000;
            assert(-200_000_000_000_000_000_000 <= (n as int) * (b2.num as int)
                <= 200_000_000_000_000_000_000) by (nonlinear_arith)
                requires
                    0 < n as int <= 10_000,
                    -20_000_000_000_000_000 <= b2.num as int <= 20_000_000_000_000_000;
            assert(-200_000_000_000_000_000_000_000_000
                <= (n as int) * (b2.num as int) * (truth@[i as int] as int)
                <= 200_000_000_000_000_000_000_000_000) by (nonlinear_arith)
                requires
                    -200_000_000_000_000_000_000 <= (n as int) * (b2.num as int)
                        <= 200_000_000_000_000_000_000,
                    -1_000_000 <= truth@[i as int] as int <= 1_000_000;
        }
        let ti = truth[i] as i128;
        let ei = estimate[i] as i128;
        let ptn = SCALE * (n as i128) * ti - a1.num - (n as i128) * b1.num * ei;
        let pen = SCALE * (n as i128) * ei - a2.num - (n as i128) * b2.num * ti;
        let pt: i128 = if ptn < 0 {
            -ptn
        } else {
            ptn
        };
        let pe: i128 = if pen < 0 {
            -pen
        } else {
            pen
        };
        proof {
            assert(ptn as int == resid_t_num(truth@, estimate@, sign as int, i as int));
            assert(pen as int == resid_e_num(truth@, estimate@, sign as int, i as int));
            assert((pe as int) * (pt as int) == tm[i as int]);
            assert(0 <= (pe as int) * (pt as int) <= 441_000_000_000_000_000_000_000_000_000_000)
                by (nonlinear_arith)
                requires
                    0 <= pe as int <= 21_000_000_000_000_000,
                    0 <= pt as int <= 21_000_000_000_000_000;
            lemma_sum_take_succ(tm, i as int);
            assert((i as int) * 441_000_000_000_000_000_000_000_000_000_000
                + 441_000_000_000_000_000_000_000_000_000_000
                == ((i as int) + 1) * 441_000_000_000_000_000_000_000_000_000_000)
                by (nonlinear_arith);
            assert(((i as int) + 1) * 441_000_000_000_000_000_000_000_000_000_000
                <= 4_410_000_000_000_000_000_000_000_000_000_000_000) by (nonlinear_arith)
                requires (i as int) + 1 <= 10_000;
        }
        let term = pe * pt;
        acc = acc + term;
        i = i + 1;
    }
    proof {
        let tm = spdu_terms(truth@, estimate@, sign as int);
        assert(tm.take(n as int) =~= tm);
        assert(0 < (SCALE as int) * (n as int) <= 100_000_000) by (nonlinear_arith)
            requires 2 <= n as int <= 10_000, SCALE == 10_000;
        assert(0 < ((SCALE as int) * (n as int)) * ((SCALE as int) * (n as int))
            <= 10_000_000_000_000_000) by (nonlinear_arith)
            requires 0 < (SCALE as int) * (n as int) <= 100_000_000;
    }
    let dside = SCALE * (n as i128);
    let den = dside * dside;
    Ok(Ratio { num: acc, den })
}

/// The systematic component of SSD: SSD minus SPDU over the common
/// denominator.  May be negative for adversarial inputs, since it is a
/// difference of independently derived sums; it is not clamped.
pub fn spds(truth: &Vec<i64>, estimate: &Vec<i64>, sign: i8) -> (r: Result<Ratio, StatError>)
    requires
        series_ok(truth@),
        series_ok(estimate@),
        sign == 1i8 || sign == -1i8,
    ensures
        r is Ok <==> (truth@.len() == estimate@.len() && truth@.len() >= 2
            && ssdev(estimate@) != 0 && ssdev(truth@) != 0),
        r matches Err(e) ==> (e == StatError::DimensionMismatch
            <==> truth@.len() != estimate@.len()),
        r matches Err(e) ==> (e == StatError::DegenerateInput
            <==> (truth@.len() == estimate@.len()
                && (truth@.len() < 2 || ssdev(estimate@) == 0 || ssdev(truth@) == 0))),
        r matches Ok(v) ==> {
            &&& v.num == spds_num(truth@, estimate@, sign as int)
            &&& v.den == spd_den(truth@.len() as int)
            &&& 0 < v.den
        },
{
    let u = match spdu(truth, estimate, sign) {
        Ok(v) => v,
        Err(er) => {
            return Err(er);
        },
    };
    let s = match ssd(truth, estimate) {
        Ok(v) => v,
        Err(er) => {
            proof {
                assert(false);
            }
            return Err(er);
        },
    };
    let n = truth.len();
    proof {
        assert(0 < (SCALE as int) * (n as int) <= 100_000_000) by (nonlinear_arith)
            requires 2 <= n as int <= 10_000, SCALE == 10_000;
        assert(0 < ((SCALE as int) * (n as int)) * ((SCALE as int) * (n as int))
            <= 10_000_000_000_000_000) by (nonlinear_arith)
            requires 0 < (SCALE as int) * (n as int) <= 100_000_000;
        assert(0 <= (s as int) * (u.den as int) <= 400_000_000_000_000_000_000_000_000_000_000)
            by (nonlinear_arith)
            requires 0 <= s as int <= 40_000_000_000_000_000, 0 < u.den as int <= 10_000_000_000_000_000;
    }
    let prod = s * u.den;
    let num = prod - u.num;
    Ok(Ratio { num, den: u.den })
}

} // verus!
