//! Order statistics over finite multisets of unsigned values.
//!
//! Every quantity is kept exactly: the mean and the population standard
//! deviation are determined by `count`, `sum` and `sum_squares`, and the
//! quartiles are held in quarters of the values' unit, which is the finest
//! step that linear interpolation at 25%, 50% and 75% can produce.
use vstd::prelude::*;
use vstd::arithmetic::div_mod::{
    lemma_fundamental_div_mod, lemma_fundamental_div_mod_converse, lemma_mod_bound,
};
use vstd::relations::sorted_by;

verus! {

broadcast use vstd::seq_lib::group_to_multiset_ensures;

/// `s` is in ascending order.
pub open spec fn is_sorted(s: Seq<u32>) -> bool {
    forall|i: int, j: int| 0 <= i < j < s.len() ==> s[i] <= s[j]
}

/// The ascending rearrangement of `s`.
pub open spec fn sorted_of(s: Seq<u32>) -> Seq<u32> {
    s.sort_by(|a: u32, b: u32| a <= b)
}

pub open spec fn sum_of(s: Seq<u32>) -> int
    decreases s.len(),
{
    if s.len() == 0 {
        0
    } else {
        sum_of(s.drop_last()) + s.last()
    }
}

pub open spec fn sum_squares_of(s: Seq<u32>) -> int
    decreases s.len(),
{
    if s.len() == 0 {
        0
    } else {
        sum_squares_of(s.drop_last()) + s.last() * s.last()
    }
}

/// Four times the value found at interpolation position `pos / 4` of `t`:
/// the element at the integral part, moved towards its successor by the
/// fractional part.
pub open spec fn interpolate_x4(t: Seq<u32>, pos: int) -> int {
    let lo = pos / 4;
    let r = pos % 4;
    if r == 0 {
        4 * t[lo]
    } else {
        (4 - r) * t[lo] + r * t[lo + 1]
    }
}

/// Four times the percentile `25 * q` of the ascending sequence `t`, by
/// linear interpolation at index `q / 4 * (len - 1)`; zero for an empty `t`.
pub open spec fn quartile_x4(t: Seq<u32>, q: int) -> int {
    if t.len() == 0 {
        0
    } else {
        interpolate_x4(t, q * (t.len() - 1))
    }
}

/// Descriptive statistics of a finite multiset of values.
pub struct StatsSummary {
    pub count: usize,
    /// Sum of the values; the mean is `sum / count`.
    pub sum: u128,
    /// Sum of the squared values; the population variance is
    /// `sum_squares / count - (sum / count)^2`.
    pub sum_squares: u128,
    pub min: u32,
    pub max: u32,
    /// The 25th percentile, in quarters.
    pub q25_quarters: u64,
    /// The median, in quarters.
    pub median_quarters: u64,
    /// The 75th percentile, in quarters.
    pub q75_quarters: u64,
}

/// The statistics of `s`; all zero when `s` is empty.
pub open spec fn stats_of(s: Seq<u32>) -> StatsSummary {
    let t = sorted_of(s);
    if s.len() == 0 {
        StatsSummary {
            count: 0,
            sum: 0,
            sum_squares: 0,
            min: 0,
            max: 0,
            q25_quarters: 0,
            median_quarters: 0,
            q75_quarters: 0,
        }
    } else {
        StatsSummary {
            count: s.len() as usize,
            sum: sum_of(s) as u128,
            sum_squares: sum_squares_of(s) as u128,
            min: t[0],
            max: t[s.len() - 1],
            q25_quarters: quartile_x4(t, 1) as u64,
            median_quarters: quartile_x4(t, 2) as u64,
            q75_quarters: quartile_x4(t, 3) as u64,
        }
    }
}

/// Relies on `slice::sort_unstable`: the same values, in ascending order.
#[verifier::external_body]
pub(crate) fn sort_ascending(v: &mut Vec<u32>)
    ensures
        final(v)@.to_multiset() == old(v)@.to_multiset(),
        is_sorted(final(v)@),
{
    v.sort_unstable()
}

/// Two ascending sequences holding the same values are equal.
pub proof fn lemma_sorted_unique(a: Seq<u32>, b: Seq<u32>)
    requires
        is_sorted(a),
        is_sorted(b),
        a.to_multiset() == b.to_multiset(),
    ensures
        a == b,
    decreases a.len(),
{
    assert(a.len() == a.to_multiset().len());
    assert(b.len() == b.to_multiset().len());
    if a.len() == 0 {
        assert(a =~= b);
    } else {
        let x = a.last();
        let y = b.last();
        let a2 = a.drop_last();
        let b2 = b.drop_last();
        assert(a.contains(x));
        assert(a.to_multiset().count(x) > 0);
        assert(b.contains(x));
        assert(b.to_multiset().count(y) > 0);
        assert(a.contains(y));
        assert(x <= y);
        assert(y <= x);
        assert(a =~= a2.push(x));
        assert(b =~= b2.push(y));
        assert(a2.push(x).to_multiset() =~= a2.to_multiset().insert(x));
        assert(b2.push(y).to_multiset() =~= b2.to_multiset().insert(y));
        assert(a.to_multiset() == a2.to_multiset().insert(x));
        assert(b.to_multiset() == b2.to_multiset().insert(x));
        assert(a2.to_multiset() =~= b2.to_multiset()) by {
            assert forall|z: u32| a2.to_multiset().count(z) == b2.to_multiset().count(z) by {
                assert(a.to_multiset().count(z) == b.to_multiset().count(z));
                assert(a2.to_multiset().insert(x).count(z) == a2.to_multiset().count(z) + if z == x { 1int } else { 0int });
                assert(b2.to_multiset().insert(x).count(z) == b2.to_multiset().count(z) + if z == x { 1int } else { 0int });
            }
        }
        lemma_sorted_unique(a2, b2);
        assert(a =~= b);
    }
}

/// The ascending rearrangement is ascending, holds the same values, and is
/// the only such sequence.
pub proof fn lemma_sorted_of(s: Seq<u32>, t: Seq<u32>)
    requires
        is_sorted(t),
        t.to_multiset() == s.to_multiset(),
    ensures
        sorted_of(s) == t,
{
    let leq = |a: u32, b: u32| a <= b;
    s.lemma_sort_by_ensures(leq);
    let u = s.sort_by(leq);
    assert(sorted_by(u, leq));
    assert forall|i: int, j: int| 0 <= i < j < u.len() implies u[i] <= u[j] by {
        assert(leq(u[i], u[j]));
    }
    lemma_sorted_unique(u, t);
}

pub(crate) proof fn lemma_sum_bounds(s: Seq<u32>)
    ensures
        0 <= sum_of(s) <= s.len() * 0xffff_ffff,
        0 <= sum_squares_of(s) <= s.len() * 0xffff_fffe_0000_0001,
    decreases s.len(),
{
    if s.len() > 0 {
        lemma_sum_bounds(s.drop_last());
        let x = s.last();
        assert(x * x <= 0xffff_fffe_0000_0001) by (nonlinear_arith)
            requires
                0 <= x <= 0xffff_ffff,
        ;
        assert(0 <= x * x) by (nonlinear_arith);
        assert(sum_of(s) == sum_of(s.drop_last()) + x);
        assert(sum_squares_of(s) == sum_squares_of(s.drop_last()) + x * x);
    }
}

proof fn lemma_sorted_of_props(s: Seq<u32>)
    ensures
        is_sorted(sorted_of(s)),
        sorted_of(s).len() == s.len(),
        sorted_of(s).to_multiset() == s.to_multiset(),
{
    let leq = |a: u32, b: u32| a <= b;
    s.lemma_sort_by_ensures(leq);
    let u = s.sort_by(leq);
    assert forall|i: int, j: int| 0 <= i < j < u.len() implies u[i] <= u[j] by {
        assert(leq(u[i], u[j]));
    }
    assert(u.len() == u.to_multiset().len());
    assert(s.len() == s.to_multiset().len());
}

#[verifier::spinoff_prover]
proof fn lemma_interpolate_step(t: Seq<u32>, p: int)
    requires
        is_sorted(t),
        t.len() >= 1,
        0 <= p < 4 * (t.len() - 1),
    ensures
        interpolate_x4(t, p) <= interpolate_x4(t, p + 1),
{
    let lo = p / 4;
    let r = p % 4;
    assert(lo + 1 < t.len());
    assert(t[lo] <= t[lo + 1]);
    let a = t[lo] as int;
    let b = t[lo + 1] as int;
    if r == 0 {
        assert((p + 1) / 4 == lo && (p + 1) % 4 == 1);
        assert(interpolate_x4(t, p) == 4 * a);
        assert(interpolate_x4(t, p + 1) == 3 * a + b);
    } else if r == 1 {
        assert((p + 1) / 4 == lo && (p + 1) % 4 == 2);
        assert(interpolate_x4(t, p) == 3 * a + b);
        assert(interpolate_x4(t, p + 1) == 2 * a + 2 * b);
    } else if r == 2 {
        assert((p + 1) / 4 == lo && (p + 1) % 4 == 3);
        assert(interpolate_x4(t, p) == 2 * a + 2 * b);
        assert(interpolate_x4(t, p + 1) == a + 3 * b);
    } else {
        assert((p + 1) / 4 == lo + 1 && (p + 1) % 4 == 0);
        assert(interpolate_x4(t, p) == a + 3 * b);
        assert(interpolate_x4(t, p + 1) == 4 * b);
    }
}

proof fn lemma_interpolate_monotone(t: Seq<u32>, from: int, to: int)
    requires
        is_sorted(t),
        t.len() >= 1,
        0 <= from <= to <= 4 * (t.len() - 1),
    ensures
        interpolate_x4(t, from) <= interpolate_x4(t, to),
    decreases to - from,
{
    if from < to {
        lemma_interpolate_monotone(t, from, to - 1);
        lemma_interpolate_step(t, to - 1);
    }
}

/// For any non-empty input, min <= q25 <= median <= q75 <= max (all on the
/// quarter scale of the quartiles).
#[verifier::spinoff_prover]
pub proof fn lemma_quartiles_ordered(values: Seq<u32>)
    requires
        values.len() > 0,
    ensures
        4 * stats_of(values).min <= stats_of(values).q25_quarters,
        stats_of(values).q25_quarters <= stats_of(values).median_quarters,
        stats_of(values).median_quarters <= stats_of(values).q75_quarters,
        stats_of(values).q75_quarters <= 4 * stats_of(values).max,
{
    lemma_sorted_of_props(values);
    let t = sorted_of(values);
    let k = t.len() as int;
    assert(k >= 1);
    assert(0 <= 1 * (k - 1) <= 2 * (k - 1) <= 3 * (k - 1) <= 4 * (k - 1));
    lemma_interpolate_monotone(t, 0, 1 * (k - 1));
    lemma_interpolate_monotone(t, 1 * (k - 1), 2 * (k - 1));
    lemma_interpolate_monotone(t, 2 * (k - 1), 3 * (k - 1));
    lemma_interpolate_monotone(t, 3 * (k - 1), 4 * (k - 1));
    assert(interpolate_x4(t, 0) == 4 * t[0]);
    assert((4 * (k - 1)) / 4 == k - 1 && (4 * (k - 1)) % 4 == 0);
    assert(interpolate_x4(t, 4 * (k - 1)) == 4 * t[k - 1]);
}

proof fn lemma_pair_fits(x: u32, y: u32)
    ensures
        0 <= 2 * (x as int) + 2 * (y as int) <= 0xffff_ffff_ffff_ffff,
{
}

/// The median of a non-empty ascending input is its middle element when the
/// count is odd, and the midpoint of the two middle elements when it is even
/// (in quarters: four times, respectively twice their sum).
pub proof fn lemma_median_of_sorted(t: Seq<u32>)
    requires
        is_sorted(t),
        t.len() >= 1,
    ensures
        t.len() % 2 == 1 ==> stats_of(t).median_quarters == 4 * t[(t.len() - 1) / 2],
        t.len() % 2 == 0 ==> stats_of(t).median_quarters == 2 * (t[t.len() / 2 - 1] + t[(t.len() / 2) as int]),
{
    lemma_sorted_of_props(t);
    lemma_sorted_of(t, t);
    let k = t.len() as int;
    let pos = 2 * (k - 1);
    assert(quartile_x4(t, 2) == interpolate_x4(t, pos));
    if k % 2 == 1 {
        assert(pos / 4 == (k - 1) / 2 && pos % 4 == 0);
        assert(interpolate_x4(t, pos) == 4 * t[(k - 1) / 2]);
    } else {
        assert(pos / 4 == k / 2 - 1 && pos % 4 == 2);
        let x = t[k / 2 - 1];
        let y = t[k / 2];
        lemma_pair_fits(x, y);
        assert(interpolate_x4(t, pos) == 2 * (x as int) + 2 * (y as int));
    }
}

/// Four times the percentile `25 * q` of the non-empty ascending `t`.
fn quartile_of(t: &Vec<u32>, q: u64) -> (r: u64)
    requires
        t@.len() >= 1,
        q <= 4,
    ensures
        r == quartile_x4(t@, q as int),
{
    let k = t.len();
    let ghost qq = q as int;
    let ghost kk = (k - 1) as int;
    assert(qq * kk <= 4 * 0xffff_ffff_ffff_ffff) by (nonlinear_arith)
        requires
            0 <= qq <= 4,
            0 <= kk <= 0xffff_ffff_ffff_ffff,
    ;
    let pos: u128 = (q as u128) * ((k - 1) as u128);
    assert(pos / 4 <= k - 1) by (nonlinear_arith)
        requires
            pos == q * (k - 1),
            q <= 4,
            k >= 1,
    ;
    let lo = (pos / 4) as usize;
    let rem = (pos % 4) as u64;
    if rem == 0 {
        4 * (t[lo] as u64)
    } else {
        assert(lo + 1 <= k - 1) by (nonlinear_arith)
            requires
                pos == q * (k - 1),
                q <= 4,
                lo == pos / 4,
                rem == pos % 4,
                rem != 0,
                lo <= k - 1,
                k >= 1,
        ;
        let a = t[lo] as u64;
        let b = t[lo + 1] as u64;
        assert((4 - rem) * a + rem * b <= 4 * 0xffff_ffff) by (nonlinear_arith)
            requires
                1 <= rem <= 3,
                a <= 0xffff_ffff,
                b <= 0xffff_ffff,
        ;
        (4 - rem) * a + rem * b
    }
}

impl StatsSummary {
    /// Statistics of `values`: count, sum, sum of squares, the extremes and
    /// the interpolated quartiles. An empty input gives all zeros.
    pub fn from_values(values: &[u32]) -> (r: StatsSummary)
        ensures
            r == stats_of(values@),
    {
        let n = values.len();
        if n == 0 {
            return StatsSummary {
                count: 0,
                sum: 0,
                sum_squares: 0,
                min: 0,
                max: 0,
                q25_quarters: 0,
                median_quarters: 0,
                q75_quarters: 0,
            };
        }
        let mut sum: u128 = 0;
        let mut sum_squares: u128 = 0;
        let mut sorted: Vec<u32> = Vec::new();
        let mut i: usize = 0;
        while i < n
            invariant
                n == values@.len(),
                i <= n,
                sum == sum_of(values@.take(i as int)),
                sum_squares == sum_squares_of(values@.take(i as int)),
                sorted@ == values@.take(i as int),
            decreases n - i,
        {
            let x = values[i];
            proof {
                let s = values@.take(i as int + 1);
                assert(s.drop_last() =~= values@.take(i as int));
                lemma_sum_bounds(s);
                assert(s.len() * 0xffff_ffff < 0x1_0000_0000_0000_0000_0000_0000_0000_0000)
                    by (nonlinear_arith)
                    requires
                        s.len() <= 0xffff_ffff_ffff_ffff,
                ;
                assert(s.len() * 0xffff_fffe_0000_0001
                    < 0x1_0000_0000_0000_0000_0000_0000_0000_0000) by (nonlinear_arith)
                    requires
                        s.len() <= 0xffff_ffff_ffff_ffff,
                ;
            }
            sum = sum + x as u128;
            sum_squares = sum_squares + (x as u128) * (x as u128);
            sorted.push(x);
            i = i + 1;
            assert(values@.take(i as int).drop_last() =~= values@.take(i as int - 1));
        }
        assert(values@.take(n as int) =~= values@);
        sort_ascending(&mut sorted);
        proof {
            lemma_sorted_of(values@, sorted@);
            assert(sorted@.len() == sorted@.to_multiset().len());
            assert(values@.len() == values@.to_multiset().len());
        }
        StatsSummary {
            count: n,
            sum,
            sum_squares,
            min: sorted[0],
            max: sorted[n - 1],
            q25_quarters: quartile_of(&sorted, 1),
            median_quarters: quartile_of(&sorted, 2),
            q75_quarters: quartile_of(&sorted, 3),
        }
    }
}

/// Sum of `(v - x)^2` over the values `v` of `s`.
pub open spec fn deviation_from(s: Seq<u32>, x: int) -> int
    decreases s.len(),
{
    if s.len() == 0 {
        0
    } else {
        deviation_from(s.drop_last(), x) + (s.last() - x) * (s.last() - x)
    }
}

proof fn lemma_deviation_from(s: Seq<u32>, x: int)
    ensures
        deviation_from(s, x) == sum_squares_of(s) - 2 * x * sum_of(s) + s.len() * x * x,
        deviation_from(s, x) >= 0,
    decreases s.len(),
{
    if s.len() > 0 {
        lemma_deviation_from(s.drop_last(), x);
        let v = s.last() as int;
        let n = s.len() - 1;
        let q = sum_squares_of(s.drop_last());
        let t = sum_of(s.drop_last());
        assert(q - 2 * x * t + n * x * x + (v - x) * (v - x) == (q + v * v) - 2 * x * (t + v) + (n
            + 1) * x * x) by (nonlinear_arith);
        assert((v - x) * (v - x) >= 0) by (nonlinear_arith);
    }
}

/// Cauchy-Schwarz for the values: `count * sum_squares >= sum^2`.
pub proof fn lemma_spread_nonnegative(s: Seq<u32>)
    ensures
        s.len() * sum_squares_of(s) >= sum_of(s) * sum_of(s),
    decreases s.len(),
{
    if s.len() > 0 {
        let p = s.drop_last();
        lemma_spread_nonnegative(p);
        let v = s.last() as int;
        lemma_deviation_from(p, v);
        let n = p.len() as int;
        let q = sum_squares_of(p);
        let t = sum_of(p);
        assert((n + 1) * (q + v * v) - (t + v) * (t + v) == (n * q - t * t) + (q - 2 * v * t + n * v
            * v)) by (nonlinear_arith);
    }
}

/// `floor(m * (n * q - s^2) / n^2)`: `m` times the population variance of a
/// non-empty input with count `n`, sum `s` and sum of squares `q`, rounded down.
pub open spec fn variance_floor(n: int, s: int, q: int, m: int) -> int {
    (m * (n * q - s * s)) / (n * n)
}

/// `variance_floor(n, s, q, m)`, or `None` when no input has these
/// statistics (the spread `n * q - s^2` would be negative).
fn scaled_variance_floor(n: u128, s: u128, q: u128, m: u128) -> (r: Option<u128>)
    requires
        1 <= n <= 0xffff_ffff_ffff_ffff,
        1 <= m <= 40000,
        s <= n * 0xffff_ffff,
        q <= n * 0xffff_fffe_0000_0001,
    ensures
        n * q >= s * s ==> r is Some,
        r matches Some(v) ==> v == variance_floor(n as int, s as int, q as int, m as int) && v <= m
            * 0xffff_fffe_0000_0001,
{
    let a = s / n;
    let b = s % n;
    let ghost (nv, sv, qv, mv, av, bv) = (n as int, s as int, q as int, m as int, a as int, b as int);
    proof {
        lemma_fundamental_div_mod(sv, nv);
        lemma_mod_bound(sv, nv);
        assert(sv == nv * av + bv);
        assert(nv * (qv - nv * av * av - 2 * av * bv) == nv * qv - sv * sv + bv * bv) by (
        nonlinear_arith)
            requires
                sv == nv * av + bv,
        ;
        assert(nv * qv >= sv * sv ==> qv - nv * av * av - 2 * av * bv >= 0) by (nonlinear_arith)
            requires
                nv * (qv - nv * av * av - 2 * av * bv) == nv * qv - sv * sv + bv * bv,
                nv >= 1,
        ;
        assert(av <= 0xffff_ffff) by (nonlinear_arith)
            requires
                sv == nv * av + bv,
                bv >= 0,
                sv <= nv * 0xffff_ffff,
                nv >= 1,
        ;
        assert(nv * av * av <= nv * 0xffff_fffe_0000_0001) by (nonlinear_arith)
            requires
                0 <= av <= 0xffff_ffff,
                nv >= 1,
        ;
        assert(nv * 0xffff_fffe_0000_0001 < 0x1_0000_0000_0000_0000_0000_0000_0000_0000) by (
        nonlinear_arith)
            requires
                nv <= 0xffff_ffff_ffff_ffff,
        ;
        assert(av * bv <= 0xffff_ffff * 0xffff_ffff_ffff_ffff) by (nonlinear_arith)
            requires
                0 <= av <= 0xffff_ffff,
                0 <= bv < nv,
                nv <= 0xffff_ffff_ffff_ffff,
        ;
        assert(nv * av <= sv) by (nonlinear_arith)
            requires
                sv == nv * av + bv,
                bv >= 0,
        ;
        assert(nv * av * av >= 0 && av * bv >= 0) by (nonlinear_arith)
            requires
                nv >= 1,
                av >= 0,
                bv >= 0,
        ;
        assert(nv * nv <= 0xffff_ffff_ffff_ffff * 0xffff_ffff_ffff_ffff) by (nonlinear_arith)
            requires
                1 <= nv <= 0xffff_ffff_ffff_ffff,
        ;
    }
    let na = n * a;
    let na2 = na * a;
    let ab = a * b;
    let ab2 = 2 * ab;
    assert(na2 as int == nv * av * av) by (nonlinear_arith)
        requires
            na2 as int == (nv * av) * av,
    ;
    assert(ab2 as int == 2 * av * bv) by (nonlinear_arith)
        requires
            ab2 as int == 2 * (av * bv),
    ;
    if na2 > q || ab2 > q - na2 {
        return None;
    }
    let t = q - na2 - ab2;
    assert(t as int == qv - nv * av * av - 2 * av * bv);
    let c = t / n;
    let e = t % n;
    assert(b * b < n * n) by (nonlinear_arith)
        requires
            b < n,
    ;
    let bb = b * b;
    let u = bb / n;
    let w = bb % n;
    let ghost (tv, cv, ev, uv, wv) = (t as int, c as int, e as int, u as int, w as int);
    proof {
        lemma_fundamental_div_mod(tv, nv);
        lemma_mod_bound(tv, nv);
        lemma_fundamental_div_mod(bv * bv, nv);
        lemma_mod_bound(bv * bv, nv);
        assert(uv < nv) by (nonlinear_arith)
            requires
                bv * bv == nv * uv + wv,
                bv * bv < nv * nv,
                wv >= 0,
                nv >= 1,
        ;
        assert(cv <= 0xffff_fffe_0000_0001) by (nonlinear_arith)
            requires
                tv == nv * cv + ev,
                ev >= 0,
                tv <= qv,
                qv <= nv * 0xffff_fffe_0000_0001,
                nv >= 1,
        ;
        assert(mv * wv < 40000 * 0x1_0000_0000_0000_0000) by (nonlinear_arith)
            requires
                mv <= 40000,
                wv < nv,
                nv <= 0xffff_ffff_ffff_ffff,
                wv >= 0,
        ;
    }
    let mw = m * w;
    let k = (mw + n - 1) / n;
    let ghost kv = k as int;
    proof {
        lemma_fundamental_div_mod(mv * wv + nv - 1, nv);
        lemma_mod_bound(mv * wv + nv - 1, nv);
        assert(kv <= mv) by (nonlinear_arith)
            requires
                mv * wv + nv - 1 == nv * kv + (mv * wv + nv - 1) % nv,
                (mv * wv + nv - 1) % nv >= 0,
                wv < nv,
                wv >= 0,
                mv >= 1,
        ;
        let z = ev + nv - uv;
        assert(0 <= z <= 2 * 0xffff_ffff_ffff_ffff);
        assert(mv * z <= 40000 * (2 * 0xffff_ffff_ffff_ffff)) by (nonlinear_arith)
            requires
                0 <= mv <= 40000,
                0 <= z <= 2 * 0xffff_ffff_ffff_ffff,
        ;
        assert(mv * (ev + nv - uv) >= mv) by (nonlinear_arith)
            requires
                mv >= 1,
                ev >= 0,
                uv < nv,
        ;
    }
    let g = m * (e + n - u) - k;
    let f = g / n;
    let ghost (gv, fv) = (g as int, f as int);
    proof {
        lemma_fundamental_div_mod(gv, nv);
        lemma_mod_bound(gv, nv);
        let rho1 = (mv * wv + nv - 1) % nv;
        let x = mv * (nv * (ev + nv - uv) - wv);
        assert(x == gv * nv + (nv - 1 - rho1)) by (nonlinear_arith)
            requires
                mv * wv + nv - 1 == nv * kv + rho1,
                gv == mv * (ev + nv - uv) - kv,
                x == mv * (nv * (ev + nv - uv) - wv),
        ;
        let rho2 = gv % nv;
        let rem = rho2 * nv + (nv - 1 - rho1);
        assert(0 <= rem < nv * nv) by (nonlinear_arith)
            requires
                0 <= rho2 < nv,
                0 <= rho1 < nv,
                rem == rho2 * nv + (nv - 1 - rho1),
        ;
        let d = nv * qv - sv * sv;
        assert(mv * d == (fv + mv * cv - mv) * (nv * nv) + rem) by (nonlinear_arith)
            requires
                nv * tv == d + bv * bv,
                tv == nv * cv + ev,
                bv * bv == nv * uv + wv,
                x == gv * nv + (nv - 1 - rho1),
                x == mv * (nv * (ev + nv - uv) - wv),
                gv == nv * fv + rho2,
                rem == rho2 * nv + (nv - 1 - rho1),
        ;
        assert(nv * nv > 0) by (nonlinear_arith)
            requires
                nv >= 1,
        ;
        lemma_fundamental_div_mod_converse(mv * d, nv * nv, fv + mv * cv - mv, rem);
        assert(d >= 0 ==> fv + mv * cv - mv >= 0) by (nonlinear_arith)
            requires
                mv * d == (fv + mv * cv - mv) * (nv * nv) + rem,
                mv >= 1,
                0 <= rem < nv * nv,
        ;
        assert(fv + mv * cv - mv <= mv * 0xffff_fffe_0000_0001) by (nonlinear_arith)
            requires
                mv * d == (fv + mv * cv - mv) * (nv * nv) + rem,
                0 <= rem,
                d <= nv * qv,
                qv <= nv * 0xffff_fffe_0000_0001,
                nv >= 1,
                mv >= 1,
        ;
        assert(mv * cv <= 40000 * 0xffff_fffe_0000_0001) by (nonlinear_arith)
            requires
                mv <= 40000,
                0 <= cv <= 0xffff_fffe_0000_0001,
        ;
    }
    let whole = m * c + f;
    if whole < m {
        return None;
    }
    Some(whole - m)
}

/// `(2m - 1)^2 <= y < (2m + 1)^2`: `m` is half the square root of `y`,
/// rounded to the nearest integer.
pub open spec fn is_half_root(m: nat, y: nat) -> bool {
    (m == 0 || (2 * m - 1) * (2 * m - 1) <= y) && y < (2 * m + 1) * (2 * m + 1)
}

pub open spec fn half_root(y: nat) -> nat {
    choose|m: nat| is_half_root(m, y)
}

proof fn lemma_half_root_unique(m1: nat, m2: nat, y: nat)
    requires
        is_half_root(m1, y),
        is_half_root(m2, y),
    ensures
        m1 == m2,
{
    if m1 < m2 {
        assert((2 * m2 - 1) * (2 * m2 - 1) >= (2 * m1 + 1) * (2 * m1 + 1)) by (nonlinear_arith)
            requires
                m1 < m2,
        ;
    } else if m2 < m1 {
        assert((2 * m1 - 1) * (2 * m1 - 1) >= (2 * m2 + 1) * (2 * m2 + 1)) by (nonlinear_arith)
            requires
                m2 < m1,
        ;
    }
}

/// Half the square root of `y`, rounded to the nearest integer.
fn round_half_root(y: u128) -> (r: u128)
    requires
        y < 0x1_0000_0000_0000_0000_0000,
    ensures
        r == half_root(y as nat),
        r <= 0x1_0000_0000_0000,
{
    // the floor square root by bisection: lo^2 <= y < hi^2
    let mut lo: u128 = 0;
    let mut hi: u128 = 0x100_0000_0000;
    assert(hi * hi > y) by (nonlinear_arith)
        requires
            hi == 0x100_0000_0000,
            y < 0x1_0000_0000_0000_0000_0000,
    ;
    while hi - lo > 1
        invariant
            lo < hi <= 0x100_0000_0000,
            lo * lo <= y < hi * hi,
        decreases hi - lo,
    {
        let mid = lo + (hi - lo) / 2;
        assert(mid * mid <= 0x100_0000_0000 * 0x100_0000_0000) by (nonlinear_arith)
            requires
                mid <= 0x100_0000_0000,
        ;
        if mid * mid <= y {
            lo = mid;
        } else {
            hi = mid;
        }
    }
    let s = lo;
    assert(hi == s + 1);
    let m = (s + 1) / 2;
    proof {
        let mm = m as nat;
        let yy = y as nat;
        assert(mm == 0 || (2 * mm - 1) * (2 * mm - 1) <= yy) by (nonlinear_arith)
            requires
                2 * mm <= s + 1,
                s * s <= yy,
                0 <= s,
        ;
        assert(yy < (2 * mm + 1) * (2 * mm + 1)) by (nonlinear_arith)
            requires
                2 * mm + 1 >= s + 1,
                yy < (s + 1) * (s + 1),
                0 <= s,
        ;
        assert(is_half_root(mm, yy));
        lemma_half_root_unique(mm, half_root(yy), yy);
    }
    m
}

/// The population standard deviation in hundredths, rounded to the nearest:
/// of the values themselves, or of the values read as thousandths when
/// `milli` holds. Zero for no values.
pub open spec fn std_dev_hundredths(st: StatsSummary, milli: bool) -> nat {
    if st.count == 0 {
        0
    } else {
        let n = st.count as int;
        let y = if milli {
            variance_floor(n, st.sum as int, st.sum_squares as int, 1) / 25
        } else {
            variance_floor(n, st.sum as int, st.sum_squares as int, 40000)
        };
        half_root(y as nat)
    }
}

/// The statistics were computed from a non-empty input, or are all zero.
pub open spec fn consistent(st: StatsSummary) -> bool {
    st.count == 0 || (st.count * st.sum_squares >= st.sum * st.sum && st.sum <= st.count
        * 0xffff_ffff && st.sum_squares <= st.count * 0xffff_fffe_0000_0001)
}

pub proof fn lemma_stats_consistent(s: Seq<u32>)
    requires
        s.len() <= usize::MAX,
    ensures
        consistent(stats_of(s)),
{
    if s.len() > 0 {
        lemma_sum_bounds(s);
        lemma_spread_nonnegative(s);
        assert(s.len() * 0xffff_ffff < 0x1_0000_0000_0000_0000_0000_0000_0000_0000) by (
        nonlinear_arith)
            requires
                s.len() <= 0xffff_ffff_ffff_ffff,
        ;
        assert(s.len() * 0xffff_fffe_0000_0001 < 0x1_0000_0000_0000_0000_0000_0000_0000_0000) by (
        nonlinear_arith)
            requires
                s.len() <= 0xffff_ffff_ffff_ffff,
        ;
    }
}

impl StatsSummary {
    /// See `std_dev_hundredths`.
    /// Zero for statistics that no input has.
    pub fn std_dev_hundredths(&self, milli: bool) -> (r: u64)
        ensures
            consistent(*self) ==> r == std_dev_hundredths(*self, milli),
    {
        if self.count == 0 {
            return 0;
        }
        let n = self.count as u128;
        if self.sum > n * 0xffff_ffff || self.sum_squares > n * 0xffff_fffe_0000_0001 {
            return 0;
        }
        let m: u128 = if milli {
            1
        } else {
            40000
        };
        let y = match scaled_variance_floor(n, self.sum, self.sum_squares, m) {
            Some(v) => if milli {
                v / 25
            } else {
                v
            },
            None => {
                return 0;
            },
        };
        round_half_root(y) as u64
    }
}

} // verus!
