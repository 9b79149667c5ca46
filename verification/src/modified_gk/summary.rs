//! The public quantile summary: insertion with micro-compression, structural
//! compression, a streaming merge, and quantile queries.

use vstd::arithmetic::div_mod::lemma_fundamental_div_mod;
use vstd::prelude::*;

use crate::modified_gk::merge_cursor::{merge_seqs, MergeCursor};
use crate::modified_gk::merge_cursor::max_of;
use crate::modified_gk::sample::{
    cap_bound, count_le, count_lt, ends_exact, envelope, envelope_within, gs_positive, is_max,
    is_min, lemma_count_bounds, lemma_count_concat, lemma_sum_g_nonneg, lemma_sum_g_take,
    sorted_values, sum_g, tracks, wf_samples, Sample,
};
use crate::modified_gk::samples_compressor::{compressed, SamplesCompressor};
use crate::modified_gk::samples_tree::{push_value_spec, SamplesTree};
use crate::{ceil_div, rank_spec};

verus! {

/// Largest number of values a summary accepts; keeps every intermediate
/// arithmetic result far from the integer limits.
pub const LEN_LIMIT: u64 = 0x1000_0000_0000_0000;

/// The capacity `floor(2 * eps * n)` for the error bound `num / den` after
/// `n` values.
pub open spec fn cap_of(num: int, den: int, n: int) -> int {
    (2 * num * n) / den
}

/// Division by a positive divisor dominates multiples: if `d * k <= x` then
/// `k <= x / d`.
pub proof fn lemma_mul_le_div(k: int, x: int, d: int)
    requires
        d > 0,
        d * k <= x,
    ensures
        k <= x / d,
{
    lemma_fundamental_div_mod(x, d);
    vstd::arithmetic::div_mod::lemma_mod_bound(x, d);
    assert(k <= x / d) by (nonlinear_arith)
        requires
            d > 0,
            d * k <= x,
            x == d * (x / d) + x % d,
            0 <= x % d < d,
    ;
}

/// The capacity is non-negative and at most `2 * n`.
pub proof fn lemma_cap_of_range(num: int, den: int, n: int)
    requires
        0 < num < den,
        0 <= n,
    ensures
        0 <= cap_of(num, den, n) <= 2 * n,
{
    let x = 2 * num * n;
    assert(0 <= x && x <= den * (2 * n)) by (nonlinear_arith)
        requires
            0 < num < den,
            0 <= n,
            x == 2 * num * n,
    ;
    lemma_mul_le_div(0, x, den);
    let q = x / den;
    lemma_fundamental_div_mod(x, den);
    vstd::arithmetic::div_mod::lemma_mod_bound(x, den);
    assert(q <= 2 * n) by (nonlinear_arith)
        requires
            den > 0,
            x == den * q + x % den,
            0 <= x % den,
            x <= den * (2 * n),
    ;
}

/// The capacity grows with the stream length.
pub proof fn lemma_cap_of_monotone(num: int, den: int, n1: int, n2: int)
    requires
        0 < num < den,
        0 <= n1 <= n2,
    ensures
        cap_of(num, den, n1) <= cap_of(num, den, n2),
{
    let x1 = 2 * num * n1;
    let x2 = 2 * num * n2;
    lemma_fundamental_div_mod(x1, den);
    vstd::arithmetic::div_mod::lemma_mod_bound(x1, den);
    assert(x1 <= x2) by (nonlinear_arith)
        requires
            0 < num,
            n1 <= n2,
            x1 == 2 * num * n1,
            x2 == 2 * num * n2,
    ;
    assert(den * (x1 / den) <= x2) by (nonlinear_arith)
        requires
            den > 0,
            x1 == den * (x1 / den) + x1 % den,
            0 <= x1 % den,
            x1 <= x2,
    ;
    lemma_mul_le_div(x1 / den, x2, den);
}

/// The capacity of a combined stream is at least the sum of the capacities.
pub proof fn lemma_cap_of_subadd(num: int, den: int, n1: int, n2: int)
    requires
        0 < num < den,
        0 <= n1,
        0 <= n2,
    ensures
        cap_of(num, den, n1) + cap_of(num, den, n2) <= cap_of(num, den, n1 + n2),
{
    let x1 = 2 * num * n1;
    let x2 = 2 * num * n2;
    let q1 = x1 / den;
    let q2 = x2 / den;
    lemma_fundamental_div_mod(x1, den);
    lemma_fundamental_div_mod(x2, den);
    vstd::arithmetic::div_mod::lemma_mod_bound(x1, den);
    vstd::arithmetic::div_mod::lemma_mod_bound(x2, den);
    assert(den * (q1 + q2) <= x1 + x2) by (nonlinear_arith)
        requires
            den > 0,
            x1 == den * q1 + x1 % den,
            x2 == den * q2 + x2 % den,
            0 <= x1 % den,
            0 <= x2 % den,
    ;
    assert(x1 + x2 == 2 * num * (n1 + n2)) by (nonlinear_arith)
        requires
            x1 == 2 * num * n1,
            x2 == 2 * num * n2,
    ;
    lemma_mul_le_div(q1 + q2, 2 * num * (n1 + n2), den);
}

/// A smaller error bound gives a capacity no larger, at equal length:
/// `num2 / den2 <= num1 / den1` implies `cap_of(num2, den2, n) <= cap_of(num1, den1, n)`.
pub proof fn lemma_cap_of_eps_monotone(num1: int, den1: int, num2: int, den2: int, n: int)
    requires
        0 < num1 < den1,
        0 < num2 < den2,
        num2 * den1 <= num1 * den2,
        0 <= n,
    ensures
        cap_of(num2, den2, n) <= cap_of(num1, den1, n),
{
    let x2 = 2 * num2 * n;
    let q2 = x2 / den2;
    lemma_fundamental_div_mod(x2, den2);
    vstd::arithmetic::div_mod::lemma_mod_bound(x2, den2);
    assert(den1 * q2 <= 2 * num1 * n) by (nonlinear_arith)
        requires
            den1 > 0,
            den2 > 0,
            0 <= n,
            num2 * den1 <= num1 * den2,
            x2 == 2 * num2 * n,
            x2 == den2 * q2 + x2 % den2,
            0 <= x2 % den2,
    ;
    lemma_mul_le_div(q2, 2 * num1 * n, den1);
}

/// The rank error allowance `floor(eps * n)` for the error bound
/// `num / den` after `n` values.
pub open spec fn eps_err_of(num: int, den: int, n: int) -> int {
    (num * n) / den
}

/// Half the capacity bound is exactly the rank error allowance:
/// `floor(max(floor(2 eps n), 1) / 2) == floor(eps n)`.
pub proof fn lemma_half_cap_is_eps(num: int, den: int, n: int)
    requires
        0 < num < den,
        0 <= n,
    ensures
        cap_bound(cap_of(num, den, n)) / 2 == eps_err_of(num, den, n),
{
    let a = num * n;
    let d = den;
    let q2 = (2 * a) / d;
    let q = a / d;
    assert(2 * a == 2 * num * n) by (nonlinear_arith)
        requires
            a == num * n,
    ;
    lemma_fundamental_div_mod(a, d);
    vstd::arithmetic::div_mod::lemma_mod_bound(a, d);
    assert(a >= 0) by (nonlinear_arith)
        requires
            a == num * n,
            num > 0,
            n >= 0,
    ;
    if q2 == 0 {
        // 2a < d, so a < d and the allowance is zero as well
        lemma_fundamental_div_mod(2 * a, d);
        vstd::arithmetic::div_mod::lemma_mod_bound(2 * a, d);
        assert(2 * a < d) by (nonlinear_arith)
            requires
                d > 0,
                2 * a == d * q2 + (2 * a) % d,
                q2 == 0,
                0 <= (2 * a) % d < d,
        ;
        lemma_div_exact_range(a, d, 0);
        assert(cap_bound(0) == 1 && 1int / 2 == 0);
    } else {
        // d q <= a < d (q + 1) gives 2q <= q2 <= 2q + 1
        assert(d * (2 * q) <= 2 * a) by (nonlinear_arith)
            requires
                a == d * q + a % d,
                0 <= a % d,
        ;
        lemma_mul_le_div(2 * q, 2 * a, d);
        lemma_fundamental_div_mod(2 * a, d);
        vstd::arithmetic::div_mod::lemma_mod_bound(2 * a, d);
        assert(q2 < 2 * q + 2) by (nonlinear_arith)
            requires
                d > 0,
                2 * a == d * q2 + (2 * a) % d,
                0 <= (2 * a) % d,
                a == d * q + a % d,
                0 <= a % d < d,
        ;
        assert(q2 == 2 * q || q2 == 2 * q + 1);
        assert(cap_bound(q2) == q2);
        assert(q2 / 2 == q) by {
            lemma_div_exact_range(q2, 2, q);
        }
    }
}

/// `cap_bound` combines subadditively across a merge.
pub proof fn lemma_cap_bound_combine(c1: int, c2: int, c3: int)
    requires
        0 <= c1,
        0 <= c2,
        c1 + c2 <= c3,
    ensures
        cap_bound(c1) + cap_bound(c2) - 1 <= cap_bound(c3),
{
}

/// Minimum rank of the sample at `i`: the sum of `g` up to and including it.
pub open spec fn min_rank_at(s: Seq<Sample>, i: int) -> int {
    sum_g(s.take(i + 1))
}

/// Worst-case rank error when the sample at `i` answers a query for rank
/// `target`.
pub open spec fn err_at(s: Seq<Sample>, i: int, target: int) -> int {
    let minr = min_rank_at(s, i);
    let maxr = minr + s[i].delta;
    let mid = (minr + maxr) / 2;
    if target > mid {
        target - minr
    } else {
        maxr - target
    }
}

/// First index among the first `k` samples that minimises the worst-case
/// rank error, ties broken towards the earlier sample.
pub open spec fn best_upto(s: Seq<Sample>, target: int, k: int) -> int
    decreases k,
{
    if k <= 1 {
        0
    } else {
        let b = best_upto(s, target, k - 1);
        if err_at(s, k - 1, target) < err_at(s, b, target) {
            k - 1
        } else {
            b
        }
    }
}

/// The best index lies within the scanned prefix.
proof fn lemma_best_upto_range(s: Seq<Sample>, target: int, k: int)
    requires
        k >= 1,
    ensures
        0 <= best_upto(s, target, k) < k,
    decreases k,
{
    if k > 1 {
        lemma_best_upto_range(s, target, k - 1);
    }
}

/// Dividing a value between two consecutive multiples of `d` gives the lower
/// multiplier.
proof fn lemma_div_exact_range(x: int, d: int, q: int)
    requires
        d > 0,
        d * q <= x < d * (q + 1),
    ensures
        x / d == q,
{
    lemma_fundamental_div_mod(x, d);
    vstd::arithmetic::div_mod::lemma_mod_bound(x, d);
    assert(x / d == q) by (nonlinear_arith)
        requires
            d > 0,
            d * q <= x < d * (q + 1),
            x == d * (x / d) + x % d,
            0 <= x % d < d,
    ;
}

/// A query for rank 1 is answered exactly by the first sample and by no
/// other: its error is zero and every later sample errs by at least one.
proof fn lemma_err_rank_one(s: Seq<Sample>)
    requires
        gs_positive(s),
        ends_exact(s),
        s.len() >= 1,
    ensures
        err_at(s, 0, 1) == 0,
        forall|i: int| 1 <= i < s.len() ==> #[trigger] err_at(s, i, 1) >= 1,
{
    assert(s.take(1) =~= seq![s[0]]);
    assert(seq![s[0]].drop_last() =~= Seq::<Sample>::empty());
    assert(sum_g(Seq::<Sample>::empty()) == 0);
    assert(min_rank_at(s, 0) == 1);
    assert((1 + 1) / 2 == 1);
    assert forall|i: int| 1 <= i < s.len() implies #[trigger] err_at(s, i, 1) >= 1 by {
        lemma_sum_g_take(s, i + 1);
        let minr = min_rank_at(s, i);
        assert(minr >= i + 1 >= 2);
        let maxr = minr + s[i].delta;
        vstd::arithmetic::div_mod::lemma_div_is_ordered(2 * minr, minr + maxr, 2);
        lemma_div_exact_range(2 * minr, 2, minr);
        assert((minr + maxr) / 2 >= minr);
    }
}

/// A query for the last rank is answered exactly by the last sample and by
/// no other.
proof fn lemma_err_rank_last(s: Seq<Sample>, n: int)
    requires
        gs_positive(s),
        ends_exact(s),
        s.len() >= 1,
        sum_g(s) == n,
    ensures
        err_at(s, s.len() - 1, n) == 0,
        forall|i: int| 0 <= i < s.len() - 1 ==> #[trigger] err_at(s, i, n) >= 1,
{
    assert(s.take(s.len() as int) =~= s);
    assert(min_rank_at(s, s.len() - 1) == n);
    assert(s[s.len() - 1] == s.last());
    lemma_div_exact_range(2 * n, 2, n);
    assert(err_at(s, s.len() - 1, n) == 0);
    assert forall|i: int| 0 <= i < s.len() - 1 implies #[trigger] err_at(s, i, n) >= 1 by {
        lemma_sum_g_take(s, i + 1);
        let minr = min_rank_at(s, i);
        assert(minr <= n - (s.len() - i - 1) <= n - 1);
        let maxr = minr + s[i].delta;
        let mid = (minr + maxr) / 2;
        if n > mid {
            assert(err_at(s, i, n) == n - minr >= 1);
        } else {
            // mid >= n forces maxr >= n + 1
            if minr + maxr <= 2 * n - 1 {
                vstd::arithmetic::div_mod::lemma_div_is_ordered(minr + maxr, 2 * n - 1, 2);
                lemma_div_exact_range(2 * n - 1, 2, n - 1);
                assert(mid <= n - 1);
                assert(false);
            }
            assert(maxr >= 2 * n - minr >= n + 1);
        }
    }
}

/// When one index has error zero and all others err by at least one, the
/// scan settles on that index.
proof fn lemma_best_upto_unique(s: Seq<Sample>, target: int, k: int, w: int)
    requires
        0 <= w < s.len(),
        err_at(s, w, target) == 0,
        forall|i: int| 0 <= i < s.len() && i != w ==> #[trigger] err_at(s, i, target) >= 1,
        w < k <= s.len(),
    ensures
        best_upto(s, target, k) == w,
    decreases k,
{
    if k - 1 > w {
        lemma_best_upto_unique(s, target, k - 1, w);
    } else if k - 1 == w {
        if w > 0 {
            lemma_best_upto_nonneg_err(s, target, k - 1, w);
        }
    }
}

/// While the scan has not reached `w`, every candidate errs by at least one.
proof fn lemma_best_upto_nonneg_err(s: Seq<Sample>, target: int, k: int, w: int)
    requires
        1 <= k <= s.len(),
        k <= w < s.len(),
        forall|i: int| 0 <= i < s.len() && i != w ==> #[trigger] err_at(s, i, target) >= 1,
    ensures
        err_at(s, best_upto(s, target, k), target) >= 1,
    decreases k,
{
    lemma_best_upto_range(s, target, k);
    if k > 1 {
        lemma_best_upto_nonneg_err(s, target, k - 1, w);
    }
}

/// The scan picks an index whose error is no larger than any scanned one.
proof fn lemma_best_upto_minimal(s: Seq<Sample>, target: int, k: int, i: int)
    requires
        0 <= i < k,
    ensures
        err_at(s, best_upto(s, target, k), target) <= err_at(s, i, target),
    decreases k,
{
    if k > 1 && i < k - 1 {
        lemma_best_upto_minimal(s, target, k - 1, i);
    }
}

/// For any rank within the stream there is a sample whose minimum rank
/// first reaches it.
proof fn lemma_find_cover(s: Seq<Sample>, r: int, k: int)
    requires
        0 <= k < s.len(),
        min_rank_at(s, k) >= r,
        1 <= r,
    ensures
        exists|i: int|
            0 <= i <= k && #[trigger] min_rank_at(s, i) >= r && (i == 0 || min_rank_at(s, i - 1)
                < r),
    decreases k,
{
    if k == 0 {
        assert(min_rank_at(s, 0) >= r && (0 == 0 || min_rank_at(s, -1) < r));
    } else if min_rank_at(s, k - 1) < r {
        assert(min_rank_at(s, k) >= r && (k == 0 || min_rank_at(s, k - 1) < r));
    } else {
        lemma_find_cover(s, r, k - 1);
    }
}

/// If some sample's maximum rank exceeds `bound`, there is a first one.
proof fn lemma_first_over(s: Seq<Sample>, bound: int, k: int)
    requires
        0 <= k < s.len(),
        min_rank_at(s, k) + s[k].delta > bound,
    ensures
        exists|i: int|
            0 <= i <= k && #[trigger] min_rank_at(s, i) + s[i].delta > bound && (i == 0
                || min_rank_at(s, i - 1) + s[i - 1].delta <= bound),
    decreases k,
{
    if k == 0 {
        assert(min_rank_at(s, 0) + s[0].delta > bound && (0 == 0 || true));
    } else if min_rank_at(s, k - 1) + s[k - 1].delta <= bound {
        assert(min_rank_at(s, k) + s[k].delta > bound && (k == 0 || min_rank_at(s, k - 1) + s[k
            - 1].delta <= bound));
    } else {
        lemma_first_over(s, bound, k - 1);
    }
}

/// Coverage: for every rank of the stream, some sample answers it with a
/// worst-case error of at most half the capacity bound, so the error the
/// query reports never exceeds the allowance `floor(eps * len)`.
pub proof fn lemma_query_error_bounded(s: Seq<Sample>, cap: int, r: int)
    requires
        wf_samples(s, cap),
        s.len() >= 1,
        1 <= r <= sum_g(s),
    ensures
        err_at(s, best_upto(s, r, s.len() as int), r) <= cap_bound(cap) / 2,
{
    let n = s.len() as int;
    let cb = cap_bound(cap);
    let half = cb / 2;
    assert(s.take(n) =~= s);
    assert(s[n - 1] == s.last());
    assert(s[n - 1].delta == 0);
    lemma_div_exact_range(cb, 2, half);
    if min_rank_at(s, n - 1) + s[n - 1].delta > r + half {
        lemma_first_over(s, r + half, n - 1);
        let i = choose|i: int|
            0 <= i <= n - 1 && #[trigger] min_rank_at(s, i) + s[i].delta > r + half && (i == 0
                || min_rank_at(s, i - 1) + s[i - 1].delta <= r + half);
        if i == 0 {
            // The first sample claims rank 1 exactly, so it cannot overshoot
            assert(s[0].g == 1 && s[0].delta == 0);
            assert(s.take(1) =~= seq![s[0]]);
            assert(seq![s[0]].drop_last() =~= Seq::<Sample>::empty());
            assert(sum_g(Seq::<Sample>::empty()) == 0);
            assert(min_rank_at(s, 0) == 1);
            assert(false);
        }
        // The sample before the first overshooting one answers within half
        let minr = min_rank_at(s, i - 1);
        let maxr = minr + s[i - 1].delta;
        assert(maxr <= r + half);
        assert(s.take(i + 1).drop_last() =~= s.take(i));
        assert(s.take(i + 1).last() == s[i]);
        assert(min_rank_at(s, i) == minr + s[i - 1].delta + (s[i].g + s[i].delta) - s[i
            - 1].delta - s[i].delta + s[i].g - s[i].g);
        assert(min_rank_at(s, i) == min_rank_at(s, i - 1) + s[i].g);
        assert(minr == min_rank_at(s, i) - s[i].g);
        assert(min_rank_at(s, i) + s[i].delta > r + half);
        assert(s[i].g + s[i].delta <= cb);
        assert(minr > r + half - cb);
        let mid = (minr + maxr) / 2;
        if r > mid {
            assert(err_at(s, i - 1, r) == r - minr);
            assert(r - minr < cb - half);
            assert(cb - half <= half + 1);
            assert(err_at(s, i - 1, r) <= half);
        } else {
            assert(err_at(s, i - 1, r) == maxr - r <= half);
        }
        lemma_best_upto_minimal(s, r, n, i - 1);
    } else {
        // No sample overshoots: the last one, claiming rank len exactly,
        // answers within half
        let minr = min_rank_at(s, n - 1);
        assert(minr == sum_g(s));
        let maxr = minr + s[n - 1].delta;
        vstd::arithmetic::div_mod::lemma_div_is_ordered(2 * r, minr + maxr, 2);
        lemma_div_exact_range(2 * r, 2, r);
        assert((minr + maxr) / 2 >= r);
        assert(err_at(s, n - 1, r) == maxr - r <= half);
        if n >= 2 {
            lemma_best_upto_minimal(s, r, n, n - 1);
        } else {
            lemma_best_upto_range(s, r, n);
        }
    }
}

/// The answer the scan selects is truthful under the rank envelope: the
/// true rank range of the returned value lies within the reported error of
/// the queried rank, widened by the envelope's slack.
pub proof fn lemma_query_true_rank(s: Seq<Sample>, vs: Seq<i64>, target: int, slack: int)
    requires
        envelope_within(s, vs, slack),
        slack >= 0,
        s.len() >= 1,
        1 <= target,
    ensures
        ({
            let b = best_upto(s, target, s.len() as int);
            let e = err_at(s, b, target);
            &&& count_le(vs, s[b].value) + slack >= target - e
            &&& count_lt(vs, s[b].value) <= target + e - 1 + slack
        }),
{
    lemma_best_upto_range(s, target, s.len() as int);
    let b = best_upto(s, target, s.len() as int);
    let e = err_at(s, b, target);
    let minr = min_rank_at(s, b);
    let maxr = minr + s[b].delta;
    let mid = (minr + maxr) / 2;
    lemma_fundamental_div_mod(minr + maxr, 2);
    vstd::arithmetic::div_mod::lemma_mod_bound(minr + maxr, 2);
    assert(2 * mid <= minr + maxr <= 2 * mid + 1);
    assert(sum_g(s.take(b + 1)) <= count_le(vs, s[b].value) + slack);
    assert(count_lt(vs, s[b].value) <= sum_g(s.take(b + 1)) + s[b].delta - 1 + slack);
    if target > mid {
        // e == target - minr; the gap above the midpoint bounds delta
        assert(s[b].delta <= 2 * e - 1);
    } else {
        // e == maxr - target; the gap below the midpoint bounds delta
        assert(s[b].delta <= 2 * e);
    }
}

/// Every sample is exact: it represents one value with no rank uncertainty.
pub open spec fn all_exact(s: Seq<Sample>) -> bool {
    forall|i: int| 0 <= i < s.len() ==> (#[trigger] s[i]).g == 1 && s[i].delta == 0
}

/// Over exact samples, the minimum rank of the sample at `i` is `i + 1`.
pub proof fn lemma_min_rank_exact(s: Seq<Sample>, k: int)
    requires
        all_exact(s),
        0 <= k <= s.len(),
    ensures
        sum_g(s.take(k)) == k,
    decreases k,
{
    if k > 0 {
        lemma_min_rank_exact(s, k - 1);
        assert(s.take(k).drop_last() =~= s.take(k - 1));
        assert(s.take(k).last() == s[k - 1]);
    }
}

/// Over exact samples the scan settles on the sample at position
/// `target - 1`, whose error is zero: the summary still holds every value,
/// so each rank is answered exactly.
pub proof fn lemma_query_exact_samples(s: Seq<Sample>, target: int)
    requires
        all_exact(s),
        1 <= target <= s.len(),
    ensures
        best_upto(s, target, s.len() as int) == target - 1,
        err_at(s, target - 1, target) == 0,
        forall|k: int| 1 <= k <= s.len() ==> best_upto(s, target, k) == if k <= target {
            k - 1
        } else {
            target - 1
        },
{
    assert forall|i: int| 0 <= i < s.len() implies #[trigger] err_at(s, i, target) == if target
        > i + 1 {
        target - i - 1
    } else {
        i + 1 - target
    } by {
        lemma_min_rank_exact(s, i + 1);
        lemma_div_exact_range(2 * (i + 1), 2, i + 1);
    }
    assert forall|k: int| 1 <= k <= s.len() implies best_upto(s, target, k) == if k <= target {
        k - 1
    } else {
        target - 1
    } by {
        lemma_best_exact_upto(s, target, k);
    }
}

/// The scan over exact samples keeps moving right until the target, then
/// stays there.
proof fn lemma_best_exact_upto(s: Seq<Sample>, target: int, k: int)
    requires
        all_exact(s),
        1 <= target <= s.len(),
        1 <= k <= s.len(),
        forall|i: int| 0 <= i < s.len() ==> #[trigger] err_at(s, i, target) == if target > i + 1 {
            target - i - 1
        } else {
            i + 1 - target
        },
    ensures
        best_upto(s, target, k) == if k <= target {
            k - 1
        } else {
            target - 1
        },
    decreases k,
{
    if k > 1 {
        lemma_best_exact_upto(s, target, k - 1);
    }
}

/// The space-efficient quantile summary: a modified Greenwald-Khanna sketch
/// with micro-compression at insertion time, a streaming compression pass,
/// and a streaming merge.
pub struct Summary {
    samples: SamplesTree,
    /// Maximum number of samples to keep before a structural compression
    max_samples: u64,
    /// Maximum rank error, as the fraction `eps_num / eps_den`
    eps_num: u64,
    eps_den: u64,
    /// Number of values already seen
    len: u64,
    /// All inserted values, for specification purposes
    values: Ghost<Seq<i64>>,
    /// How far the claimed rank ranges may sit from the true ranks: zero
    /// for a summary built by insertions alone, widened by each merge
    slack: Ghost<int>,
}

impl Summary {
    /// Numerator of the error bound.
    pub closed spec fn epsilon_num(self) -> u64 {
        self.eps_num
    }

    /// Denominator of the error bound.
    pub closed spec fn epsilon_den(self) -> u64 {
        self.eps_den
    }

    /// Number of values inserted so far.
    pub closed spec fn spec_len(self) -> u64 {
        self.len
    }

    /// Every value inserted so far, in arrival order.
    pub closed spec fn inserted(self) -> Seq<i64> {
        self.values@
    }

    /// The retained samples, sorted by value.
    pub closed spec fn samples_seq(self) -> Seq<Sample> {
        self.samples@
    }

    /// How far a claimed rank range may sit from the true rank range of its
    /// sample's value: zero for a summary built by insertions alone; each
    /// merge widens it by at most the larger operand capacity bound.
    pub closed spec fn rank_slack(self) -> int {
        self.slack@
    }

    /// Whether the summary was built by insertions alone. Such a summary
    /// maintains the rank envelope exactly; a merge may widen the claimed
    /// rank ranges beyond it.
    pub open spec fn insertion_only(self) -> bool {
        self.rank_slack() == 0
    }

    /// The current capacity `floor(2 * eps * len)`.
    pub open spec fn spec_cap(self) -> int {
        cap_of(self.epsilon_num() as int, self.epsilon_den() as int, self.spec_len() as int)
    }

    /// Structural well-formedness: the error bound is a fraction in (0, 1),
    /// the samples are sorted with positive `g` summing to `len`, the
    /// extreme samples are exact, every sample respects the capacity, and
    /// the extreme samples carry the true minimum and maximum.
    pub closed spec fn wf(self) -> bool {
        &&& 0 < self.eps_num < self.eps_den <= LEN_LIMIT
        &&& self.len <= LEN_LIMIT
        &&& self.len == self.values@.len()
        &&& wf_samples(self.samples@, self.spec_cap())
        &&& tracks(self.samples@, self.values@)
        &&& self.slack@ >= 0
        &&& envelope_within(self.samples@, self.values@, self.slack@)
        &&& self.max_samples == 5 * ceil_div(self.eps_den as int, self.eps_num as int)
    }

    /// Facts of a well-formed summary that callers outside this module
    /// rely on.
    pub proof fn lemma_wf_facts(self)
        requires
            self.wf(),
        ensures
            0 < self.epsilon_num() < self.epsilon_den() <= LEN_LIMIT,
            self.spec_len() <= LEN_LIMIT,
            self.spec_len() == self.inserted().len(),
            self.samples_seq().len() == 0 <==> self.spec_len() == 0,
            self.rank_slack() >= 0,
            self.insertion_only() ==> envelope(self.samples_seq(), self.inserted()),
    {
    }

    /// Create a new empty summary for the error bound `eps_num / eps_den`.
    pub fn new(eps_num: u64, eps_den: u64) -> (s: Summary)
        requires
            0 < eps_num < eps_den,
            eps_den <= LEN_LIMIT,
        ensures
            s.wf(),
            s.spec_len() == 0,
            s.inserted() =~= Seq::<i64>::empty(),
            s.samples_seq() =~= Seq::<Sample>::empty(),
            s.epsilon_num() == eps_num,
            s.epsilon_den() == eps_den,
            s.insertion_only(),
    {
        let expected_least_compressed_samples = (eps_den + eps_num - 1) / eps_num;
        let s = Summary {
            samples: SamplesTree::new(),
            max_samples: 5 * expected_least_compressed_samples,
            eps_num,
            eps_den,
            len: 0,
            values: Ghost(Seq::empty()),
            slack: Ghost(0),
        };
        proof {
            assert(sum_g(s.samples@) == 0);
            assert(s.spec_cap() == 0) by {
                lemma_cap_of_range(eps_num as int, eps_den as int, 0);
            }
        }
        s
    }

    /// The current capacity, `floor(2 * eps * len)`.
    fn max_g_delta(&self) -> (r: u64)
        requires
            0 < self.eps_num < self.eps_den <= LEN_LIMIT,
            self.len <= LEN_LIMIT,
        ensures
            r as int == self.spec_cap(),
    {
        proof {
            assert(2 * (self.eps_num as int) * (self.len as int) <= 4 * (LEN_LIMIT as int) * (
            LEN_LIMIT as int)) by (nonlinear_arith)
                requires
                    0 < self.eps_num <= LEN_LIMIT,
                    self.len <= LEN_LIMIT,
            ;
        }
        let p: u128 = 2 * (self.eps_num as u128) * (self.len as u128);
        let q: u128 = p / (self.eps_den as u128);
        proof {
            assert(p == 2 * (self.eps_num as int) * (self.len as int)) by (nonlinear_arith)
                requires
                    p == 2 * (self.eps_num as u128) * (self.len as u128),
                    self.eps_num <= LEN_LIMIT,
                    self.len <= LEN_LIMIT,
            ;
            lemma_cap_of_range(self.eps_num as int, self.eps_den as int, self.len as int);
        }
        q as u64
    }

    /// Number of inserted values.
    pub fn len(&self) -> (n: u64)
        ensures
            n == self.spec_len(),
    {
        self.len
    }

    /// The configured maximum rank error, as the fraction
    /// `(numerator, denominator)`.
    pub fn max_expected_error(&self) -> (r: (u64, u64))
        ensures
            r == (self.epsilon_num(), self.epsilon_den()),
    {
        (self.eps_num, self.eps_den)
    }

    /// The retained samples as `(value, g, delta)` triples, in value order.
    pub fn samples_spec(&self) -> (r: Vec<(i64, u64, u64)>)
        ensures
            r@.len() == self.samples_seq().len(),
            forall|i: int|
                0 <= i < r@.len() ==> r@[i] == (
                    self.samples_seq()[i].value,
                    self.samples_seq()[i].g,
                    self.samples_seq()[i].delta,
                ),
    {
        self.samples.spec_triples()
    }

    /// Insert a single new value.
    ///
    /// The new sample sequence follows the micro-compressing insertion rules
    /// at the new capacity; if the stored samples then exceed the safety
    /// bound of `5 * ceil(1 / eps)`, a structural compression pass runs
    /// before returning. The pass is not guaranteed to shrink below the
    /// safety bound: the stored count grows without a fixed limit in the
    /// worst case, only very slowly.
    pub fn insert_one(&mut self, value: i64)
        requires
            old(self).wf(),
            old(self).spec_len() < LEN_LIMIT,
        ensures
            final(self).wf(),
            final(self).samples_seq().len() <= old(self).samples_seq().len() + 1,
            final(self).spec_len() == old(self).spec_len() + 1,
            final(self).inserted() == old(self).inserted().push(value),
            final(self).epsilon_num() == old(self).epsilon_num(),
            final(self).epsilon_den() == old(self).epsilon_den(),
            final(self).rank_slack() == old(self).rank_slack(),
            final(self).samples_seq() == {
                let cap = final(self).spec_cap() as u64;
                let mid = push_value_spec(old(self).samples_seq(), value, cap);
                if mid.len() > 5 * ceil_div(
                    old(self).epsilon_den() as int,
                    old(self).epsilon_num() as int,
                ) {
                    compressed(mid, cap)
                } else {
                    mid
                }
            },
    {
        let ghost old_cap = self.spec_cap();
        self.len = self.len + 1;
        proof {
            self.values@ = self.values@.push(value);
        }
        let cap = self.max_g_delta();
        proof {
            lemma_cap_of_monotone(
                self.eps_num as int,
                self.eps_den as int,
                self.len as int - 1,
                self.len as int,
            );
            lemma_cap_of_range(self.eps_num as int, self.eps_den as int, self.len as int);
            assert(forall|i: int|
                0 <= i < self.samples@.len() ==> self.samples@[i].g + self.samples@[i].delta
                    <= cap_bound(old_cap));
            crate::modified_gk::samples_tree::lemma_push_value_wf(
                self.samples@,
                old(self).values@,
                value,
                cap,
                old_cap,
            );
            crate::modified_gk::samples_tree::lemma_push_value_envelope(
                self.samples@,
                old(self).values@,
                value,
                cap,
                self.slack@,
            );
        }
        self.samples.push_value(value, cap);
        if (self.samples.len() as u64) > self.max_samples {
            let ghost mid = self.samples@;
            self.compress();
            proof {
                crate::modified_gk::samples_compressor::lemma_comp_basic(
                    mid,
                    self.spec_cap() as u64,
                );
            }
        }
    }

    /// Run a structural compression pass over the current samples at the
    /// current capacity and replace the sample sequence with its output.
    pub fn compress(&mut self)
        requires
            old(self).wf(),
        ensures
            final(self).wf(),
            final(self).spec_len() == old(self).spec_len(),
            final(self).inserted() == old(self).inserted(),
            final(self).epsilon_num() == old(self).epsilon_num(),
            final(self).epsilon_den() == old(self).epsilon_den(),
            final(self).rank_slack() == old(self).rank_slack(),
            final(self).samples_seq() == compressed(
                old(self).samples_seq(),
                old(self).spec_cap() as u64,
            ),
    {
        let cap = self.max_g_delta();
        let ghost before = self.samples@;
        let samples = self.samples.take_samples();
        let mut compressor = SamplesCompressor::new(cap);
        let mut cursor = MergeCursor::new(samples);
        cursor.push_remaining_to(&mut compressor);
        proof {
            assert(compressor.pushed_seq() =~= before);
            crate::modified_gk::samples_compressor::lemma_compressed_wf(
                before,
                cap,
                self.spec_cap(),
            );
            crate::modified_gk::samples_compressor::lemma_compressed_envelope(
                before,
                cap,
                self.values@,
                self.slack@,
            );
        }
        self.samples = SamplesTree::from_samples(compressor.into_samples());
    }

    /// Merge another summary into this one, consuming it. The incoming
    /// summary must have an equal or smaller error bound.
    pub fn merge(&mut self, other: Summary)
        requires
            old(self).wf(),
            other.wf(),
            other.epsilon_num() * old(self).epsilon_den() <= old(self).epsilon_num()
                * other.epsilon_den(),
            old(self).spec_len() + other.spec_len() <= LEN_LIMIT,
        ensures
            final(self).wf(),
            final(self).spec_len() == old(self).spec_len() + other.spec_len(),
            final(self).inserted() == old(self).inserted() + other.inserted(),
            final(self).epsilon_num() == old(self).epsilon_num(),
            final(self).epsilon_den() == old(self).epsilon_den(),
            final(self).rank_slack() == old(self).rank_slack() + other.rank_slack() + max_of(
                cap_bound(old(self).spec_cap()),
                cap_bound(other.spec_cap()),
            ) - 1,
            final(self).samples_seq() == compressed(
                merge_seqs(old(self).samples_seq(), other.samples_seq(), 0, 0),
                cap_of(
                    old(self).epsilon_num() as int,
                    old(self).epsilon_den() as int,
                    old(self).spec_len() + other.spec_len(),
                ) as u64,
            ),
    {
        let mut other = other;
        let ghost other_cap = other.spec_cap();
        proof {
            lemma_cap_of_eps_monotone(
                self.eps_num as int,
                self.eps_den as int,
                other.eps_num as int,
                other.eps_den as int,
                other.len as int,
            );
            lemma_cap_of_subadd(
                self.eps_num as int,
                self.eps_den as int,
                self.len as int,
                other.len as int,
            );
            lemma_cap_of_range(other.eps_num as int, other.eps_den as int, other.len as int);
            lemma_cap_of_range(self.eps_num as int, self.eps_den as int, self.len as int);
            lemma_cap_bound_combine(
                self.spec_cap(),
                other_cap,
                cap_of(self.eps_num as int, self.eps_den as int, self.len + other.len),
            );
        }
        let other_len = other.len;
        let ghost other_values = other.values@;
        let ghost other_slack = other.slack@;
        let other_samples = other.samples.take_samples();
        self.merge_sorted_samples(
            other_samples,
            other_len,
            Ghost(other_values),
            Ghost(other_cap),
            Ghost(other_slack),
        );
    }

    /// Merge a sorted, well-formed sample stream that summarises
    /// `other_len` values into this summary, in one linear sweep through
    /// both sample sequences, compressing on the way.
    pub(crate) fn merge_sorted_samples(
        &mut self,
        other_samples: Vec<Sample>,
        other_len: u64,
        other_values: Ghost<Seq<i64>>,
        other_cap: Ghost<int>,
        other_slack: Ghost<int>,
    )
        requires
            old(self).wf(),
            0 <= other_cap@ <= 2 * LEN_LIMIT,
            0 <= other_slack@,
            wf_samples(other_samples@, other_cap@),
            tracks(other_samples@, other_values@),
            envelope_within(other_samples@, other_values@, other_slack@),
            other_len == other_values@.len(),
            old(self).spec_len() + other_len <= LEN_LIMIT,
            cap_bound(old(self).spec_cap()) + cap_bound(other_cap@) - 1 <= cap_bound(
                cap_of(
                    old(self).epsilon_num() as int,
                    old(self).epsilon_den() as int,
                    old(self).spec_len() + other_len,
                ),
            ),
        ensures
            final(self).wf(),
            final(self).spec_len() == old(self).spec_len() + other_len,
            final(self).inserted() == old(self).inserted() + other_values@,
            final(self).epsilon_num() == old(self).epsilon_num(),
            final(self).epsilon_den() == old(self).epsilon_den(),
            final(self).rank_slack() == old(self).rank_slack() + other_slack@ + max_of(
                cap_bound(old(self).spec_cap()),
                cap_bound(other_cap@),
            ) - 1,
            final(self).samples_seq() == compressed(
                merge_seqs(old(self).samples_seq(), other_samples@, 0, 0),
                cap_of(
                    old(self).epsilon_num() as int,
                    old(self).epsilon_den() as int,
                    old(self).spec_len() + other_len,
                ) as u64,
            ),
    {
        let ghost self_cap = self.spec_cap();
        let ghost ba = cap_bound(self_cap);
        let ghost bb = cap_bound(other_cap@);
        let ghost old_slack = self.slack@;
        let ghost merged_slack = old_slack + other_slack@ + max_of(ba, bb) - 1;
        proof {
            lemma_cap_of_range(self.eps_num as int, self.eps_den as int, self.len as int);
        }
        self.len = self.len + other_len;
        proof {
            self.values@ = self.values@ + other_values@;
            self.slack@ = merged_slack;
        }
        let max_g_delta = self.max_g_delta();
        let ghost new_cap = self.spec_cap();
        proof {
            lemma_cap_of_range(self.eps_num as int, self.eps_den as int, self.len as int);
        }
        let mut compressor = SamplesCompressor::new(max_g_delta);
        let self_samples = self.samples.take_samples();
        let ghost a0 = self_samples@;
        let ghost b0 = other_samples@;
        let mut self_input = MergeCursor::new(self_samples);
        let mut other_input = MergeCursor::new(other_samples);

        // Bring the least from each cursor until one of them ends
        loop
            invariant
                self_input.wf(),
                other_input.wf(),
                compressor.wf(),
                compressor.cap() == max_g_delta,
                ba >= 1,
                bb >= 1,
                ba + bb - 1 <= cap_bound(new_cap),
                max_g_delta as int == new_cap,
                0 <= new_cap <= 2 * LEN_LIMIT,
                self_input.residual() <= ba - 1,
                other_input.residual() <= bb - 1,
                forall|i: int|
                    0 <= i < self_input.remaining().len() ==> (#[trigger] self_input.remaining()[i].g)
                        + self_input.remaining()[i].delta <= ba,
                forall|i: int|
                    0 <= i < other_input.remaining().len() ==> (
                    #[trigger] other_input.remaining()[i].g) + other_input.remaining()[i].delta
                        <= bb,
                gs_positive(self_input.remaining()),
                gs_positive(other_input.remaining()),
                compressor.pushed_seq() + merge_seqs(
                    self_input.remaining(),
                    other_input.remaining(),
                    self_input.residual() as int,
                    other_input.residual() as int,
                ) == merge_seqs(a0, b0, 0, 0),
            ensures
                self_input.remaining().len() == 0 || other_input.remaining().len() == 0,
            decreases self_input.remaining().len() + other_input.remaining().len(),
        {
            let self_peeked = match self_input.peek() {
                Some(s) => s,
                None => { break ; },
            };
            let other_peeked = match other_input.peek() {
                Some(s) => s,
                None => { break ; },
            };
            let ghost ar = self_input.remaining();
            let ghost br = other_input.remaining();
            let ghost ra = self_input.residual() as int;
            let ghost rb = other_input.residual() as int;
            let mut new_sample: Sample;
            if self_peeked.value < other_peeked.value {
                new_sample = self_input.pop_front();
                new_sample.delta = new_sample.delta + other_input.additional_delta();
                proof {
                    assert(new_sample == crate::modified_gk::merge_cursor::bump(ar[0], rb));
                    assert(forall|i: int|
                        0 <= i < ar.drop_first().len() ==> ar.drop_first()[i] == ar[i + 1]);
                }
            } else {
                new_sample = other_input.pop_front();
                new_sample.delta = new_sample.delta + self_input.additional_delta();
                proof {
                    assert(new_sample == crate::modified_gk::merge_cursor::bump(br[0], ra));
                    assert(forall|i: int|
                        0 <= i < br.drop_first().len() ==> br.drop_first()[i] == br[i + 1]);
                }
            }
            compressor.push(new_sample);
            proof {
                let m = merge_seqs(ar, br, ra, rb);
                let m2 = merge_seqs(
                    self_input.remaining(),
                    other_input.remaining(),
                    self_input.residual() as int,
                    other_input.residual() as int,
                );
                assert(m =~= seq![new_sample] + m2);
                assert(compressor.pushed_seq() + m2 =~= (compressor.pushed_seq().drop_last() + m));
            }
        }

        // One side is drained: move the remaining samples directly
        let ghost ar = self_input.remaining();
        let ghost br = other_input.remaining();
        other_input.push_remaining_to(&mut compressor);
        self_input.push_remaining_to(&mut compressor);
        proof {
            if ar.len() == 0 {
                assert(merge_seqs(ar, br, self_input.residual() as int, other_input.residual() as int)
                    == br);
            } else {
                assert(br.len() == 0);
            }
            assert(compressor.pushed_seq() =~= merge_seqs(a0, b0, 0, 0));
            let m = merge_seqs(a0, b0, 0, 0);
            crate::modified_gk::merge_cursor::lemma_merge_len_sum(a0, b0, 0, 0);
            crate::modified_gk::merge_cursor::lemma_merge_sorted(a0, b0, 0, 0);
            crate::modified_gk::merge_cursor::lemma_merge_bound(a0, b0, 0, 0, ba, bb);
            assert(wf_samples(m, new_cap)) by {
                if a0.len() > 0 && b0.len() > 0 {
                    assert(m[0] == if a0[0].value < b0[0].value {
                        crate::modified_gk::merge_cursor::bump(a0[0], 0)
                    } else {
                        crate::modified_gk::merge_cursor::bump(b0[0], 0)
                    });
                    assert(m[0].g == 1 && m[0].delta == 0);
                    assert(m.last().delta == 0);
                } else if a0.len() > 0 {
                    assert(m == a0);
                } else {
                    assert(m == b0);
                }
            }
            crate::modified_gk::samples_compressor::lemma_compressed_wf(m, max_g_delta, new_cap);
            let c = compressed(m, max_g_delta);
            assert(tracks(c, self.values@)) by {
                lemma_tracks_concat(a0, b0, old(self).values@, other_values@, m, c);
            }
            // The rank envelope survives the merge, widened by the larger
            // operand capacity bound
            let vsa = old(self).values@;
            let vsb = other_values@;
            assert forall|t: int|
                0 <= t < a0.len() implies 0 + sum_g(a0.take(t + 1)) <= count_le(
                vsa,
                (#[trigger] a0[t]).value,
            ) + old_slack && count_lt(vsa, a0[t].value) <= 0 + sum_g(a0.take(t + 1)) + a0[t].delta
                - 1 + old_slack by {
                assert(envelope_within(a0, vsa, old_slack));
            }
            assert forall|t: int|
                0 <= t < b0.len() implies 0 + sum_g(b0.take(t + 1)) <= count_le(
                vsb,
                (#[trigger] b0[t]).value,
            ) + other_slack@ && count_lt(vsb, b0[t].value) <= 0 + sum_g(b0.take(t + 1)) + b0[
                t
            ].delta - 1 + other_slack@ by {
                assert(envelope_within(b0, vsb, other_slack@));
            }
            assert(forall|t: int| 0 <= t < a0.len() ==> (#[trigger] a0[t]).g + a0[t].delta <= ba);
            assert(forall|t: int| 0 <= t < b0.len() ==> (#[trigger] b0[t]).g + b0[t].delta <= bb);
            if a0.len() > 0 {
                lemma_count_bounds(vsb, a0[0].value, a0[0].value);
            }
            if b0.len() > 0 {
                lemma_count_bounds(vsa, b0[0].value, b0[0].value);
            }
            crate::modified_gk::merge_cursor::lemma_merge_envelope(
                a0,
                b0,
                vsa,
                vsb,
                0,
                0,
                old_slack,
                other_slack@,
                ba,
                bb,
                0,
                0,
            );
            assert forall|k: int|
                0 <= k < m.len() implies sum_g(m.take(k + 1)) <= count_le(
                self.values@,
                (#[trigger] m[k]).value,
            ) + merged_slack && count_lt(self.values@, m[k].value) <= sum_g(m.take(k + 1)) + m[
                k
            ].delta - 1 + merged_slack by {
                lemma_count_concat(vsa, vsb, m[k].value);
            }
            assert(envelope_within(m, self.values@, merged_slack));
            crate::modified_gk::samples_compressor::lemma_compressed_envelope(
                m,
                max_g_delta,
                self.values@,
                merged_slack,
            );
        }
        self.samples = SamplesTree::from_samples(compressor.into_samples());
    }

    /// Query for the quantile `q_num / q_den` and return the best value
    /// together with its worst-case rank error.
    ///
    /// Returns `None` if and only if the summary is empty. The reported
    /// error never exceeds the allowance `floor(eps * len)`, and the true
    /// rank of the returned value lies within the reported error of the
    /// target, widened by the summary's `rank_slack` (zero unless the
    /// summary was merged). A query for quantile zero returns the exact
    /// minimum of the inserted values, a query for quantile one the exact
    /// maximum, both with error zero.
    pub fn query_with_error(&self, q_num: u64, q_den: u64) -> (r: Option<(i64, u64)>)
        requires
            self.wf(),
            q_num <= q_den,
            0 < q_den,
        ensures
            r is None <==> self.spec_len() == 0,
            self.spec_len() > 0 ==> {
                let target = rank_spec(q_num as int, q_den as int, self.spec_len() as int);
                let b = best_upto(self.samples_seq(), target, self.samples_seq().len() as int);
                r == Some(
                    (self.samples_seq()[b].value, err_at(self.samples_seq(), b, target) as u64),
                )
            },
            self.spec_len() > 0 && q_num == 0 ==> {
                let p = r->0;
                is_min(p.0, self.inserted()) && p.1 == 0
            },
            self.spec_len() > 0 && q_num == q_den ==> {
                let p = r->0;
                is_max(p.0, self.inserted()) && p.1 == 0
            },
            self.spec_len() > 0 ==> (r->0).1 <= eps_err_of(
                self.epsilon_num() as int,
                self.epsilon_den() as int,
                self.spec_len() as int,
            ),
            self.spec_len() > 0 ==> {
                let p = r->0;
                let target = rank_spec(q_num as int, q_den as int, self.spec_len() as int);
                count_le(self.inserted(), p.0) + self.rank_slack() >= target - p.1 && count_lt(
                    self.inserted(),
                    p.0,
                ) <= target + p.1 - 1 + self.rank_slack()
            },
    {
        if self.len == 0 {
            return None;
        }
        let ghost s = self.samples@;
        let target = crate::quantile_to_rank(q_num, q_den, self.len);
        let m = self.samples.len();
        proof {
            assert(s.len() >= 1);
            lemma_cap_of_range(self.eps_num as int, self.eps_den as int, self.len as int);
        }
        let mut i: usize = 0;
        let mut min_rank: u64 = 0;
        let mut best_idx: usize = 0;
        let mut best_err: u64 = 0;
        let mut best_value: i64 = 0;
        while i < m
            invariant
                self.wf(),
                s == self.samples@,
                m == s.len(),
                m >= 1,
                0 <= i <= m,
                1 <= target <= self.len,
                self.len <= LEN_LIMIT,
                cap_bound(self.spec_cap()) <= 2 * LEN_LIMIT + 1,
                min_rank == sum_g(s.take(i as int)),
                min_rank <= self.len,
                i > 0 ==> {
                    &&& best_idx == best_upto(s, target as int, i as int)
                    &&& best_err == err_at(s, best_idx as int, target as int)
                    &&& best_value == s[best_idx as int].value
                    &&& best_idx < i
                },
            decreases m - i,
        {
            proof {
                lemma_sum_g_take(s, i + 1);
                assert(s.take(i + 1).drop_last() =~= s.take(i as int));
                assert(s.take(i + 1).last() == s[i as int]);
                lemma_sum_g_nonneg(s);
            }
            let sample = self.samples.get(i);
            min_rank = min_rank + sample.g;
            let max_rank = min_rank + sample.delta;
            let mid = (min_rank + max_rank) / 2;
            let err: u64 = if target > mid {
                target - min_rank
            } else {
                max_rank - target
            };
            proof {
                assert(min_rank == min_rank_at(s, i as int));
                assert(err == err_at(s, i as int, target as int));
            }
            if i == 0 || err < best_err {
                best_idx = i;
                best_err = err;
                best_value = sample.value;
            }
            proof {
                if i > 0 {
                    assert(best_upto(s, target as int, i + 1) == if err_at(
                        s,
                        i as int,
                        target as int,
                    ) < err_at(s, best_upto(s, target as int, i as int), target as int) {
                        i as int
                    } else {
                        best_upto(s, target as int, i as int)
                    });
                }
            }
            i = i + 1;
        }
        proof {
            lemma_query_error_bounded(s, self.spec_cap(), target as int);
            lemma_half_cap_is_eps(self.eps_num as int, self.eps_den as int, self.len as int);
            lemma_query_true_rank(s, self.values@, target as int, self.slack@);
            if q_num == 0 {
                assert(target == 1) by {
                    assert(q_num as int * self.len as int == 0) by (nonlinear_arith)
                        requires
                            q_num == 0,
                    ;
                    lemma_div_exact_range(q_den as int - 1, q_den as int, 0);
                }
                lemma_err_rank_one(s);
                lemma_best_upto_unique(s, 1, m as int, 0);
                assert(best_value == s[0].value);
            }
            if q_num == q_den {
                assert(target == self.len) by {
                    let d = q_den as int;
                    let n = self.len as int;
                    assert(d * n <= d * n + d - 1 < d * (n + 1)) by (nonlinear_arith)
                        requires
                            d >= 1,
                            n >= 1,
                    ;
                    lemma_div_exact_range(d * n + d - 1, d, n);
                }
                lemma_err_rank_last(s, self.len as int);
                lemma_best_upto_unique(s, self.len as int, m as int, m - 1);
                assert(best_value == s[m - 1].value == s.last().value);
            }
        }
        Some((best_value, best_err))
    }

    /// Query for the quantile `q_num / q_den`; `None` if and only if the
    /// summary is empty.
    pub fn query(&self, q_num: u64, q_den: u64) -> (r: Option<i64>)
        requires
            self.wf(),
            q_num <= q_den,
            0 < q_den,
        ensures
            r is None <==> self.spec_len() == 0,
            self.spec_len() > 0 ==> {
                let target = rank_spec(q_num as int, q_den as int, self.spec_len() as int);
                let b = best_upto(self.samples_seq(), target, self.samples_seq().len() as int);
                r == Some(self.samples_seq()[b].value)
            },
            self.spec_len() > 0 && q_num == 0 ==> is_min(r->0, self.inserted()),
            self.spec_len() > 0 && q_num == q_den ==> is_max(r->0, self.inserted()),
    {
        match self.query_with_error(q_num, q_den) {
            Some((value, _error)) => Some(value),
            None => None,
        }
    }
}

/// The merged and compressed sample sequence summarises the concatenation of
/// the two value streams: the totals add and the extreme samples carry the
/// overall minimum and maximum.
proof fn lemma_tracks_concat(
    a0: Seq<Sample>,
    b0: Seq<Sample>,
    va: Seq<i64>,
    vb: Seq<i64>,
    m: Seq<Sample>,
    c: Seq<Sample>,
)
    requires
        tracks(a0, va),
        tracks(b0, vb),
        sorted_values(a0),
        sorted_values(b0),
        m == merge_seqs(a0, b0, 0, 0),
        sum_g(c) == sum_g(m),
        c.len() == 0 <==> m.len() == 0,
        m.len() >= 1 ==> c.len() >= 1 && c[0] == m[0] && c.last().value == m.last().value,
    ensures
        tracks(c, va + vb),
{
    let vs = va + vb;
    crate::modified_gk::merge_cursor::lemma_merge_len_sum(a0, b0, 0, 0);
    crate::modified_gk::merge_cursor::lemma_merge_sorted(a0, b0, 0, 0);
    assert(sum_g(c) == vs.len());
    assert(forall|i: int| 0 <= i < va.len() ==> vs[i] == va[i]);
    assert(forall|i: int| 0 <= i < vb.len() ==> vs[i + va.len()] == vb[i]);
    if a0.len() == 0 && b0.len() == 0 {
        assert(vs.len() == 0);
    } else if a0.len() == 0 {
        assert(m == b0);
        assert(vs =~= vb);
    } else if b0.len() == 0 {
        assert(m == a0);
        assert(vs =~= va);
    } else {
        assert(is_min(a0[0].value, va) && is_min(b0[0].value, vb));
        assert(is_max(a0.last().value, va) && is_max(b0.last().value, vb));
        let mn = m[0].value;
        assert(mn == if a0[0].value < b0[0].value {
            a0[0].value
        } else {
            b0[0].value
        });
        assert(is_min(mn, vs)) by {
            if a0[0].value < b0[0].value {
                let k = choose|k: int| 0 <= k < va.len() && va[k] == a0[0].value;
                assert(vs[k] == mn);
            } else {
                let k = choose|k: int| 0 <= k < vb.len() && vb[k] == b0[0].value;
                assert(vs[k + va.len()] == mn);
            }
            assert(forall|i: int| 0 <= i < va.len() ==> mn <= #[trigger] vs[i]);
            assert(forall|i: int|
                va.len() <= i < vs.len() ==> mn <= b0[0].value <= vb[i - va.len()] && vs[i] == vb[
                    i - va.len()]);
        }
        let mx = m.last().value;
        assert(m.last() == a0.last() || m.last() == b0.last());
        assert(is_max(mx, vs)) by {
            if m.last() == a0.last() {
                let k = choose|k: int| 0 <= k < va.len() && va[k] == a0.last().value;
                assert(vs[k] == mx);
            } else {
                let k = choose|k: int| 0 <= k < vb.len() && vb[k] == b0.last().value;
                assert(vs[k + va.len()] == mx);
            }
            assert(mx >= a0.last().value && mx >= b0.last().value);
            assert(forall|i: int| 0 <= i < va.len() ==> #[trigger] vs[i] <= a0.last().value);
            assert(forall|i: int|
                va.len() <= i < vs.len() ==> vs[i] == vb[i - va.len()] && vb[i - va.len()]
                    <= b0.last().value);
        }
    }
}

} // verus!
