//! The retained sample triple and the spec-level predicates that every
//! operation of the summary maintains over the sample sequence.

use vstd::prelude::*;

verus! {

/// One retained element of the stream together with its rank envelope.
///
/// For the sample at position `i` of the ordered sequence, `g` is the
/// difference between its minimum rank and the minimum rank of the sample at
/// position `i - 1`, and `delta` is the difference between its maximum and
/// minimum rank.
#[derive(Clone, Copy, Debug, PartialEq, Eq, Structural)]
pub struct Sample {
    pub value: i64,
    pub g: u64,
    pub delta: u64,
}

impl Sample {
    /// The sample of a value whose rank is known exactly at insertion time.
    pub open spec fn exact_spec(value: i64) -> Sample {
        Sample { value, g: 1, delta: 0 }
    }

    /// Build a sample for a value seen exactly once, with no rank uncertainty.
    pub fn exact(value: i64) -> (s: Sample)
        ensures
            s == Sample::exact_spec(value),
    {
        Sample { value, g: 1, delta: 0 }
    }
}

/// Total count of stream values represented by the samples: the sum of all
/// `g` fields.
pub open spec fn sum_g(s: Seq<Sample>) -> int
    decreases s.len(),
{
    if s.len() == 0 {
        0
    } else {
        sum_g(s.drop_last()) + s.last().g
    }
}

/// The samples are sorted by value, non-decreasing.
pub open spec fn sorted_values(s: Seq<Sample>) -> bool {
    forall|i: int, j: int| 0 <= i <= j < s.len() ==> s[i].value <= s[j].value
}

/// Every sample represents at least one stream value.
pub open spec fn gs_positive(s: Seq<Sample>) -> bool {
    forall|i: int| 0 <= i < s.len() ==> s[i].g >= 1
}

/// The minimum is represented exactly (`g = 1`, `delta = 0`) and the maximum
/// has no rank uncertainty (`delta = 0`).
pub open spec fn ends_exact(s: Seq<Sample>) -> bool {
    s.len() > 0 ==> s[0].g == 1 && s[0].delta == 0 && s.last().delta == 0
}

/// The per-sample bound enforced for the capacity `cap = floor(2 * eps * n)`:
/// `max(cap, 1)`, since a freshly inserted sample always occupies `g = 1`
/// even while `cap` is still zero.
pub open spec fn cap_bound(cap: int) -> int {
    if cap < 1 {
        1
    } else {
        cap
    }
}

/// Every sample's `g + delta` stays within `max(cap, 1)`.
pub open spec fn within_cap(s: Seq<Sample>, cap: int) -> bool {
    forall|i: int| 0 <= i < s.len() ==> s[i].g + s[i].delta <= cap_bound(cap)
}

/// Well-formedness of a sample sequence under capacity `cap`.
pub open spec fn wf_samples(s: Seq<Sample>, cap: int) -> bool {
    sorted_values(s) && gs_positive(s) && ends_exact(s) && within_cap(s, cap)
}

/// `v` is a smallest element of `vs`.
pub open spec fn is_min(v: i64, vs: Seq<i64>) -> bool {
    vs.contains(v) && forall|i: int| 0 <= i < vs.len() ==> v <= vs[i]
}

/// `v` is a largest element of `vs`.
pub open spec fn is_max(v: i64, vs: Seq<i64>) -> bool {
    vs.contains(v) && forall|i: int| 0 <= i < vs.len() ==> v >= vs[i]
}

/// The sample sequence `s` summarises exactly the stream values `vs`:
/// the `g` fields add up to the stream length and the extreme samples carry
/// the exact minimum and maximum of the stream.
pub open spec fn tracks(s: Seq<Sample>, vs: Seq<i64>) -> bool {
    &&& sum_g(s) == vs.len()
    &&& (s.len() == 0 <==> vs.len() == 0)
    &&& (s.len() > 0 ==> is_min(s[0].value, vs) && is_max(s.last().value, vs))
}

/// Sum of `g` over a concatenation splits into the two sums.
pub proof fn lemma_sum_g_concat(a: Seq<Sample>, b: Seq<Sample>)
    ensures
        sum_g(a + b) == sum_g(a) + sum_g(b),
    decreases b.len(),
{
    if b.len() == 0 {
        assert(a + b =~= a);
    } else {
        lemma_sum_g_concat(a, b.drop_last());
        assert((a + b).drop_last() =~= a + b.drop_last());
        assert((a + b).last() == b.last());
    }
}

/// Sum of `g` over a prefix extended by one sample.
pub proof fn lemma_sum_g_push(a: Seq<Sample>, x: Sample)
    ensures
        sum_g(a.push(x)) == sum_g(a) + x.g,
{
    assert(a.push(x).drop_last() =~= a);
}

/// Each `g` is bounded by the total when all of them are non-negative.
pub proof fn lemma_sum_g_bounds(s: Seq<Sample>, i: int)
    requires
        gs_positive(s),
        0 <= i < s.len(),
    ensures
        s[i].g <= sum_g(s),
        sum_g(s) >= s.len(),
    decreases s.len(),
{
    if s.len() > 0 {
        if i < s.len() - 1 {
            lemma_sum_g_bounds(s.drop_last(), i);
        } else if s.len() >= 2 {
            lemma_sum_g_bounds(s.drop_last(), 0);
        }
    }
}

/// The total `g` is non-negative.
pub proof fn lemma_sum_g_nonneg(s: Seq<Sample>)
    requires
        gs_positive(s),
    ensures
        sum_g(s) >= s.len(),
    decreases s.len(),
{
    if s.len() > 0 {
        lemma_sum_g_nonneg(s.drop_last());
    }
}

/// Sum of `g` over a prefix is bounded by the sum over the whole sequence.
pub proof fn lemma_sum_g_take(s: Seq<Sample>, k: int)
    requires
        gs_positive(s),
        0 <= k <= s.len(),
    ensures
        sum_g(s.take(k)) <= sum_g(s) - (s.len() - k),
        sum_g(s.take(k)) >= k,
    decreases s.len() - k,
{
    if k == s.len() {
        assert(s.take(k) =~= s);
        lemma_sum_g_nonneg(s);
    } else {
        lemma_sum_g_take(s, k + 1);
        assert(s.take(k + 1).drop_last() =~= s.take(k));
        assert(s.take(k + 1).last() == s[k]);
        lemma_sum_g_nonneg(s.take(k));
    }
}

/// Number of stream values strictly below `v`.
pub open spec fn count_lt(vs: Seq<i64>, v: i64) -> int
    decreases vs.len(),
{
    if vs.len() == 0 {
        0
    } else {
        count_lt(vs.drop_last(), v) + if vs.last() < v {
            1int
        } else {
            0int
        }
    }
}

/// Number of stream values at most `v`.
pub open spec fn count_le(vs: Seq<i64>, v: i64) -> int
    decreases vs.len(),
{
    if vs.len() == 0 {
        0
    } else {
        count_le(vs.drop_last(), v) + if vs.last() <= v {
            1int
        } else {
            0int
        }
    }
}

/// Appending one value shifts the counts by at most one.
pub proof fn lemma_count_push(vs: Seq<i64>, v: i64, w: i64)
    ensures
        count_lt(vs.push(v), w) == count_lt(vs, w) + if v < w {
            1int
        } else {
            0int
        },
        count_le(vs.push(v), w) == count_le(vs, w) + if v <= w {
            1int
        } else {
            0int
        },
{
    assert(vs.push(v).drop_last() =~= vs);
}

/// Counts are monotone in the probed value and bounded by the stream length.
pub proof fn lemma_count_bounds(vs: Seq<i64>, v: i64, w: i64)
    requires
        v <= w,
    ensures
        0 <= count_lt(vs, v) <= count_lt(vs, w) <= vs.len(),
        0 <= count_le(vs, v) <= count_le(vs, w) <= vs.len(),
        count_lt(vs, v) <= count_le(vs, v),
    decreases vs.len(),
{
    if vs.len() > 0 {
        lemma_count_bounds(vs.drop_last(), v, w);
    }
}

/// The rank envelope, up to `slack`: every sample's claimed rank range,
/// widened by `slack` on each side, covers the true rank range of its value
/// in the stream. A sample at position `i` claims ranks
/// `[min_rank, min_rank + delta]`; the true rank of its value is any of
/// `[count_lt + 1, count_le]`.
pub open spec fn envelope_within(s: Seq<Sample>, vs: Seq<i64>, slack: int) -> bool {
    forall|i: int|
        0 <= i < s.len() ==> sum_g(s.take(i + 1)) <= count_le(vs, (#[trigger] s[i]).value) + slack
            && count_lt(vs, s[i].value) <= sum_g(s.take(i + 1)) + s[i].delta - 1 + slack
}

/// The exact rank envelope: the claimed ranges themselves cover the true
/// rank ranges, with no slack.
pub open spec fn envelope(s: Seq<Sample>, vs: Seq<i64>) -> bool {
    envelope_within(s, vs, 0)
}

/// Counting over a concatenated stream adds the counts of the parts.
pub proof fn lemma_count_concat(va: Seq<i64>, vb: Seq<i64>, v: i64)
    ensures
        count_lt(va + vb, v) == count_lt(va, v) + count_lt(vb, v),
        count_le(va + vb, v) == count_le(va, v) + count_le(vb, v),
    decreases vb.len(),
{
    if vb.len() == 0 {
        assert(va + vb =~= va);
    } else {
        lemma_count_concat(va, vb.drop_last(), v);
        assert((va + vb).drop_last() =~= va + vb.drop_last());
        assert((va + vb).last() == vb.last());
    }
}

} // verus!
