//! The sample triple of the baseline summary, with a cached band value.

use vstd::prelude::*;

verus! {

/// One retained element of the stream together with its rank envelope.
/// Ordering considers only `value`; `band` is a cached classification of
/// `delta` that is not guaranteed to be up to date.
#[derive(Clone, Copy, Debug, PartialEq, Eq, Structural)]
pub struct Sample {
    pub value: i64,
    pub g: u64,
    pub delta: u64,
    /// Cached band of `delta`, updated before each compression
    pub band: u64,
}

impl Sample {
    /// A sample for a value just seen, with the given rank uncertainty.
    pub fn new(value: i64, delta: u64) -> (s: Sample)
        ensures
            s == (Sample { value, g: 1, delta, band: 0 }),
    {
        Sample { value, g: 1, delta, band: 0 }
    }
}

/// Total count of stream values represented by the samples.
pub open spec fn sum_g(s: Seq<Sample>) -> int
    decreases s.len(),
{
    if s.len() == 0 {
        0
    } else {
        sum_g(s.drop_last()) + s.last().g
    }
}

/// The samples are sorted by value, non-decreasing.
pub open spec fn sorted_values(s: Seq<Sample>) -> bool {
    forall|i: int, j: int| 0 <= i <= j < s.len() ==> s[i].value <= s[j].value
}

/// Every sample represents at least one stream value.
pub open spec fn gs_positive(s: Seq<Sample>) -> bool {
    forall|i: int| 0 <= i < s.len() ==> s[i].g >= 1
}

/// Every rank uncertainty stays within `cap`.
pub open spec fn deltas_within(s: Seq<Sample>, cap: int) -> bool {
    forall|i: int| 0 <= i < s.len() ==> s[i].delta <= cap
}

/// Sum of `g` over a concatenation splits into the two sums.
pub proof fn lemma_sum_g_concat(a: Seq<Sample>, b: Seq<Sample>)
    ensures
        sum_g(a + b) == sum_g(a) + sum_g(b),
    decreases b.len(),
{
    if b.len() == 0 {
        assert(a + b =~= a);
    } else {
        lemma_sum_g_concat(a, b.drop_last());
        assert((a + b).drop_last() =~= a + b.drop_last());
        assert((a + b).last() == b.last());
    }
}

/// Sum of `g` over a prefix extended by one sample.
pub proof fn lemma_sum_g_push(a: Seq<Sample>, x: Sample)
    ensures
        sum_g(a.push(x)) == sum_g(a) + x.g,
{
    assert(a.push(x).drop_last() =~= a);
}

/// Each `g` is bounded by the total when all of them are positive.
pub proof fn lemma_sum_g_each(s: Seq<Sample>, i: int)
    requires
        gs_positive(s),
        0 <= i < s.len(),
    ensures
        s[i].g <= sum_g(s),
        sum_g(s) >= s.len(),
    decreases s.len(),
{
    let d = s.drop_last();
    assert(forall|j: int| 0 <= j < d.len() ==> d[j] == s[j]);
    if i < s.len() - 1 {
        lemma_sum_g_each(d, i);
    } else {
        lemma_sum_g_least(d);
    }
}

/// The total `g` is at least the number of samples.
pub proof fn lemma_sum_g_least(s: Seq<Sample>)
    requires
        gs_positive(s),
    ensures
        sum_g(s) >= s.len(),
    decreases s.len(),
{
    if s.len() > 0 {
        lemma_sum_g_least(s.drop_last());
    }
}

/// Sum of `g` over a prefix.
pub proof fn lemma_sum_g_prefix(s: Seq<Sample>, k: int)
    requires
        gs_positive(s),
        0 <= k <= s.len(),
    ensures
        sum_g(s.take(k)) <= sum_g(s) - (s.len() - k),
        sum_g(s.take(k)) >= k,
    decreases s.len() - k,
{
    if k == s.len() {
        assert(s.take(k) =~= s);
        lemma_sum_g_least(s);
    } else {
        lemma_sum_g_prefix(s, k + 1);
        assert(s.take(k + 1).drop_last() =~= s.take(k));
        assert(s.take(k + 1).last() == s[k]);
        lemma_sum_g_least(s.take(k));
    }
}

} // verus!
