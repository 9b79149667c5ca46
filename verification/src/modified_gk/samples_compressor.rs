//! Streaming compression of a sorted sample sequence.
//!
//! The compressor consumes samples in ascending value order and collapses
//! runs whose combined `g` plus the right end's `delta` stay within the
//! capacity, while always committing the minimum and the maximum raw.

use vstd::prelude::*;

use crate::modified_gk::sample::{
    cap_bound, count_le, count_lt, ends_exact, envelope_within, gs_positive, sorted_values, sum_g,
    Sample,
};

verus! {

/// The state (committed output, pending block tail) that the compressor holds
/// after the samples `pushed` went in, under capacity `cap`.
pub open spec fn comp_state(pushed: Seq<Sample>, cap: u64) -> (Seq<Sample>, Option<Sample>)
    decreases pushed.len(),
{
    if pushed.len() == 0 {
        (Seq::<Sample>::empty(), None::<Sample>)
    } else {
        let prev = comp_state(pushed.drop_last(), cap);
        let out = prev.0;
        let s = pushed.last();
        match prev.1 {
            Some(tl) => {
                if tl.g + s.g + s.delta <= cap {
                    (out, Some(Sample { value: s.value, g: (tl.g + s.g) as u64, delta: s.delta }))
                } else {
                    (out.push(tl), Some(s))
                }
            },
            None => {
                if out.len() == 0 {
                    (out.push(s), None::<Sample>)
                } else {
                    (out, Some(s))
                }
            },
        }
    }
}

/// What the compressor hands back for the input `pushed`: the committed
/// output with the pending tail committed last.
pub open spec fn compressed(pushed: Seq<Sample>, cap: u64) -> Seq<Sample> {
    let state = comp_state(pushed, cap);
    match state.1 {
        Some(tl) => state.0.push(tl),
        None => state.0,
    }
}

/// The `g` count still held in the pending tail.
pub open spec fn tail_g(t: Option<Sample>) -> int {
    match t {
        Some(tl) => tl.g as int,
        None => 0,
    }
}

/// Structural facts about the compressor state, proved by induction over the
/// pushed sequence: the total `g` is preserved, the first pushed sample is
/// committed raw, the tail mirrors the value and `delta` of the last pushed
/// sample, ordering is preserved, and `g` stays positive.
pub proof fn lemma_comp_basic(pushed: Seq<Sample>, cap: u64)
    ensures
        sum_g(comp_state(pushed, cap).0) + tail_g(comp_state(pushed, cap).1) == sum_g(pushed),
        pushed.len() == 0 ==> comp_state(pushed, cap).0.len() == 0 && comp_state(
            pushed,
            cap,
        ).1 is None,
        pushed.len() == 1 ==> comp_state(pushed, cap).0 =~= pushed && comp_state(
            pushed,
            cap,
        ).1 is None,
        pushed.len() >= 2 ==> comp_state(pushed, cap).1 is Some,
        pushed.len() >= 1 ==> comp_state(pushed, cap).0.len() >= 1 && comp_state(pushed, cap).0[0]
            == pushed[0],
        comp_state(pushed, cap).1 is Some ==> comp_state(pushed, cap).1->0.value
            == pushed.last().value && comp_state(pushed, cap).1->0.delta == pushed.last().delta
            && pushed.last().g <= comp_state(pushed, cap).1->0.g,
        sorted_values(pushed) ==> sorted_values(compressed(pushed, cap)),
        gs_positive(pushed) ==> gs_positive(compressed(pushed, cap)),
        compressed(pushed, cap).len() <= pushed.len(),
        pushed.len() >= 1 ==> compressed(pushed, cap).len() >= 1 && compressed(pushed, cap)[0]
            == pushed[0] && compressed(pushed, cap).last().value == pushed.last().value
            && compressed(pushed, cap).last().delta == pushed.last().delta,
    decreases pushed.len(),
{
    if pushed.len() == 0 {
    } else {
        let p = pushed.drop_last();
        lemma_comp_basic(p, cap);
        let prev = comp_state(p, cap);
        let s = pushed.last();
        let cur = comp_state(pushed, cap);
        assert(sum_g(pushed) == sum_g(p) + s.g) by {
            assert(pushed.drop_last() =~= p);
        }
        if p.len() >= 1 {
            assert(pushed[0] == p[0]);
            if sorted_values(pushed) {
                assert(sorted_values(p)) by {
                    assert(forall|i: int, j: int|
                        0 <= i <= j < p.len() ==> p[i].value == pushed[i].value && p[j].value
                            == pushed[j].value);
                }
            }
            if gs_positive(pushed) {
                assert(gs_positive(p)) by {
                    assert(forall|i: int| 0 <= i < p.len() ==> p[i] == pushed[i]);
                }
            }
        }
        match prev.1 {
            Some(tl) => {
                if tl.g + s.g + s.delta <= cap {
                    let nt = Sample { value: s.value, g: (tl.g + s.g) as u64, delta: s.delta };
                    assert(cur.0 == prev.0 && cur.1 == Some(nt));
                    assert(sum_g(cur.0) + tail_g(cur.1) == sum_g(pushed));
                    if sorted_values(pushed) {
                        let co = compressed(p, cap);
                        let cn = compressed(pushed, cap);
                        assert(co =~= prev.0.push(tl));
                        assert(cn =~= prev.0.push(nt));
                        assert(tl.value == p.last().value <= s.value);
                        assert forall|i: int, j: int|
                            0 <= i <= j < cn.len() implies cn[i].value <= cn[j].value by {
                            if j < prev.0.len() {
                                assert(cn[i] == co[i] && cn[j] == co[j]);
                            } else if i < j {
                                assert(cn[i] == co[i]);
                                assert(co[i].value <= co[j].value);
                                assert(co[j] == tl);
                            }
                        }
                    }
                    if gs_positive(pushed) {
                        assert(gs_positive(compressed(pushed, cap))) by {
                            let co = compressed(p, cap);
                            let cn = compressed(pushed, cap);
                            assert(cn =~= prev.0.push(nt));
                            assert(co =~= prev.0.push(tl));
                            assert(forall|i: int| 0 <= i < prev.0.len() ==> cn[i] == co[i]);
                            assert(s.g >= 1);
                        }
                    }
                } else {
                    assert(cur.0 == prev.0.push(tl) && cur.1 == Some(s));
                    assert(sum_g(cur.0) == sum_g(prev.0) + tl.g) by {
                        crate::modified_gk::sample::lemma_sum_g_push(prev.0, tl);
                    }
                    assert(compressed(pushed, cap) =~= compressed(p, cap).push(s));
                    if sorted_values(pushed) {
                        let co = compressed(p, cap);
                        assert(co.last().value == p.last().value <= s.value);
                        assert forall|i: int| 0 <= i < co.len() implies co[i].value <= s.value by {
                            assert(co[i].value <= co[co.len() - 1].value);
                        }
                    }
                }
            },
            None => {
                if prev.0.len() == 0 {
                    assert(p.len() == 0);
                    assert(cur.0 =~= seq![s]);
                    assert(sum_g(cur.0) == s.g) by {
                        assert(cur.0.drop_last() =~= Seq::<Sample>::empty());
                    }
                } else {
                    assert(p.len() == 1);
                    assert(cur.0 == prev.0 && cur.1 == Some(s));
                    assert(compressed(pushed, cap) =~= prev.0.push(s));
                }
            },
        }
    }
}

/// Every sample the compressor emits keeps `g + delta` within `bound`,
/// provided every pushed sample did and the capacity is within `bound`:
/// absorption is only performed when the combined sample stays within the
/// capacity, and all other samples pass through unchanged.
pub proof fn lemma_comp_bound(pushed: Seq<Sample>, cap: u64, bound: int)
    requires
        cap <= bound,
        forall|i: int| 0 <= i < pushed.len() ==> pushed[i].g + pushed[i].delta <= bound,
    ensures
        forall|i: int|
            0 <= i < compressed(pushed, cap).len() ==> compressed(pushed, cap)[i].g + compressed(
                pushed,
                cap,
            )[i].delta <= bound,
        tail_g(comp_state(pushed, cap).1) <= bound,
    decreases pushed.len(),
{
    if pushed.len() == 0 {
    } else {
        let p = pushed.drop_last();
        assert(forall|i: int| 0 <= i < p.len() ==> p[i] == pushed[i]);
        lemma_comp_bound(p, cap, bound);
        let prev = comp_state(p, cap);
        let s = pushed.last();
        let cur = comp_state(pushed, cap);
        assert(s.g + s.delta <= bound);
        match prev.1 {
            Some(tl) => {
                assert(compressed(p, cap) =~= prev.0.push(tl));
                assert(forall|i: int|
                    0 <= i < prev.0.len() ==> prev.0[i].g + prev.0[i].delta <= bound) by {
                    assert(forall|i: int|
                        0 <= i < prev.0.len() ==> prev.0[i] == compressed(p, cap)[i]);
                }
                if tl.g + s.g + s.delta <= cap {
                    let nt = Sample { value: s.value, g: (tl.g + s.g) as u64, delta: s.delta };
                    assert(compressed(pushed, cap) =~= prev.0.push(nt));
                } else {
                    assert(compressed(pushed, cap) =~= prev.0.push(tl).push(s));
                }
            },
            None => {
                if prev.0.len() == 0 {
                    assert(compressed(pushed, cap) =~= seq![s]);
                } else {
                    assert(compressed(pushed, cap) =~= prev.0.push(s));
                    assert(forall|i: int|
                        0 <= i < prev.0.len() ==> prev.0[i] == compressed(p, cap)[i]);
                }
            },
        }
    }
}

/// Well-formedness of the compressor output, derived from the two inductive
/// lemmas: the output of a compression pass over a well-formed sample
/// sequence is well-formed at any capacity at least `cap`, keeps the total
/// `g` and the extreme values, and is no longer than its input.
pub proof fn lemma_compressed_wf(pushed: Seq<Sample>, cap: u64, cap2: int)
    requires
        crate::modified_gk::sample::wf_samples(pushed, cap2),
        cap <= cap_bound(cap2),
    ensures
        crate::modified_gk::sample::wf_samples(compressed(pushed, cap), cap2),
        sum_g(compressed(pushed, cap)) == sum_g(pushed),
        compressed(pushed, cap).len() <= pushed.len(),
        pushed.len() == 0 ==> compressed(pushed, cap).len() == 0,
        pushed.len() >= 1 ==> compressed(pushed, cap).len() >= 1 && compressed(pushed, cap)[0]
            == pushed[0] && compressed(pushed, cap).last().value == pushed.last().value,
{
    lemma_comp_basic(pushed, cap);
    lemma_comp_bound(pushed, cap, cap_bound(cap2));
    let st = comp_state(pushed, cap);
    match st.1 {
        Some(tl) => {
            crate::modified_gk::sample::lemma_sum_g_push(st.0, tl);
        },
        None => {},
    }
    let c = compressed(pushed, cap);
    if pushed.len() >= 1 {
        assert(ends_exact(c)) by {
            assert(c[0] == pushed[0]);
            assert(c.last().delta == pushed.last().delta);
        }
    }
}

/// Each emitted sample corresponds to one pushed sample: it carries the same
/// value and `delta` and claims the same minimum rank, since absorption only
/// moves `g` weight between neighbours.
pub proof fn lemma_comp_correspond(pushed: Seq<Sample>, cap: u64)
    ensures
        forall|k: int|
            0 <= k < compressed(pushed, cap).len() ==> exists|j: int|
                0 <= j < pushed.len() && (#[trigger] compressed(pushed, cap)[k]).value == pushed[
                    j
                ].value && compressed(pushed, cap)[k].delta == pushed[j].delta && sum_g(
                    compressed(pushed, cap).take(k + 1),
                ) == sum_g(pushed.take(j + 1)),
    decreases pushed.len(),
{
    if pushed.len() == 0 {
    } else {
        let p = pushed.drop_last();
        lemma_comp_correspond(p, cap);
        lemma_comp_basic(p, cap);
        lemma_comp_basic(pushed, cap);
        let prev = comp_state(p, cap);
        let st = comp_state(pushed, cap);
        let s = pushed.last();
        let co = compressed(p, cap);
        let cn = compressed(pushed, cap);
        assert(pushed.take(pushed.len() as int) =~= pushed);
        assert(forall|j: int| 0 <= j <= p.len() ==> pushed.take(j) =~= p.take(j));
        assert(sum_g(pushed) == sum_g(p) + s.g) by {
            assert(pushed.drop_last() =~= p);
        }
        assert forall|k: int| 0 <= k < cn.len() implies exists|j: int|
            0 <= j < pushed.len() && (#[trigger] cn[k]).value == pushed[j].value && cn[k].delta
                == pushed[j].delta && sum_g(cn.take(k + 1)) == sum_g(pushed.take(j + 1)) by {
            match prev.1 {
                Some(tl) => {
                    if tl.g + s.g + s.delta <= cap {
                        let nt = Sample {
                            value: s.value,
                            g: (tl.g + s.g) as u64,
                            delta: s.delta,
                        };
                        assert(co =~= prev.0.push(tl));
                        assert(cn =~= prev.0.push(nt));
                        if k < prev.0.len() {
                            assert(cn.take(k + 1) =~= co.take(k + 1));
                            assert(cn[k] == co[k]);
                            let j = choose|j: int|
                                0 <= j < p.len() && (#[trigger] co[k]).value == p[j].value && co[
                                    k
                                ].delta == p[j].delta && sum_g(co.take(k + 1)) == sum_g(
                                    p.take(j + 1),
                                );
                            assert(pushed[j] == p[j] && pushed.take(j + 1) =~= p.take(j + 1));
                        } else {
                            let j = pushed.len() - 1;
                            assert(cn[k] == nt);
                            assert(cn.take(k + 1) =~= cn);
                            crate::modified_gk::sample::lemma_sum_g_push(prev.0, nt);
                            assert(sum_g(cn) == sum_g(prev.0) + tl.g + s.g && sum_g(prev.0) + tl.g + s.g == sum_g(pushed));
                        }
                    } else {
                        assert(co =~= prev.0.push(tl));
                        assert(cn =~= prev.0.push(tl).push(s));
                        if k < co.len() {
                            assert(cn.take(k + 1) =~= co.take(k + 1));
                            assert(cn[k] == co[k]);
                            let j = choose|j: int|
                                0 <= j < p.len() && (#[trigger] co[k]).value == p[j].value && co[
                                    k
                                ].delta == p[j].delta && sum_g(co.take(k + 1)) == sum_g(
                                    p.take(j + 1),
                                );
                            assert(pushed[j] == p[j] && pushed.take(j + 1) =~= p.take(j + 1));
                        } else {
                            let j = pushed.len() - 1;
                            assert(cn[k] == s);
                            assert(cn.take(k + 1) =~= cn);
                            crate::modified_gk::sample::lemma_sum_g_push(co, s);
                            assert(sum_g(co) == sum_g(prev.0) + tl.g && sum_g(prev.0) + tl.g == sum_g(p)) by {
                                crate::modified_gk::sample::lemma_sum_g_push(prev.0, tl);
                            }
                            assert(sum_g(cn) == sum_g(pushed));
                        }
                    }
                },
                None => {
                    if prev.0.len() == 0 {
                        assert(p.len() == 0);
                        assert(cn =~= seq![s]);
                        let j = pushed.len() - 1;
                        assert(cn[0] == s);
                        assert(cn.take(1) =~= cn);
                        assert(cn.drop_last() =~= Seq::<Sample>::empty());
                        assert(sum_g(Seq::<Sample>::empty()) == 0);
                        assert(sum_g(cn) == s.g && s.g == sum_g(pushed));
                    } else {
                        assert(p.len() == 1);
                        assert(prev.0 =~= p);
                        assert(cn =~= p.push(s));
                        if k == 0 {
                            assert(cn[0] == p[0] && p[0] == pushed[0]);
                            assert(cn.take(1) =~= pushed.take(1));
                        } else {
                            let j = pushed.len() - 1;
                            assert(cn[k] == s);
                            assert(cn.take(k + 1) =~= cn);
                            crate::modified_gk::sample::lemma_sum_g_push(p, s);
                            assert(sum_g(cn) == sum_g(pushed));
                        }
                    }
                },
            }
        }
    }
}

/// Compression preserves the rank envelope at any slack: every surviving
/// sample keeps the value, the `delta` and the minimum rank it had before
/// the pass.
pub proof fn lemma_compressed_envelope(pushed: Seq<Sample>, cap: u64, vs: Seq<i64>, slack: int)
    requires
        envelope_within(pushed, vs, slack),
    ensures
        envelope_within(compressed(pushed, cap), vs, slack),
{
    lemma_comp_correspond(pushed, cap);
    let c = compressed(pushed, cap);
    assert forall|k: int| 0 <= k < c.len() implies sum_g(c.take(k + 1)) <= count_le(
        vs,
        (#[trigger] c[k]).value,
    ) + slack && count_lt(vs, c[k].value) <= sum_g(c.take(k + 1)) + c[k].delta - 1 + slack by {
        let j = choose|j: int|
            0 <= j < pushed.len() && (#[trigger] c[k]).value == pushed[j].value && c[k].delta
                == pushed[j].delta && sum_g(c.take(k + 1)) == sum_g(pushed.take(j + 1));
        assert(sum_g(pushed.take(j + 1)) <= count_le(vs, pushed[j].value) + slack);
        assert(count_lt(vs, pushed[j].value) <= sum_g(pushed.take(j + 1)) + pushed[j].delta - 1
            + slack);
    }
}

/// A compression pass over fewer than three samples is a no-op: the minimum
/// and the maximum are always kept raw.
pub proof fn lemma_compress_small(s: Seq<Sample>, cap: u64)
    requires
        s.len() <= 2,
    ensures
        compressed(s, cap) == s,
{
    lemma_comp_basic(s, cap);
    if s.len() == 0 {
        assert(compressed(s, cap) =~= s);
    } else if s.len() == 1 {
        assert(compressed(s, cap) =~= s);
    } else {
        let st = comp_state(s, cap);
        lemma_comp_basic(s.drop_last(), cap);
        assert(comp_state(s.drop_last(), cap).0 =~= s.drop_last());
        assert(st.0 == s.drop_last() && st.1 == Some(s.last()));
        assert(compressed(s, cap) =~= s);
    }
}

/// Compresses samples as they are pushed, in ascending value order.
pub struct SamplesCompressor {
    max_g_delta: u64,
    compressed_samples: Vec<Sample>,
    block_tail: Option<Sample>,
    pushed: Ghost<Seq<Sample>>,
}

impl SamplesCompressor {
    /// The capacity this compressor was created with.
    pub closed spec fn cap(self) -> u64 {
        self.max_g_delta
    }

    /// All samples pushed so far, in order.
    pub closed spec fn pushed_seq(self) -> Seq<Sample> {
        self.pushed@
    }

    /// The executable state agrees with the functional model.
    pub closed spec fn wf(self) -> bool {
        comp_state(self.pushed@, self.max_g_delta) == (self.compressed_samples@, self.block_tail)
    }

    /// Create a compressor for the capacity `max_g_delta = floor(2 * eps * n)`.
    pub fn new(max_g_delta: u64) -> (c: SamplesCompressor)
        ensures
            c.wf(),
            c.cap() == max_g_delta,
            c.pushed_seq() =~= Seq::<Sample>::empty(),
    {
        SamplesCompressor {
            max_g_delta,
            compressed_samples: Vec::new(),
            block_tail: None,
            pushed: Ghost(Seq::empty()),
        }
    }

    /// Feed the next sample. Values must arrive in ascending order for the
    /// output to be meaningful; the state transition itself is defined for
    /// any input.
    pub fn push(&mut self, sample: Sample)
        requires
            old(self).wf(),
        ensures
            final(self).wf(),
            final(self).pushed_seq() == old(self).pushed_seq().push(sample),
            final(self).cap() == old(self).cap(),
    {
        proof {
            assert(self.pushed@.push(sample).drop_last() =~= self.pushed@);
            assert(self.pushed@.push(sample).last() == sample);
        }
        let tail = self.block_tail;
        self.block_tail = None;
        match tail {
            Some(tail_sample) => {
                let total: u128 = tail_sample.g as u128 + sample.g as u128 + sample.delta as u128;
                if total <= self.max_g_delta as u128 {
                    // Absorb the tail into the incoming sample
                    let merged = Sample {
                        value: sample.value,
                        g: tail_sample.g + sample.g,
                        delta: sample.delta,
                    };
                    self.block_tail = Some(merged);
                } else {
                    // Commit the previous block and start a new one
                    self.compressed_samples.push(tail_sample);
                    self.block_tail = Some(sample);
                }
            },
            None => {
                if self.compressed_samples.len() == 0 {
                    // Commit the minimum raw
                    self.compressed_samples.push(sample);
                } else {
                    // Start the first block
                    self.block_tail = Some(sample);
                }
            },
        }
        proof {
            self.pushed@ = self.pushed@.push(sample);
        }
    }

    /// Commit the pending tail and return the compressed sequence.
    pub fn into_samples(self) -> (r: Vec<Sample>)
        requires
            self.wf(),
        ensures
            r@ == compressed(self.pushed_seq(), self.cap()),
    {
        let SamplesCompressor { max_g_delta: _, mut compressed_samples, block_tail, pushed: _ } =
            self;
        if let Some(tail_sample) = block_tail {
            compressed_samples.push(tail_sample);
        }
        compressed_samples
    }
}

} // verus!
