//! Peekable cursor over one sorted sample stream during a merge, tracking the
//! residual `delta` contribution that the other stream must account for.

use vstd::prelude::*;

use crate::modified_gk::sample::{
    count_le, count_lt, gs_positive, lemma_count_bounds, sorted_values, sum_g, Sample,
};
use crate::modified_gk::samples_compressor::SamplesCompressor;

verus! {

/// The larger of two integers.
pub open spec fn max_of(a: int, b: int) -> int {
    if a >= b {
        a
    } else {
        b
    }
}

/// The residual after a sample is popped: the worst-case maximum-rank
/// contribution the other stream must absorb, `max(r, delta + g - 1)`.
pub open spec fn residual_after(r: int, s: Sample) -> int {
    max_of(r, s.delta + s.g - 1)
}

/// A popped sample with the other stream's current residual added to its
/// `delta`.
pub open spec fn bump(s: Sample, r: int) -> Sample {
    Sample { value: s.value, g: s.g, delta: (s.delta + r) as u64 }
}

/// The sample stream produced by merging the two sorted streams `a` and `b`,
/// with current residuals `ra` (from `a`'s popped samples) and `rb` (from
/// `b`'s): the smaller head is popped, bumped by the other side's residual,
/// and once one side is drained the rest of the other passes unchanged.
pub open spec fn merge_seqs(a: Seq<Sample>, b: Seq<Sample>, ra: int, rb: int) -> Seq<Sample>
    decreases a.len() + b.len(),
{
    if a.len() == 0 {
        b
    } else if b.len() == 0 {
        a
    } else if a[0].value < b[0].value {
        seq![bump(a[0], rb)] + merge_seqs(a.drop_first(), b, residual_after(ra, a[0]), rb)
    } else {
        seq![bump(b[0], ra)] + merge_seqs(a, b.drop_first(), ra, residual_after(rb, b[0]))
    }
}

/// Merging into an empty stream passes the other stream through unchanged:
/// a summary with no samples takes over the other's samples as they are, up
/// to the compression pass at the new capacity.
pub proof fn lemma_merge_empty_left(b: Seq<Sample>)
    ensures
        merge_seqs(Seq::<Sample>::empty(), b, 0, 0) == b,
{
}

/// Merging preserves the total `g`, produces one sample per input sample,
/// and keeps every `g` positive.
pub proof fn lemma_merge_len_sum(a: Seq<Sample>, b: Seq<Sample>, ra: int, rb: int)
    ensures
        merge_seqs(a, b, ra, rb).len() == a.len() + b.len(),
        sum_g(merge_seqs(a, b, ra, rb)) == sum_g(a) + sum_g(b),
        gs_positive(a) && gs_positive(b) ==> gs_positive(merge_seqs(a, b, ra, rb)),
    decreases a.len() + b.len(),
{
    let m = merge_seqs(a, b, ra, rb);
    if a.len() == 0 || b.len() == 0 {
    } else if a[0].value < b[0].value {
        let m2 = merge_seqs(a.drop_first(), b, residual_after(ra, a[0]), rb);
        lemma_merge_len_sum(a.drop_first(), b, residual_after(ra, a[0]), rb);
        lemma_sum_g_cons(bump(a[0], rb), m2);
        lemma_sum_g_cons(a[0], a.drop_first());
        assert(a =~= seq![a[0]] + a.drop_first());
        if gs_positive(a) && gs_positive(b) {
            assert(gs_positive(a.drop_first())) by {
                assert(forall|i: int|
                    0 <= i < a.drop_first().len() ==> a.drop_first()[i] == a[i + 1]);
            }
            assert(forall|i: int| 1 <= i < m.len() ==> m[i] == m2[i - 1]);
        }
    } else {
        let m2 = merge_seqs(a, b.drop_first(), ra, residual_after(rb, b[0]));
        lemma_merge_len_sum(a, b.drop_first(), ra, residual_after(rb, b[0]));
        lemma_sum_g_cons(bump(b[0], ra), m2);
        lemma_sum_g_cons(b[0], b.drop_first());
        assert(b =~= seq![b[0]] + b.drop_first());
        if gs_positive(a) && gs_positive(b) {
            assert(gs_positive(b.drop_first())) by {
                assert(forall|i: int|
                    0 <= i < b.drop_first().len() ==> b.drop_first()[i] == b[i + 1]);
            }
            assert(forall|i: int| 1 <= i < m.len() ==> m[i] == m2[i - 1]);
        }
    }
}

/// `sum_g` of a sequence with one sample prepended.
proof fn lemma_sum_g_cons(x: Sample, s: Seq<Sample>)
    ensures
        sum_g(seq![x] + s) == x.g + sum_g(s),
    decreases s.len(),
{
    if s.len() == 0 {
        assert(seq![x] + s =~= seq![x]);
        assert(seq![x].drop_last() =~= Seq::<Sample>::empty());
        assert(sum_g(Seq::<Sample>::empty()) == 0);
        assert(seq![x].last() == x);
    } else {
        lemma_sum_g_cons(x, s.drop_last());
        assert((seq![x] + s).drop_last() =~= seq![x] + s.drop_last());
        assert((seq![x] + s).last() == s.last());
    }
}

/// Merging two sorted streams gives a sorted stream whose first sample is the
/// smaller of the two heads bumped by the other residual, and whose last
/// sample is one of the two input lasts, carrying the largest value.
pub proof fn lemma_merge_sorted(a: Seq<Sample>, b: Seq<Sample>, ra: int, rb: int)
    requires
        sorted_values(a),
        sorted_values(b),
    ensures
        sorted_values(merge_seqs(a, b, ra, rb)),
        a.len() > 0 && b.len() > 0 ==> {
            let m = merge_seqs(a, b, ra, rb);
            &&& m[0].value == if a[0].value < b[0].value {
                a[0].value
            } else {
                b[0].value
            }
            &&& (m.last() == a.last() || m.last() == b.last())
            &&& m.last().value >= a.last().value
            &&& m.last().value >= b.last().value
        },
    decreases a.len() + b.len(),
{
    let m = merge_seqs(a, b, ra, rb);
    if a.len() == 0 || b.len() == 0 {
    } else {
        if a[0].value < b[0].value {
            let a2 = a.drop_first();
            assert(sorted_values(a2)) by {
                assert(forall|i: int| 0 <= i < a2.len() ==> a2[i] == a[i + 1]);
            }
            lemma_merge_sorted(a2, b, residual_after(ra, a[0]), rb);
            let m2 = merge_seqs(a2, b, residual_after(ra, a[0]), rb);
            assert(m =~= seq![bump(a[0], rb)] + m2);
            assert(forall|i: int| 1 <= i < m.len() ==> m[i] == m2[i - 1]);
            assert(m2.len() > 0);
            // The head is no larger than anything in the rest of the merge
            assert(m2[0].value >= a[0].value) by {
                if a2.len() > 0 {
                    assert(a2[0] == a[1]);
                }
            }
            assert forall|i: int, j: int| 0 <= i <= j < m.len() implies m[i].value
                <= m[j].value by {
                if i == 0 && j > 0 {
                    lemma_merge_head_min(a2, b, residual_after(ra, a[0]), rb, j - 1);
                    assert(m[j] == m2[j - 1]);
                }
            }
            if a.len() >= 2 {
                assert(a2.last() == a.last());
            } else {
                assert(m2 == b);
            }
        } else {
            let b2 = b.drop_first();
            assert(sorted_values(b2)) by {
                assert(forall|i: int| 0 <= i < b2.len() ==> b2[i] == b[i + 1]);
            }
            lemma_merge_sorted(a, b2, ra, residual_after(rb, b[0]));
            let m2 = merge_seqs(a, b2, ra, residual_after(rb, b[0]));
            assert(m =~= seq![bump(b[0], ra)] + m2);
            assert(forall|i: int| 1 <= i < m.len() ==> m[i] == m2[i - 1]);
            assert(m2.len() > 0);
            assert forall|i: int, j: int| 0 <= i <= j < m.len() implies m[i].value
                <= m[j].value by {
                if i == 0 && j > 0 {
                    lemma_merge_head_min(a, b2, ra, residual_after(rb, b[0]), j - 1);
                    assert(m[j] == m2[j - 1]);
                }
            }
            if b.len() >= 2 {
                assert(b2.last() == b.last());
            } else {
                assert(m2 == a);
            }
        }
    }
}

/// Every sample of a merge of sorted streams carries a value at least the
/// smaller of the two heads.
proof fn lemma_merge_head_min(a: Seq<Sample>, b: Seq<Sample>, ra: int, rb: int, j: int)
    requires
        sorted_values(a),
        sorted_values(b),
        0 <= j < merge_seqs(a, b, ra, rb).len(),
    ensures
        a.len() > 0 ==> merge_seqs(a, b, ra, rb)[j].value >= a[0].value || exists|k: int|
            0 <= k < b.len() && merge_seqs(a, b, ra, rb)[j].value == b[k].value,
        b.len() > 0 ==> merge_seqs(a, b, ra, rb)[j].value >= b[0].value || exists|k: int|
            0 <= k < a.len() && merge_seqs(a, b, ra, rb)[j].value == a[k].value,
        (a.len() > 0 && b.len() > 0 && a[0].value < b[0].value) ==> merge_seqs(a, b, ra, rb)[j].value
            >= a[0].value,
        (a.len() > 0 && b.len() > 0 && !(a[0].value < b[0].value)) ==> merge_seqs(a, b, ra, rb)[j].value
            >= b[0].value,
    decreases a.len() + b.len(),
{
    let m = merge_seqs(a, b, ra, rb);
    if a.len() == 0 || b.len() == 0 {
    } else if a[0].value < b[0].value {
        let a2 = a.drop_first();
        assert(sorted_values(a2)) by {
            assert(forall|i: int| 0 <= i < a2.len() ==> a2[i] == a[i + 1]);
        }
        if j > 0 {
            lemma_merge_head_min(a2, b, residual_after(ra, a[0]), rb, j - 1);
            let m2 = merge_seqs(a2, b, residual_after(ra, a[0]), rb);
            assert(m[j] == m2[j - 1]);
            if a2.len() > 0 {
                assert(a2[0] == a[1]);
                assert(a2[0].value >= a[0].value);
            }
            assert(forall|k: int| 0 <= k < a2.len() ==> a2[k] == a[k + 1]);
            assert(forall|k: int| 0 <= k < b.len() ==> #[trigger] b[k].value >= b[0].value && b[0].value > a[0].value);
        }
    } else {
        let b2 = b.drop_first();
        assert(sorted_values(b2)) by {
            assert(forall|i: int| 0 <= i < b2.len() ==> b2[i] == b[i + 1]);
        }
        if j > 0 {
            lemma_merge_head_min(a, b2, ra, residual_after(rb, b[0]), j - 1);
            let m2 = merge_seqs(a, b2, ra, residual_after(rb, b[0]));
            assert(m[j] == m2[j - 1]);
            if b2.len() > 0 {
                assert(b2[0] == b[1]);
            }
            assert(forall|k: int| 0 <= k < b2.len() ==> b2[k] == b[k + 1]);
            assert(forall|k: int| 0 <= k < a.len() ==> #[trigger] a[k].value >= a[0].value && a[0].value >= b[0].value);
        }
    }
}

/// Every merged sample keeps `g + delta` within `ba + bb - 1`, where `ba` and
/// `bb` bound the input samples and the residuals stay below their side's
/// bound.
pub proof fn lemma_merge_bound(a: Seq<Sample>, b: Seq<Sample>, ra: int, rb: int, ba: int, bb: int)
    requires
        ba >= 1,
        bb >= 1,
        0 <= ra <= ba - 1,
        0 <= rb <= bb - 1,
        forall|i: int| 0 <= i < a.len() ==> a[i].g + a[i].delta <= ba,
        forall|i: int| 0 <= i < b.len() ==> b[i].g + b[i].delta <= bb,
    ensures
        forall|i: int|
            0 <= i < merge_seqs(a, b, ra, rb).len() ==> merge_seqs(a, b, ra, rb)[i].g + merge_seqs(
                a,
                b,
                ra,
                rb,
            )[i].delta <= ba + bb - 1,
    decreases a.len() + b.len(),
{
    let m = merge_seqs(a, b, ra, rb);
    if a.len() == 0 || b.len() == 0 {
    } else if a[0].value < b[0].value {
        let a2 = a.drop_first();
        assert(forall|i: int| 0 <= i < a2.len() ==> a2[i] == a[i + 1]);
        lemma_merge_bound(a2, b, residual_after(ra, a[0]), rb, ba, bb);
        let m2 = merge_seqs(a2, b, residual_after(ra, a[0]), rb);
        assert(forall|i: int| 1 <= i < m.len() ==> m[i] == m2[i - 1]);
        assert(m[0] == bump(a[0], rb));
    } else {
        let b2 = b.drop_first();
        assert(forall|i: int| 0 <= i < b2.len() ==> b2[i] == b[i + 1]);
        lemma_merge_bound(a, b2, ra, residual_after(rb, b[0]), ba, bb);
        let m2 = merge_seqs(a, b2, ra, residual_after(rb, b[0]));
        assert(forall|i: int| 1 <= i < m.len() ==> m[i] == m2[i - 1]);
        assert(m[0] == bump(b[0], ra));
    }
}

/// The sum of `g` over a prefix, seen through a leading sample.
proof fn lemma_sum_g_cons_take(h: Sample, m: Seq<Sample>, k: int)
    requires
        0 <= k <= m.len(),
    ensures
        sum_g((seq![h] + m).take(k + 1)) == h.g + sum_g(m.take(k)),
{
    assert((seq![h] + m).take(k + 1) =~= seq![h] + m.take(k));
    lemma_sum_g_cons(h, m.take(k));
}

/// The merged stream keeps the rank envelope of both inputs, widened by the
/// larger per-sample bound: every merged sample's claimed rank range,
/// offset by the `g` already consumed from each side, covers the true rank
/// range of its value in the combined stream up to
/// `ka + kb + max(ba, bb) - 1`.
///
/// The hypotheses carry the state of a partially consumed merge: `ga`/`gb`
/// are the `g` totals already consumed, each remaining head is at least
/// every consumed value of the other side (through the `count_le` floors),
/// and the residuals stay below their side's bound.
#[verifier::rlimit(100)]
pub proof fn lemma_merge_envelope(
    aa: Seq<Sample>,
    bb: Seq<Sample>,
    vsa: Seq<i64>,
    vsb: Seq<i64>,
    ga: int,
    gb: int,
    ka: int,
    kb: int,
    ba: int,
    bb_bound: int,
    ra: int,
    rb: int,
)
    requires
        sorted_values(aa),
        sorted_values(bb),
        ka >= 0,
        kb >= 0,
        1 <= ba <= 0x4000_0000_0000_0000,
        1 <= bb_bound <= 0x4000_0000_0000_0000,
        0 <= ra <= ba - 1,
        0 <= rb <= bb_bound - 1,
        forall|t: int| 0 <= t < aa.len() ==> (#[trigger] aa[t]).g + aa[t].delta <= ba,
        forall|t: int| 0 <= t < bb.len() ==> (#[trigger] bb[t]).g + bb[t].delta <= bb_bound,
        forall|t: int| 0 <= t < aa.len() ==> (#[trigger] aa[t]).g >= 1,
        forall|t: int| 0 <= t < bb.len() ==> (#[trigger] bb[t]).g >= 1,
        ga + sum_g(aa) == vsa.len(),
        gb + sum_g(bb) == vsb.len(),
        0 <= ga,
        0 <= gb,
        forall|t: int|
            0 <= t < aa.len() ==> ga + sum_g(aa.take(t + 1)) <= count_le(
                vsa,
                (#[trigger] aa[t]).value,
            ) + ka && count_lt(vsa, aa[t].value) <= ga + sum_g(aa.take(t + 1)) + aa[t].delta - 1
                + ka,
        forall|t: int|
            0 <= t < bb.len() ==> gb + sum_g(bb.take(t + 1)) <= count_le(
                vsb,
                (#[trigger] bb[t]).value,
            ) + kb && count_lt(vsb, bb[t].value) <= gb + sum_g(bb.take(t + 1)) + bb[t].delta - 1
                + kb,
        aa.len() > 0 ==> count_le(vsb, aa[0].value) >= gb - kb,
        bb.len() > 0 ==> count_le(vsa, bb[0].value) >= ga - ka,
    ensures
        ({
            let m = merge_seqs(aa, bb, ra, rb);
            let slack = ka + kb + max_of(ba, bb_bound) - 1;
            forall|k: int|
                0 <= k < m.len() ==> ga + gb + sum_g(m.take(k + 1)) <= count_le(
                    vsa,
                    (#[trigger] m[k]).value,
                ) + count_le(vsb, m[k].value) + slack && count_lt(vsa, m[k].value) + count_lt(
                    vsb,
                    m[k].value,
                ) <= ga + gb + sum_g(m.take(k + 1)) + m[k].delta - 1 + slack
        }),
    decreases aa.len() + bb.len(),
{
    let m = merge_seqs(aa, bb, ra, rb);
    let slack = ka + kb + max_of(ba, bb_bound) - 1;
    let off = ga + gb;
    if aa.len() == 0 {
        assert(m == bb);
        assert forall|k: int| 0 <= k < m.len() implies off + sum_g(m.take(k + 1)) <= count_le(
            vsa,
            (#[trigger] m[k]).value,
        ) + count_le(vsb, m[k].value) + slack && count_lt(vsa, m[k].value) + count_lt(
            vsb,
            m[k].value,
        ) <= off + sum_g(m.take(k + 1)) + m[k].delta - 1 + slack by {
            let v = bb[k].value;
            assert(bb[0].value <= v);
            lemma_count_bounds(vsa, bb[0].value, v);
            lemma_count_bounds(vsa, v, v);
            lemma_sum_g_nonneg_all(bb, k);
        }
    } else if bb.len() == 0 {
        assert(m == aa);
        assert forall|k: int| 0 <= k < m.len() implies off + sum_g(m.take(k + 1)) <= count_le(
            vsa,
            (#[trigger] m[k]).value,
        ) + count_le(vsb, m[k].value) + slack && count_lt(vsa, m[k].value) + count_lt(
            vsb,
            m[k].value,
        ) <= off + sum_g(m.take(k + 1)) + m[k].delta - 1 + slack by {
            let v = aa[k].value;
            assert(aa[0].value <= v);
            lemma_count_bounds(vsb, aa[0].value, v);
            lemma_count_bounds(vsb, v, v);
            lemma_sum_g_nonneg_all(aa, k);
        }
    } else if aa[0].value < bb[0].value {
        let h = bump(aa[0], rb);
        let a2 = aa.drop_first();
        let ra2 = residual_after(ra, aa[0]);
        let m2 = merge_seqs(a2, bb, ra2, rb);
        assert(m == seq![h] + m2);
        assert(sorted_values(a2)) by {
            assert(forall|t: int| 0 <= t < a2.len() ==> a2[t] == aa[t + 1]);
        }
        assert(forall|t: int| 0 <= t < a2.len() ==> a2[t] == aa[t + 1]);
        assert(sum_g(aa) == aa[0].g + sum_g(a2)) by {
            assert(aa =~= seq![aa[0]] + a2);
            lemma_sum_g_cons(aa[0], a2);
        }
        assert forall|t: int|
            0 <= t < a2.len() implies ga + aa[0].g + sum_g(a2.take(t + 1)) <= count_le(
            vsa,
            (#[trigger] a2[t]).value,
        ) + ka && count_lt(vsa, a2[t].value) <= ga + aa[0].g + sum_g(a2.take(t + 1)) + a2[t].delta
            - 1 + ka by {
            assert(aa.take(t + 2) =~= seq![aa[0]] + a2.take(t + 1));
            lemma_sum_g_cons(aa[0], a2.take(t + 1));
            assert(aa[t + 1] == a2[t]);
        }
        // The remaining heads still dominate everything consumed
        assert(sum_g(aa.take(1)) == aa[0].g) by {
            lemma_sum_g_cons_take(aa[0], a2, 0);
            assert(aa =~= seq![aa[0]] + a2);
            assert(a2.take(0) =~= Seq::<Sample>::empty());
        }
        if a2.len() > 0 {
            assert(aa[0].value <= a2[0].value);
            lemma_count_bounds(vsb, aa[0].value, a2[0].value);
        }
        assert(count_le(vsa, bb[0].value) >= ga + aa[0].g - ka) by {
            lemma_count_bounds(vsa, aa[0].value, bb[0].value);
        }
        lemma_merge_envelope(
            a2,
            bb,
            vsa,
            vsb,
            ga + aa[0].g,
            gb,
            ka,
            kb,
            ba,
            bb_bound,
            ra2,
            rb,
        );
        assert forall|k: int| 0 <= k < m.len() implies off + sum_g(m.take(k + 1)) <= count_le(
            vsa,
            (#[trigger] m[k]).value,
        ) + count_le(vsb, m[k].value) + slack && count_lt(vsa, m[k].value) + count_lt(
            vsb,
            m[k].value,
        ) <= off + sum_g(m.take(k + 1)) + m[k].delta - 1 + slack by {
            lemma_sum_g_cons_take(h, m2, k);
            if k == 0 {
                let v = aa[0].value;
                assert(m[0] == h && h.value == v && h.g == aa[0].g);
                assert(h.delta == aa[0].delta + rb);
                assert(m.take(1) =~= seq![h] + m2.take(0));
                // Lower side: both streams have consumed at most this much
                assert(ga + sum_g(aa.take(1)) <= count_le(vsa, v) + ka);
                assert(count_le(vsb, v) >= gb - kb);
                // Upper side: the other head bounds the unseen values
                assert(count_lt(vsa, v) <= ga + sum_g(aa.take(1)) + aa[0].delta - 1 + ka);
                assert(count_lt(vsb, v) <= count_lt(vsb, bb[0].value)) by {
                    lemma_count_bounds(vsb, v, bb[0].value);
                }
                assert(sum_g(bb.take(1)) == bb[0].g) by {
                    lemma_sum_g_cons_take(bb[0], bb.drop_first(), 0);
                    assert(bb =~= seq![bb[0]] + bb.drop_first());
                    assert(bb.drop_first().take(0) =~= Seq::<Sample>::empty());
                }
                assert(count_lt(vsb, bb[0].value) <= gb + bb[0].g + bb[0].delta - 1 + kb);
                assert(bb[0].g + bb[0].delta <= bb_bound);
            } else {
                assert(m[k] == m2[k - 1]);
            }
        }
    } else {
        let h = bump(bb[0], ra);
        let b2 = bb.drop_first();
        let rb2 = residual_after(rb, bb[0]);
        let m2 = merge_seqs(aa, b2, ra, rb2);
        assert(m == seq![h] + m2);
        assert(sorted_values(b2)) by {
            assert(forall|t: int| 0 <= t < b2.len() ==> b2[t] == bb[t + 1]);
        }
        assert(forall|t: int| 0 <= t < b2.len() ==> b2[t] == bb[t + 1]);
        assert(sum_g(bb) == bb[0].g + sum_g(b2)) by {
            assert(bb =~= seq![bb[0]] + b2);
            lemma_sum_g_cons(bb[0], b2);
        }
        assert forall|t: int|
            0 <= t < b2.len() implies gb + bb[0].g + sum_g(b2.take(t + 1)) <= count_le(
            vsb,
            (#[trigger] b2[t]).value,
        ) + kb && count_lt(vsb, b2[t].value) <= gb + bb[0].g + sum_g(b2.take(t + 1)) + b2[t].delta
            - 1 + kb by {
            assert(bb.take(t + 2) =~= seq![bb[0]] + b2.take(t + 1));
            lemma_sum_g_cons(bb[0], b2.take(t + 1));
            assert(bb[t + 1] == b2[t]);
        }
        assert(sum_g(bb.take(1)) == bb[0].g) by {
            lemma_sum_g_cons_take(bb[0], b2, 0);
            assert(bb =~= seq![bb[0]] + b2);
            assert(b2.take(0) =~= Seq::<Sample>::empty());
        }
        if b2.len() > 0 {
            assert(bb[0].value <= b2[0].value);
            lemma_count_bounds(vsa, bb[0].value, b2[0].value);
        }
        assert(count_le(vsb, aa[0].value) >= gb + bb[0].g - kb) by {
            lemma_count_bounds(vsb, bb[0].value, aa[0].value);
        }
        lemma_merge_envelope(
            aa,
            b2,
            vsa,
            vsb,
            ga,
            gb + bb[0].g,
            ka,
            kb,
            ba,
            bb_bound,
            ra,
            rb2,
        );
        assert forall|k: int| 0 <= k < m.len() implies off + sum_g(m.take(k + 1)) <= count_le(
            vsa,
            (#[trigger] m[k]).value,
        ) + count_le(vsb, m[k].value) + slack && count_lt(vsa, m[k].value) + count_lt(
            vsb,
            m[k].value,
        ) <= off + sum_g(m.take(k + 1)) + m[k].delta - 1 + slack by {
            lemma_sum_g_cons_take(h, m2, k);
            if k == 0 {
                let v = bb[0].value;
                assert(m[0] == h && h.value == v && h.g == bb[0].g);
                assert(h.delta == bb[0].delta + ra);
                assert(m.take(1) =~= seq![h] + m2.take(0));
                assert(gb + sum_g(bb.take(1)) <= count_le(vsb, v) + kb);
                assert(count_le(vsa, v) >= ga - ka);
                assert(count_lt(vsb, v) <= gb + sum_g(bb.take(1)) + bb[0].delta - 1 + kb);
                assert(count_lt(vsa, v) <= count_lt(vsa, aa[0].value)) by {
                    lemma_count_bounds(vsa, v, aa[0].value);
                }
                assert(sum_g(aa.take(1)) == aa[0].g) by {
                    lemma_sum_g_cons_take(aa[0], aa.drop_first(), 0);
                    assert(aa =~= seq![aa[0]] + aa.drop_first());
                    assert(aa.drop_first().take(0) =~= Seq::<Sample>::empty());
                }
                assert(count_lt(vsa, aa[0].value) <= ga + aa[0].g + aa[0].delta - 1 + ka);
                assert(aa[0].g + aa[0].delta <= ba);
            } else {
                assert(m[k] == m2[k - 1]);
            }
        }
    }
}

/// Prefix `g` sums are at least the prefix length when every `g` is
/// positive.
proof fn lemma_sum_g_nonneg_all(s: Seq<Sample>, k: int)
    requires
        forall|t: int| 0 <= t < s.len() ==> (#[trigger] s[t]).g >= 1,
        0 <= k < s.len(),
    ensures
        sum_g(s.take(k + 1)) >= 0,
    decreases k,
{
    if k > 0 {
        lemma_sum_g_nonneg_all(s, k - 1);
        assert(s.take(k + 1).drop_last() =~= s.take(k));
        assert(s.take(k + 1).last() == s[k]);
    } else {
        assert(s.take(1).drop_last() =~= Seq::<Sample>::empty());
        assert(sum_g(Seq::<Sample>::empty()) == 0);
        assert(s.take(1).last() == s[0]);
    }
}

/// A peekable cursor over one sorted sample stream, carrying the running
/// residual `delta` observed by the other stream of a merge.
pub struct MergeCursor {
    samples: Vec<Sample>,
    pos: usize,
    residual_delta: u64,
}

impl MergeCursor {
    /// The samples not yet popped.
    pub closed spec fn remaining(self) -> Seq<Sample> {
        self.samples@.skip(self.pos as int)
    }

    /// The residual accumulated from the popped samples.
    pub closed spec fn residual(self) -> u64 {
        self.residual_delta
    }

    /// The cursor position stays within the stream.
    pub closed spec fn wf(self) -> bool {
        self.pos <= self.samples@.len()
    }

    /// Wrap a sorted sample stream.
    pub fn new(samples: Vec<Sample>) -> (c: MergeCursor)
        ensures
            c.wf(),
            c.remaining() =~= samples@,
            c.residual() == 0,
    {
        MergeCursor { samples, pos: 0, residual_delta: 0 }
    }

    /// A non-consuming look at the next sample.
    pub fn peek(&self) -> (r: Option<Sample>)
        requires
            self.wf(),
        ensures
            match r {
                Some(s) => self.remaining().len() > 0 && s == self.remaining()[0],
                None => self.remaining().len() == 0,
            },
    {
        if self.pos < self.samples.len() {
            Some(self.samples[self.pos])
        } else {
            None
        }
    }

    /// Consume the next sample, folding its worst-case maximum-rank
    /// contribution into the residual.
    pub fn pop_front(&mut self) -> (r: Sample)
        requires
            old(self).wf(),
            old(self).remaining().len() > 0,
            old(self).remaining()[0].g >= 1,
            old(self).remaining()[0].g + old(self).remaining()[0].delta + old(self).residual()
                <= u64::MAX,
        ensures
            final(self).wf(),
            r == old(self).remaining()[0],
            final(self).remaining() =~= old(self).remaining().drop_first(),
            final(self).residual() == residual_after(old(self).residual() as int, r),
    {
        proof {
            assert(self.samples@.skip(self.pos as int).len() > 0);
            assert(self.samples@.skip(self.pos as int)[0] == self.samples@[self.pos as int]);
        }
        let n = self.samples.len();
        assert(self.pos < n);
        let s = self.samples[self.pos];
        self.pos = self.pos + 1;
        let contribution = s.delta + s.g - 1;
        if contribution > self.residual_delta {
            self.residual_delta = contribution;
        }
        s
    }

    /// The residual observed from this cursor's side.
    pub fn additional_delta(&self) -> (r: u64)
        ensures
            r == self.residual(),
    {
        self.residual_delta
    }

    /// Drain all remaining samples into the compressor, adding no further
    /// `delta`: the other stream has been fully consumed at this point.
    pub fn push_remaining_to(&mut self, compressor: &mut SamplesCompressor)
        requires
            old(self).wf(),
            old(compressor).wf(),
        ensures
            final(self).wf(),
            final(self).remaining().len() == 0,
            final(compressor).wf(),
            final(compressor).cap() == old(compressor).cap(),
            final(compressor).pushed_seq() == old(compressor).pushed_seq() + old(self).remaining(),
    {
        let ghost orig = self.remaining();
        let ghost pushed0 = compressor.pushed_seq();
        while self.pos < self.samples.len()
            invariant
                self.wf(),
                compressor.wf(),
                compressor.cap() == old(compressor).cap(),
                self.samples@ == old(self).samples@,
                old(self).pos <= self.pos,
                orig == self.samples@.skip(old(self).pos as int),
                compressor.pushed_seq() == pushed0 + orig.take(self.pos - old(self).pos),
            decreases self.samples@.len() - self.pos,
        {
            let s = self.samples[self.pos];
            self.pos = self.pos + 1;
            compressor.push(s);
            proof {
                let k = self.pos - old(self).pos;
                assert(orig.take(k) =~= orig.take(k - 1).push(s));
                assert(compressor.pushed_seq() =~= pushed0 + orig.take(k));
            }
        }
        proof {
            assert(orig.take(self.pos - old(self).pos) =~= orig);
            assert(compressor.pushed_seq() =~= pushed0 + orig);
        }
    }
}

} // verus!
