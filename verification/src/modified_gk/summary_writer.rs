//! An efficient interface to write a lot of values to a single summary:
//! values are buffered, and each full buffer is sorted and merged into the
//! summary in one linear sweep.

use vstd::prelude::*;

use crate::modified_gk::merge_cursor::merge_seqs;
use crate::modified_gk::sample::{
    count_le, count_lt, envelope_within, sum_g, tracks, wf_samples, Sample,
};
use crate::modified_gk::samples_compressor::compressed;
use crate::modified_gk::summary::{all_exact, cap_of, lemma_min_rank_exact, Summary, LEN_LIMIT};
use vstd::multiset::Multiset;

verus! {

broadcast use {vstd::multiset::group_multiset_axioms, vstd::seq_lib::group_to_multiset_ensures};

/// Number of values buffered before an automatic flush, unless configured.
pub const DEFAULT_BUFFER_CAPACITY: usize = 1000;

/// An integer sequence sorted non-decreasingly.
pub open spec fn sorted_ints(s: Seq<i64>) -> bool {
    forall|i: int, j: int| 0 <= i <= j < s.len() ==> s[i] <= s[j]
}

/// Index of the leftmost value strictly greater than `v` (`s.len()` if
/// there is none).
pub open spec fn first_gt_int(s: Seq<i64>, v: i64) -> int
    decreases s.len(),
{
    if s.len() == 0 {
        0
    } else if s[0] > v {
        0
    } else {
        1 + first_gt_int(s.drop_first(), v)
    }
}

/// `first_gt_int` is the unique index `k` with everything before at most
/// `v` and the value at `k`, if any, greater than `v`.
proof fn lemma_first_gt_int_char(s: Seq<i64>, v: i64, k: int)
    requires
        0 <= k <= s.len(),
        forall|i: int| 0 <= i < k ==> s[i] <= v,
        k < s.len() ==> s[k] > v,
    ensures
        first_gt_int(s, v) == k,
    decreases s.len(),
{
    if s.len() == 0 {
    } else if k == 0 {
    } else {
        let d = s.drop_first();
        assert(forall|i: int| 0 <= i < k - 1 ==> d[i] == s[i + 1] && d[i] <= v);
        assert(k - 1 < d.len() ==> d[k - 1] == s[k]);
        lemma_first_gt_int_char(d, v, k - 1);
    }
}

/// Basic bounds of `first_gt_int`.
proof fn lemma_first_gt_int_bounds(s: Seq<i64>, v: i64)
    ensures
        0 <= first_gt_int(s, v) <= s.len(),
        forall|i: int| 0 <= i < first_gt_int(s, v) ==> s[i] <= v,
        first_gt_int(s, v) < s.len() ==> s[first_gt_int(s, v)] > v,
    decreases s.len(),
{
    if s.len() > 0 && !(s[0] > v) {
        let d = s.drop_first();
        lemma_first_gt_int_bounds(d, v);
        assert(forall|i: int| 0 <= i < d.len() ==> d[i] == s[i + 1]);
        assert forall|i: int| 0 <= i < first_gt_int(s, v) implies s[i] <= v by {
            if i > 0 {
                assert(d[i - 1] == s[i] && d[i - 1] <= v);
            }
        }
        if first_gt_int(s, v) < s.len() {
            assert(d[first_gt_int(d, v)] == s[first_gt_int(s, v)]);
        }
    }
}

/// `v` inserted at its sorted position: before the first greater value.
pub open spec fn sorted_insert(s: Seq<i64>, v: i64) -> Seq<i64> {
    s.insert(first_gt_int(s, v), v)
}

/// The values sorted ascending, by inserting each in turn at its position.
pub open spec fn sort_spec(s: Seq<i64>) -> Seq<i64>
    decreases s.len(),
{
    if s.len() == 0 {
        s
    } else {
        sorted_insert(sort_spec(s.drop_last()), s.last())
    }
}

/// A sorted insertion keeps the run sorted and adds exactly the new value.
proof fn lemma_sorted_insert_props(s: Seq<i64>, v: i64)
    requires
        sorted_ints(s),
    ensures
        sorted_ints(sorted_insert(s, v)),
        sorted_insert(s, v).to_multiset() == s.to_multiset().insert(v),
        sorted_insert(s, v).len() == s.len() + 1,
{
    lemma_first_gt_int_bounds(s, v);
    let k = first_gt_int(s, v);
    let r = sorted_insert(s, v);
    vstd::seq_lib::to_multiset_insert(s, k, v);
    assert(forall|i: int| 0 <= i < k ==> r[i] == s[i]);
    assert(forall|i: int| k < i < r.len() ==> r[i] == s[i - 1]);
    assert(r[k] == v);
    assert forall|i: int, j: int| 0 <= i <= j < r.len() implies r[i] <= r[j] by {
        if i < k && j == k {
            assert(r[i] == s[i] && s[i] <= v);
        } else if i == k && j > k {
            assert(r[j] == s[j - 1] && s[j - 1] >= s[k]);
        } else if i < k && j > k {
            assert(r[i] == s[i] && r[j] == s[j - 1]);
        }
    }
}

/// Sorting gives a sorted run of the same values.
proof fn lemma_sort_spec_props(s: Seq<i64>)
    ensures
        sorted_ints(sort_spec(s)),
        sort_spec(s).to_multiset() == s.to_multiset(),
        sort_spec(s).len() == s.len(),
    decreases s.len(),
{
    broadcast use {vstd::multiset::group_multiset_axioms, vstd::seq_lib::group_to_multiset_ensures};

    if s.len() > 0 {
        lemma_sort_spec_props(s.drop_last());
        lemma_sorted_insert_props(sort_spec(s.drop_last()), s.last());
        assert(s =~= s.drop_last().push(s.last()));
        assert(s.drop_last().push(s.last()).to_multiset() == s.drop_last().to_multiset().insert(
            s.last(),
        ));
    }
}

/// Sort a vector of values in place, ascending: the result is exactly the
/// spec-level insertion sort of the input.
fn sort_values(v: &mut Vec<i64>)
    ensures
        final(v)@ == sort_spec(old(v)@),
        sorted_ints(final(v)@),
        final(v)@.to_multiset() == old(v)@.to_multiset(),
        final(v)@.len() == old(v)@.len(),
{
    proof {
        lemma_sort_spec_props(old(v)@);
    }
    if v.len() <= 1 {
        proof {
            if v@.len() == 1 {
                assert(v@.drop_last() =~= Seq::<i64>::empty());
                assert(sort_spec(Seq::<i64>::empty()) == Seq::<i64>::empty());
                assert(sort_spec(v@) == sorted_insert(Seq::<i64>::empty(), v@.last()));
                assert(first_gt_int(Seq::<i64>::empty(), v@.last()) == 0);
                assert(Seq::<i64>::empty().insert(0, v@.last()) =~= v@);
                assert(sort_spec(v@) =~= v@);
            }
        }
        return ;
    }
    let mut i: usize = 1;
    proof {
        let ghost w = old(v)@[0];
        assert(seq![w].drop_last() =~= Seq::<i64>::empty());
        assert(seq![w].last() == w);
        assert(sort_spec(Seq::<i64>::empty()) == Seq::<i64>::empty());
        assert(sort_spec(seq![w]) == sorted_insert(Seq::<i64>::empty(), w));
        assert(first_gt_int(Seq::<i64>::empty(), w) == 0);
        assert(sorted_insert(Seq::<i64>::empty(), w) =~= seq![w]);
        assert(old(v)@.take(1) =~= seq![w]);
        assert(sort_spec(old(v)@.take(1)) =~= seq![w]);
        assert(v@ =~= sort_spec(old(v)@.take(1)) + old(v)@.skip(1));
    }
    while i < v.len()
        invariant
            1 <= i <= v.len(),
            v@.to_multiset() == old(v)@.to_multiset(),
            v@.len() == old(v)@.len(),
            sorted_ints(v@.take(i as int)),
            v@ == sort_spec(old(v)@.take(i as int)) + old(v)@.skip(i as int),
        decreases v.len() - i,
    {
        let ghost before = v@;
        let x = v.remove(i);
        let ghost after_remove = v@;
        proof {
            assert(before =~= after_remove.insert(i as int, x));
            vstd::seq_lib::to_multiset_insert(after_remove, i as int, x);
        }
        // Find the insertion point in the sorted prefix
        let mut pos: usize = 0;
        while pos < i && v[pos] <= x
            invariant
                0 <= pos <= i < v@.len() + 1,
                i <= v@.len(),
                forall|k: int| 0 <= k < pos ==> v@[k] <= x,
            decreases i - pos,
        {
            pos = pos + 1;
        }
        v.insert(pos, x);
        proof {
            vstd::seq_lib::to_multiset_insert(after_remove, pos as int, x);
            // The executed insertion is exactly one step of the spec sort
            let prefix = sort_spec(old(v)@.take(i as int));
            assert(prefix.len() == i) by {
                lemma_sort_spec_props(old(v)@.take(i as int));
            }
            assert(x == old(v)@[i as int]) by {
                assert(before == prefix + old(v)@.skip(i as int));
                assert(before[i as int] == old(v)@.skip(i as int)[0]);
            }
            assert(after_remove =~= prefix + old(v)@.skip(i + 1)) by {
                assert(before == prefix + old(v)@.skip(i as int));
                assert(old(v)@.skip(i as int).drop_first() =~= old(v)@.skip(i + 1));
            }
            assert(forall|k: int| 0 <= k < i ==> after_remove[k] == prefix[k]);
            assert(first_gt_int(prefix, x) == pos) by {
                lemma_first_gt_int_char(prefix, x, pos as int);
            }
            assert(v@ =~= sorted_insert(prefix, x) + old(v)@.skip(i + 1)) by {
                assert(v@ == after_remove.insert(pos as int, x));
                assert(after_remove.insert(pos as int, x) =~= prefix.insert(pos as int, x)
                    + old(v)@.skip(i + 1));
            }
            assert(sort_spec(old(v)@.take(i + 1)) == sorted_insert(prefix, x)) by {
                assert(old(v)@.take(i + 1).drop_last() =~= old(v)@.take(i as int));
                assert(old(v)@.take(i + 1).last() == old(v)@[i as int]);
            }
            assert(sorted_ints(v@.take(i + 1))) by {
                assert(forall|k: int| 0 <= k < pos ==> v@[k] == after_remove[k]);
                assert(forall|k: int| pos < k <= i ==> v@[k] == after_remove[k - 1]);
                assert(v@[pos as int] == x);
                assert(forall|k: int|
                    pos < k <= i ==> #[trigger] v@[k] == after_remove[k - 1] && x < after_remove[k
                        - 1]) by {
                    assert(pos < i ==> after_remove[pos as int] > x);
                    assert(forall|k: int|
                        pos <= k < i ==> after_remove[pos as int] <= #[trigger] after_remove[k]);
                }
            }
        }
        i = i + 1;
    }
    proof {
        if v@.len() > 0 {
            assert(v@.take(v@.len() as int) =~= v@);
        }
        assert(old(v)@.take(old(v)@.len() as int) =~= old(v)@);
        assert(old(v)@.skip(old(v)@.len() as int) =~= Seq::<i64>::empty());
        assert(v@ =~= sort_spec(old(v)@));
    }
}

/// A value sequence turned into exact samples, one `{v, g: 1, delta: 0}`
/// per value.
pub open spec fn exact_samples_of(sv: Seq<i64>) -> Seq<Sample> {
    Seq::new(sv.len(), |i: int| Sample::exact_spec(sv[i]))
}

/// `after` is `before` with the pending values `pv` flushed in: `pv`
/// sorted ascending enters the summary as exact samples through the
/// streaming merge at the combined length's capacity.
pub open spec fn flushed_to(before: Summary, pv: Seq<i64>, after: Summary) -> bool {
    let sv = sort_spec(pv);
    &&& after.inserted() == before.inserted() + sv
    &&& after.samples_seq() == compressed(
        merge_seqs(before.samples_seq(), exact_samples_of(sv), 0, 0),
        cap_of(
            before.epsilon_num() as int,
            before.epsilon_den() as int,
            before.spec_len() + pv.len(),
        ) as u64,
    )
    &&& after.spec_len() == before.spec_len() + pv.len()
    &&& after.epsilon_num() == before.epsilon_num()
    &&& after.epsilon_den() == before.epsilon_den()
    &&& after.rank_slack() == before.rank_slack() + crate::modified_gk::sample::cap_bound(
        cap_of(
            before.epsilon_num() as int,
            before.epsilon_den() as int,
            before.spec_len() as int,
        ),
    ) - 1
}

/// The writer state, projected to (summary samples, summary values,
/// pending buffer), after the values of `vs` are inserted in order at the
/// buffer capacity `cap_cfg` and the error bound `num / den`: each value
/// enters the buffer, and a buffer that reaches the capacity is flushed.
pub open spec fn fed_state(
    ssamples: Seq<Sample>,
    svalues: Seq<i64>,
    pending: Seq<i64>,
    cap_cfg: int,
    num: int,
    den: int,
    vs: Seq<i64>,
) -> (Seq<Sample>, Seq<i64>, Seq<i64>)
    decreases vs.len(),
{
    if vs.len() == 0 {
        (ssamples, svalues, pending)
    } else {
        let prev = fed_state(ssamples, svalues, pending, cap_cfg, num, den, vs.drop_last());
        let p2 = prev.2.push(vs.last());
        if p2.len() == cap_cfg {
            let sv = sort_spec(p2);
            (
                compressed(
                    merge_seqs(prev.0, exact_samples_of(sv), 0, 0),
                    cap_of(num, den, prev.1.len() + p2.len() as int) as u64,
                ),
                prev.1 + sv,
                Seq::<i64>::empty(),
            )
        } else {
            (prev.0, prev.1, p2)
        }
    }
}

/// An efficient interface to write a lot of values to a single summary.
pub struct SummaryWriter {
    summary: Summary,
    buffer: Vec<i64>,
    buffer_capacity: usize,
}

impl SummaryWriter {
    /// The values still waiting in the buffer.
    pub closed spec fn pending(self) -> Seq<i64> {
        self.buffer@
    }

    /// The summary under construction.
    pub closed spec fn summary_part(self) -> Summary {
        self.summary
    }

    /// Number of values buffered before an automatic flush.
    pub closed spec fn capacity(self) -> usize {
        self.buffer_capacity
    }

    /// Everything written so far: the values already merged into the
    /// summary together with the buffered ones, as a multiset (a flush
    /// reorders values, which a quantile summary cannot observe).
    pub open spec fn collected(self) -> Multiset<i64> {
        self.summary_part().inserted().to_multiset().add(self.pending().to_multiset())
    }

    /// The underlying summary stays well-formed and everything fits.
    pub open spec fn wf(self) -> bool {
        &&& self.summary_part().wf()
        &&& self.summary_part().spec_len() + self.pending().len() <= LEN_LIMIT
    }

    /// Create a new empty writer.
    pub fn new(eps_num: u64, eps_den: u64) -> (w: SummaryWriter)
        requires
            0 < eps_num < eps_den,
            eps_den <= LEN_LIMIT,
        ensures
            w.wf(),
            w.collected() =~= Multiset::<i64>::empty(),
            w.pending().len() == 0,
            w.capacity() == DEFAULT_BUFFER_CAPACITY,
            w.summary_part().epsilon_num() == eps_num,
            w.summary_part().epsilon_den() == eps_den,
            w.summary_part().spec_len() == 0,
            w.summary_part().insertion_only(),
    {
        SummaryWriter::with_capacity(eps_num, eps_den, DEFAULT_BUFFER_CAPACITY)
    }

    /// Create a new empty writer with a custom buffer size.
    pub fn with_capacity(eps_num: u64, eps_den: u64, buffer_capacity: usize) -> (w: SummaryWriter)
        requires
            0 < eps_num < eps_den,
            eps_den <= LEN_LIMIT,
        ensures
            w.wf(),
            w.collected() =~= Multiset::<i64>::empty(),
            w.pending().len() == 0,
            w.capacity() == buffer_capacity,
            w.summary_part().epsilon_num() == eps_num,
            w.summary_part().epsilon_den() == eps_den,
            w.summary_part().spec_len() == 0,
            w.summary_part().insertion_only(),
    {
        let w = SummaryWriter::with_summary_and_capacity(
            Summary::new(eps_num, eps_den),
            buffer_capacity,
        );
        proof {
            assert(Seq::<i64>::empty().to_multiset() =~= Multiset::<i64>::empty());
        }
        w
    }

    /// Wrap a summary into a writer.
    pub fn with_summary(summary: Summary) -> (w: SummaryWriter)
        requires
            summary.wf(),
        ensures
            w.wf(),
            w.collected() == summary.inserted().to_multiset(),
            w.pending().len() == 0,
            w.capacity() == DEFAULT_BUFFER_CAPACITY,
            w.summary_part() == summary,
    {
        SummaryWriter::with_summary_and_capacity(summary, DEFAULT_BUFFER_CAPACITY)
    }

    /// Wrap a summary into a writer with a custom buffer size.
    pub fn with_summary_and_capacity(summary: Summary, buffer_capacity: usize) -> (w:
        SummaryWriter)
        requires
            summary.wf(),
        ensures
            w.wf(),
            w.collected() == summary.inserted().to_multiset(),
            w.pending().len() == 0,
            w.capacity() == buffer_capacity,
            w.summary_part() == summary,
    {
        let w = SummaryWriter { summary, buffer: Vec::new(), buffer_capacity };
        proof {
            summary.lemma_wf_facts();
            assert(w.buffer@.to_multiset() =~= Multiset::<i64>::empty());
            assert(w.collected() =~= summary.inserted().to_multiset());
        }
        w
    }

    /// Insert a single new value, flushing the buffer once it is full.
    pub fn insert_one(&mut self, value: i64)
        requires
            old(self).wf(),
            old(self).summary_part().spec_len() + old(self).pending().len() < LEN_LIMIT,
        ensures
            final(self).wf(),
            final(self).collected() == old(self).collected().insert(value),
            final(self).summary_part().spec_len() + final(self).pending().len() == old(self).summary_part().spec_len() + old(self).pending().len() + 1,
            final(self).summary_part().epsilon_num() == old(self).summary_part().epsilon_num(),
            final(self).summary_part().epsilon_den() == old(self).summary_part().epsilon_den(),
            final(self).capacity() == old(self).capacity(),
            ({
                let pnew = old(self).pending().push(value);
                if pnew.len() == old(self).capacity() {
                    final(self).pending().len() == 0 && flushed_to(
                        old(self).summary_part(),
                        pnew,
                        final(self).summary_part(),
                    )
                } else {
                    final(self).summary_part() == old(self).summary_part() && final(self).pending()
                        == pnew
                }
            }),
    {
        self.buffer.push(value);
        proof {
            assert(self.buffer@ == old(self).buffer@.push(value));
            assert(self.buffer@ == old(self).buffer@.insert(old(self).buffer@.len() as int, value));
            vstd::seq_lib::to_multiset_insert(old(self).buffer@, old(self).buffer@.len() as int, value);
            assert(self.collected() =~= old(self).collected().insert(value));
        }
        if self.buffer.len() == self.buffer_capacity {
            self.flush();
        }
    }

    /// Insert every value of the vector in order.
    pub fn extend(&mut self, values: Vec<i64>)
        requires
            old(self).wf(),
            old(self).summary_part().spec_len() + old(self).pending().len() + values@.len()
                <= LEN_LIMIT,
        ensures
            final(self).wf(),
            final(self).collected() == old(self).collected().add(values@.to_multiset()),
            final(self).summary_part().epsilon_num() == old(self).summary_part().epsilon_num(),
            final(self).summary_part().epsilon_den() == old(self).summary_part().epsilon_den(),
            final(self).capacity() == old(self).capacity(),
            old(self).capacity() > 0 && old(self).pending().len() < old(self).capacity() ==> final(self).pending().len() < final(self).capacity(),
            ({
                let fed = fed_state(
                    old(self).summary_part().samples_seq(),
                    old(self).summary_part().inserted(),
                    old(self).pending(),
                    old(self).capacity() as int,
                    old(self).summary_part().epsilon_num() as int,
                    old(self).summary_part().epsilon_den() as int,
                    values@,
                );
                final(self).summary_part().samples_seq() == fed.0 && final(self).summary_part().inserted() == fed.1 && final(self).pending() == fed.2
            }),
    {
        proof {
            vstd::seq_lib::to_multiset_len(values@);
        }
        let ghost num = old(self).summary_part().epsilon_num() as int;
        let ghost den = old(self).summary_part().epsilon_den() as int;
        let ghost cap_cfg = old(self).capacity() as int;
        let ghost s0 = old(self).summary_part().samples_seq();
        let ghost v0 = old(self).summary_part().inserted();
        let ghost p0 = old(self).pending();
        proof {
            assert(values@.take(0) =~= Seq::<i64>::empty());
        }
        let mut i: usize = 0;
        while i < values.len()
            invariant
                self.wf(),
                0 <= i <= values@.len(),
                self.summary_part().spec_len() + self.pending().len() + (values@.len() - i)
                    <= LEN_LIMIT,
                self.collected() == old(self).collected().add(values@.take(i as int).to_multiset()),
                self.summary_part().epsilon_num() == old(self).summary_part().epsilon_num(),
                self.summary_part().epsilon_den() == old(self).summary_part().epsilon_den(),
                self.capacity() == old(self).capacity(),
                old(self).capacity() > 0 && old(self).pending().len() < old(self).capacity()
                    ==> self.pending().len() < self.capacity(),
                cap_cfg == old(self).capacity() as int,
                num == old(self).summary_part().epsilon_num() as int,
                den == old(self).summary_part().epsilon_den() as int,
                s0 == old(self).summary_part().samples_seq(),
                v0 == old(self).summary_part().inserted(),
                p0 == old(self).pending(),
                ({
                    let fed = fed_state(s0, v0, p0, cap_cfg, num, den, values@.take(i as int));
                    self.summary_part().samples_seq() == fed.0 && self.summary_part().inserted()
                        == fed.1 && self.pending() == fed.2
                }),
            decreases values@.len() - i,
        {
            let ghost pre = *self;
            proof {
                pre.summary.lemma_wf_facts();
            }
            self.insert_one(values[i]);
            proof {
                assert(values@.take(i + 1) =~= values@.take(i as int).push(values@[i as int]));
                assert(values@.take(i + 1) =~= values@.take(i as int).insert(i as int, values@[i as int]));
                vstd::seq_lib::to_multiset_insert(values@.take(i as int), i as int, values@[i as int]);
                assert(self.collected() =~= old(self).collected().add(
                    values@.take(i + 1).to_multiset(),
                ));
                // One fed step matches one insert
                assert(values@.take(i + 1).drop_last() =~= values@.take(i as int));
                assert(values@.take(i + 1).last() == values@[i as int]);
                let fed = fed_state(s0, v0, p0, cap_cfg, num, den, values@.take(i + 1));
                let pnew = pre.pending().push(values@[i as int]);
                if pnew.len() == cap_cfg {
                    assert(flushed_to(pre.summary_part(), pnew, self.summary_part()));
                    assert(self.summary_part().inserted() == pre.summary_part().inserted()
                        + sort_spec(pnew));
                    assert(pre.summary_part().spec_len() == pre.summary_part().inserted().len());
                    assert(self.summary_part().samples_seq() == fed.0);
                } else {
                    assert(self.summary_part() == pre.summary_part());
                }
            }
            i = i + 1;
        }
        proof {
            assert(values@.take(values@.len() as int) =~= values@);
        }
    }

    /// Write out any pending values into the summary and return it.
    pub fn into_summary(self) -> (s: Summary)
        requires
            self.wf(),
        ensures
            s.wf(),
            s.inserted().to_multiset() == self.collected(),
            s.epsilon_num() == self.summary_part().epsilon_num(),
            s.epsilon_den() == self.summary_part().epsilon_den(),
            s.spec_len() == self.summary_part().spec_len() + self.pending().len(),
            self.pending().len() == 0 ==> s == self.summary_part(),
            self.pending().len() > 0 ==> flushed_to(self.summary_part(), self.pending(), s),
    {
        let mut this = self;
        this.flush();
        proof {
            assert(this.collected() =~= this.summary.inserted().to_multiset());
        }
        this.summary
    }

    /// Sort the pending values and merge them into the summary as exact
    /// samples, in one sweep.
    fn flush(&mut self)
        requires
            old(self).wf(),
        ensures
            final(self).wf(),
            final(self).pending().len() == 0,
            final(self).collected() == old(self).collected(),
            final(self).summary_part().spec_len() == old(self).summary_part().spec_len() + old(self).pending().len(),
            final(self).summary_part().epsilon_num() == old(self).summary_part().epsilon_num(),
            final(self).summary_part().epsilon_den() == old(self).summary_part().epsilon_den(),
            final(self).buffer_capacity == old(self).buffer_capacity,
            old(self).pending().len() == 0 ==> final(self).summary_part() == old(self).summary_part(),
            old(self).pending().len() > 0 ==> flushed_to(
                old(self).summary_part(),
                old(self).pending(),
                final(self).summary_part(),
            ),
    {
        let len = self.buffer.len();
        if len == 0 {
            return ;
        }
        sort_values(&mut self.buffer);
        let ghost sorted = self.buffer@;
        let mut samples: Vec<Sample> = Vec::new();
        let mut i: usize = 0;
        while i < self.buffer.len()
            invariant
                0 <= i <= self.buffer@.len(),
                samples@.len() == i,
                forall|k: int|
                    0 <= k < i ==> samples@[k] == Sample::exact_spec(self.buffer@[k]),
            decreases self.buffer@.len() - i,
        {
            samples.push(Sample::exact(self.buffer[i]));
            i = i + 1;
        }
        proof {
            lemma_exact_samples_wf(samples@, sorted);
            self.summary.lemma_wf_facts();
            crate::modified_gk::summary::lemma_cap_of_monotone(
                self.summary.epsilon_num() as int,
                self.summary.epsilon_den() as int,
                self.summary.spec_len() as int,
                self.summary.spec_len() + sorted.len(),
            );
            crate::modified_gk::summary::lemma_cap_of_range(
                self.summary.epsilon_num() as int,
                self.summary.epsilon_den() as int,
                self.summary.spec_len() as int,
            );
        }
        let buffer_len = self.buffer.len() as u64;
        proof {
            assert(samples@ =~= exact_samples_of(sorted));
            lemma_exact_samples_envelope(sorted);
        }
        self.summary.merge_sorted_samples(
            samples,
            buffer_len,
            Ghost(sorted),
            Ghost(0),
            Ghost(0),
        );
        self.buffer.clear();
        proof {
            assert(self.buffer@.to_multiset() =~= Multiset::<i64>::empty());
            lemma_to_multiset_concat(old(self).summary.inserted(), sorted);
            assert(sorted.to_multiset() == old(self).buffer@.to_multiset());
            assert(self.collected() =~= old(self).collected());
            assert(flushed_to(old(self).summary, old(self).pending(), self.summary)) by {
                assert(sorted == sort_spec(old(self).pending()));
                assert(self.summary.inserted() == old(self).summary.inserted() + sorted);
            }
        }
    }
}

/// At least `k` stream values stay at or below `v` when the first `k` do.
proof fn lemma_count_le_atleast(vs: Seq<i64>, v: i64, k: int)
    requires
        0 <= k <= vs.len(),
        forall|j: int| 0 <= j < k ==> vs[j] <= v,
    ensures
        count_le(vs, v) >= k,
    decreases vs.len(),
{
    if vs.len() > 0 {
        assert(forall|j: int| 0 <= j < vs.len() - 1 ==> vs.drop_last()[j] == vs[j]);
        if k == vs.len() {
            lemma_count_le_atleast(vs.drop_last(), v, k - 1);
            assert(vs.last() <= v);
        } else {
            lemma_count_le_atleast(vs.drop_last(), v, k);
        }
    }
}

/// At most `k` stream values sit strictly below `v` when everything from
/// position `k` on is at least `v`.
proof fn lemma_count_lt_atmost(vs: Seq<i64>, v: i64, k: int)
    requires
        0 <= k <= vs.len(),
        forall|j: int| k <= j < vs.len() ==> vs[j] >= v,
    ensures
        count_lt(vs, v) <= k,
    decreases vs.len(),
{
    if vs.len() > 0 {
        assert(forall|j: int| 0 <= j < vs.len() - 1 ==> vs.drop_last()[j] == vs[j]);
        if k < vs.len() {
            assert(vs.last() >= v);
            lemma_count_lt_atmost(vs.drop_last(), v, k);
        } else {
            lemma_count_lt_atmost(vs.drop_last(), v, k - 1);
        }
    }
}

/// A sorted run of exact samples carries the exact rank envelope: the
/// sample at position `i` claims rank `i + 1`, which is a true rank of its
/// value in the run.
proof fn lemma_exact_samples_envelope(sv: Seq<i64>)
    requires
        sorted_ints(sv),
    ensures
        envelope_within(exact_samples_of(sv), sv, 0),
{
    let s = exact_samples_of(sv);
    assert(all_exact(s));
    assert forall|i: int| 0 <= i < s.len() implies sum_g(s.take(i + 1)) <= count_le(
        sv,
        (#[trigger] s[i]).value,
    ) + 0 && count_lt(sv, s[i].value) <= sum_g(s.take(i + 1)) + s[i].delta - 1 + 0 by {
        lemma_min_rank_exact(s, i + 1);
        assert(s[i].value == sv[i]);
        lemma_count_le_atleast(sv, sv[i], i + 1);
        lemma_count_lt_atmost(sv, sv[i], i);
    }
}

/// A sorted value sequence turned into exact samples is a well-formed sample
/// stream that summarises exactly those values.
proof fn lemma_exact_samples_wf(samples: Seq<Sample>, values: Seq<i64>)
    requires
        samples.len() == values.len(),
        forall|k: int| 0 <= k < samples.len() ==> samples[k] == Sample::exact_spec(values[k]),
        sorted_ints(values),
    ensures
        wf_samples(samples, 0),
        tracks(samples, values),
    decreases samples.len(),
{
    if samples.len() > 0 {
        lemma_exact_samples_wf(samples.drop_last(), values.drop_last());
        assert(forall|k: int|
            0 <= k < samples.len() - 1 ==> samples.drop_last()[k] == samples[k]);
        assert(sum_g(samples) == sum_g(samples.drop_last()) + 1);
        assert(values.contains(values[0]));
        assert(values.contains(values[values.len() - 1]));
    } else {
        assert(sum_g(samples) == 0);
    }
}

/// The multiset of a concatenation is the sum of the multisets.
proof fn lemma_to_multiset_concat(a: Seq<i64>, b: Seq<i64>)
    ensures
        (a + b).to_multiset() == a.to_multiset().add(b.to_multiset()),
{
    vstd::seq_lib::lemma_multiset_commutative(a, b);
}

} // verus!
