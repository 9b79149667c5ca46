//! Ordered storage of the retained samples, with micro-compression on
//! insertion: a new value is absorbed into a neighbouring sample's `g`
//! whenever the capacity allows, so that no allocation takes place.

use vstd::prelude::*;

use crate::modified_gk::sample::{
    cap_bound, count_le, count_lt, envelope_within, gs_positive, is_max, is_min,
    lemma_count_bounds, lemma_count_push, sorted_values, sum_g, tracks, wf_samples, Sample,
};

verus! {

/// Index of the leftmost sample whose value is strictly greater than `v`
/// (`s.len()` if there is none).
pub open spec fn first_gt(s: Seq<Sample>, v: i64) -> int
    decreases s.len(),
{
    if s.len() == 0 {
        0
    } else if s[0].value > v {
        0
    } else {
        1 + first_gt(s.drop_first(), v)
    }
}

/// `first_gt` is the unique index `k` such that everything before `k` is at
/// most `v` and the sample at `k`, if any, is greater than `v`.
pub proof fn lemma_first_gt_char(s: Seq<Sample>, v: i64, k: int)
    requires
        0 <= k <= s.len(),
        forall|i: int| 0 <= i < k ==> s[i].value <= v,
        k < s.len() ==> s[k].value > v,
    ensures
        first_gt(s, v) == k,
    decreases s.len(),
{
    if s.len() == 0 {
    } else if k == 0 {
    } else {
        assert(s[0].value <= v);
        let d = s.drop_first();
        assert(forall|i: int| 0 <= i < k - 1 ==> d[i] == s[i + 1] && d[i].value <= v);
        assert(k - 1 < d.len() ==> d[k - 1] == s[k]);
        lemma_first_gt_char(d, v, k - 1);
    }
}

/// Basic bounds of `first_gt`.
pub proof fn lemma_first_gt_bounds(s: Seq<Sample>, v: i64)
    ensures
        0 <= first_gt(s, v) <= s.len(),
        forall|i: int| 0 <= i < first_gt(s, v) ==> s[i].value <= v,
        first_gt(s, v) < s.len() ==> s[first_gt(s, v)].value > v,
    decreases s.len(),
{
    if s.len() > 0 && !(s[0].value > v) {
        let d = s.drop_first();
        lemma_first_gt_bounds(d, v);
        assert(forall|i: int| 0 <= i < d.len() ==> d[i] == s[i + 1]);
        assert forall|i: int| 0 <= i < first_gt(s, v) implies s[i].value <= v by {
            if i > 0 {
                assert(d[i - 1] == s[i]);
                assert(d[i - 1].value <= v);
            }
        }
        if first_gt(s, v) < s.len() {
            assert(d[first_gt(d, v)] == s[first_gt(s, v)]);
        }
    }
}

/// The sample sequence after `v` is pushed at capacity `cap`, following the
/// insertion rules of the summary:
///
/// - into an empty sequence, `v` becomes the one exact sample;
/// - a new minimum is inserted exactly; if capacity allows, the previous
///   minimum is rolled into its successor;
/// - a new maximum is absorbed into the previous maximum when capacity
///   allows (keeping `delta = 0` at the right end), else inserted exactly;
/// - an intermediate value is micro-compressed into the sample to its right
///   when capacity allows, else inserted with `delta = g_right + delta_right - 1`.
pub open spec fn push_value_spec(s: Seq<Sample>, v: i64, cap: u64) -> Seq<Sample> {
    let idx = first_gt(s, v);
    if s.len() == 0 {
        seq![Sample::exact_spec(v)]
    } else if idx == 0 {
        if s.len() >= 2 && s[1].delta + s[1].g + 1 <= cap {
            seq![
                Sample::exact_spec(v),
                Sample { value: s[1].value, g: (s[1].g + 1) as u64, delta: s[1].delta },
            ] + s.skip(2)
        } else {
            seq![Sample::exact_spec(v)] + s
        }
    } else if idx == s.len() {
        if s.len() >= 2 && s.last().g + 1 <= cap {
            s.update(
                s.len() - 1,
                Sample { value: v, g: (s.last().g + 1) as u64, delta: s.last().delta },
            )
        } else {
            s.push(Sample::exact_spec(v))
        }
    } else {
        if s[idx].delta + s[idx].g + 1 <= cap {
            s.update(idx, Sample { value: s[idx].value, g: (s[idx].g + 1) as u64, delta: s[idx].delta })
        } else {
            s.insert(idx, Sample { value: v, g: 1, delta: (s[idx].g + s[idx].delta - 1) as u64 })
        }
    }
}

/// Pushing a value preserves well-formedness at any capacity whose bound is
/// at least the old one, adds exactly one to the total `g`, and keeps the
/// extreme samples at the exact minimum and maximum of the stream.
#[verifier::rlimit(100)]
pub proof fn lemma_push_value_wf(s: Seq<Sample>, vs: Seq<i64>, v: i64, cap: u64, old_cap: int)
    requires
        wf_samples(s, old_cap),
        tracks(s, vs),
        cap_bound(old_cap) <= cap_bound(cap as int),
    ensures
        wf_samples(push_value_spec(s, v, cap), cap as int),
        tracks(push_value_spec(s, v, cap), vs.push(v)),
        push_value_spec(s, v, cap).len() >= 1,
        push_value_spec(s, v, cap).len() <= s.len() + 1,
{
    lemma_first_gt_bounds(s, v);
    let idx = first_gt(s, v);
    let r = push_value_spec(s, v, cap);
    let vs2 = vs.push(v);
    assert(forall|i: int| 0 <= i < vs.len() ==> vs2[i] == vs[i]);
    if s.len() == 0 {
        assert(vs.len() == 0);
        assert(r =~= seq![Sample::exact_spec(v)]);
        assert(sum_g(r) == 1) by {
            assert(r.drop_last() =~= Seq::<Sample>::empty());
            assert(sum_g(Seq::<Sample>::empty()) == 0);
            assert(r.last() == Sample::exact_spec(v));
        }
        assert(vs2.contains(v)) by {
            assert(vs2[0] == v);
        }
    } else {
        assert(is_min(s[0].value, vs) && is_max(s.last().value, vs));
        assert(vs2.contains(v)) by {
            assert(vs2[vs.len() as int] == v);
        }
        if idx == 0 {
            assert(s[0].value > v);
            if s.len() >= 2 && s[1].delta + s[1].g + 1 <= cap {
                let m = Sample { value: s[1].value, g: (s[1].g + 1) as u64, delta: s[1].delta };
                assert(r =~= seq![Sample::exact_spec(v), m] + s.skip(2));
                assert(forall|i: int| 2 <= i < s.len() ==> r[i] == s[i]);
                assert(sum_g(r) == sum_g(s) + 1) by {
                    lemma_sum_g_two(Sample::exact_spec(v), m);
                    lemma_sum_g_two(s[0], s[1]);
                    assert(r.take(2) =~= seq![Sample::exact_spec(v), m]);
                    assert(s.take(2) =~= seq![s[0], s[1]]);
                    assert(s[0].g == 1);
                    lemma_sum_g_eq_except(r, s, 2);
                }
                assert(sorted_values(r));
                assert(r.last() == if s.len() == 2 { m } else { s.last() });
                assert(r.last().delta == s.last().delta);
                assert(is_min(r[0].value, vs2)) by {
                    assert(vs2[vs.len() as int] == v);
                }
                assert(is_max(r.last().value, vs2));
            } else {
                assert(r =~= seq![Sample::exact_spec(v)] + s);
                assert(forall|i: int| 0 <= i < s.len() ==> r[i + 1] == s[i]);
                assert(sum_g(r) == sum_g(s) + 1) by {
                    lemma_sum_g_prepend(s, Sample::exact_spec(v));
                }
                assert(r.last() == s.last());
                assert(is_min(r[0].value, vs2));
                assert(is_max(r.last().value, vs2));
            }
        } else if idx == s.len() {
            assert(forall|i: int| 0 <= i < s.len() ==> s[i].value <= v);
            if s.len() >= 2 && s.last().g + 1 <= cap {
                let m = Sample { value: v, g: (s.last().g + 1) as u64, delta: s.last().delta };
                assert(r =~= s.update(s.len() - 1, m));
                assert(forall|i: int| 0 <= i < s.len() - 1 ==> r[i] == s[i]);
                assert(sum_g(r) == sum_g(s) + 1) by {
                    assert(r.drop_last() =~= s.drop_last());
                }
                assert(r[0] == s[0]);
                assert(is_min(r[0].value, vs2));
                assert(is_max(r.last().value, vs2)) by {
                    assert(forall|i: int| 0 <= i < vs.len() ==> #[trigger] vs[i] <= s.last().value <= v);
                }
            } else {
                assert(r =~= s.push(Sample::exact_spec(v)));
                assert(sum_g(r) == sum_g(s) + 1) by {
                    crate::modified_gk::sample::lemma_sum_g_push(s, Sample::exact_spec(v));
                }
                assert(is_max(r.last().value, vs2)) by {
                    assert(forall|i: int| 0 <= i < vs.len() ==> #[trigger] vs[i] <= s.last().value <= v);
                }
                assert(is_min(r[0].value, vs2));
            }
        } else {
            assert(0 < idx < s.len());
            assert(s[idx].value > v);
            assert(s[idx - 1].value <= v);
            assert(s.last().value >= s[idx].value > v);
            assert(s[0].value <= v);
            if s[idx].delta + s[idx].g + 1 <= cap {
                let m = Sample {
                    value: s[idx].value,
                    g: (s[idx].g + 1) as u64,
                    delta: s[idx].delta,
                };
                assert(r =~= s.update(idx, m));
                assert(forall|i: int| 0 <= i < s.len() && i != idx ==> r[i] == s[i]);
                assert(sum_g(r) == sum_g(s) + 1) by {
                    lemma_sum_g_update(s, idx, m);
                }
                assert(r[0] == s[0] && r.last().delta == s.last().delta);
                assert(is_min(r[0].value, vs2));
                assert(is_max(r.last().value, vs2));
            } else {
                let m = Sample { value: v, g: 1, delta: (s[idx].g + s[idx].delta - 1) as u64 };
                assert(r =~= s.insert(idx, m));
                assert(forall|i: int| 0 <= i < idx ==> r[i] == s[i]);
                assert(forall|i: int| idx < i < r.len() ==> r[i] == s[i - 1]);
                assert(sum_g(r) == sum_g(s) + 1) by {
                    crate::modified_gk::sample::lemma_sum_g_concat(
                        s.take(idx).push(m),
                        s.skip(idx),
                    );
                    assert(r =~= s.take(idx).push(m) + s.skip(idx));
                    crate::modified_gk::sample::lemma_sum_g_push(s.take(idx), m);
                    crate::modified_gk::sample::lemma_sum_g_concat(s.take(idx), s.skip(idx));
                    assert(s =~= s.take(idx) + s.skip(idx));
                }
                assert(sorted_values(r)) by {
                    assert(forall|i: int| 0 <= i < idx ==> #[trigger] r[i].value == s[i].value && s[i].value <= v);
                    assert(forall|i: int|
                        idx < i < r.len() ==> #[trigger] r[i].value == s[i - 1].value && s[i
                            - 1].value >= s[idx].value);
                }
                assert(r[0] == s[0] && r.last() == s.last());
                assert(m.g + m.delta == s[idx].g + s[idx].delta <= cap_bound(old_cap));
                assert(is_min(r[0].value, vs2));
                assert(is_max(r.last().value, vs2));
            }
        }
    }
}

/// No value of the stream lies strictly below a lower bound of the stream.
proof fn lemma_count_lt_none(vs: Seq<i64>, v: i64)
    requires
        forall|i: int| 0 <= i < vs.len() ==> v <= #[trigger] vs[i],
    ensures
        count_lt(vs, v) == 0,
    decreases vs.len(),
{
    if vs.len() > 0 {
        assert(forall|i: int| 0 <= i < vs.len() - 1 ==> vs.drop_last()[i] == vs[i]);
        lemma_count_lt_none(vs.drop_last(), v);
    }
}

/// Every value of the stream is at most an upper bound of the stream.
proof fn lemma_count_le_all(vs: Seq<i64>, v: i64)
    requires
        forall|i: int| 0 <= i < vs.len() ==> #[trigger] vs[i] <= v,
    ensures
        count_le(vs, v) == vs.len(),
    decreases vs.len(),
{
    if vs.len() > 0 {
        assert(forall|i: int| 0 <= i < vs.len() - 1 ==> vs.drop_last()[i] == vs[i]);
        lemma_count_le_all(vs.drop_last(), v);
    }
}

/// Prefix sums after updating the sample at `j`.
proof fn lemma_sum_take_update(s: Seq<Sample>, j: int, m: Sample, k: int)
    requires
        0 <= j < s.len(),
        0 <= k <= s.len(),
    ensures
        sum_g(s.update(j, m).take(k)) == sum_g(s.take(k)) + if k > j {
            m.g - s[j].g
        } else {
            0int
        },
{
    if k <= j {
        assert(s.update(j, m).take(k) =~= s.take(k));
    } else {
        assert(s.update(j, m).take(k) =~= s.take(k).update(j, m));
        lemma_sum_g_update(s.take(k), j, m);
    }
}

/// Prefix sums after inserting a sample at `j`.
proof fn lemma_sum_take_insert(s: Seq<Sample>, j: int, x: Sample, k: int)
    requires
        0 <= j <= s.len(),
        0 <= k <= s.len() + 1,
    ensures
        sum_g(s.insert(j, x).take(k)) == if k > j {
            sum_g(s.take(k - 1)) + x.g
        } else {
            sum_g(s.take(k))
        },
{
    if k <= j {
        assert(s.insert(j, x).take(k) =~= s.take(k));
    } else {
        assert(s.insert(j, x).take(k) =~= s.take(j).push(x) + s.subrange(j, k - 1));
        crate::modified_gk::sample::lemma_sum_g_concat(s.take(j).push(x), s.subrange(j, k - 1));
        crate::modified_gk::sample::lemma_sum_g_push(s.take(j), x);
        assert(s.take(k - 1) =~= s.take(j) + s.subrange(j, k - 1));
        crate::modified_gk::sample::lemma_sum_g_concat(s.take(j), s.subrange(j, k - 1));
    }
}

/// Prefix sums only depend on the `g` fields.
proof fn lemma_sum_take_same_g(a: Seq<Sample>, b: Seq<Sample>, k: int)
    requires
        a.len() == b.len(),
        forall|i: int| 0 <= i < a.len() ==> (#[trigger] a[i]).g == b[i].g,
        0 <= k <= a.len(),
    ensures
        sum_g(a.take(k)) == sum_g(b.take(k)),
    decreases k,
{
    if k > 0 {
        lemma_sum_take_same_g(a, b, k - 1);
        assert(a.take(k).drop_last() =~= a.take(k - 1));
        assert(b.take(k).drop_last() =~= b.take(k - 1));
        assert(a.take(k).last() == a[k - 1]);
        assert(b.take(k).last() == b[k - 1]);
    }
}

/// Pushing a value preserves the rank envelope at any slack: every sample's
/// claimed rank range, widened by the slack, still covers the true rank
/// range of its value in the stream after the new value is accounted for.
#[verifier::rlimit(100)]
pub proof fn lemma_push_value_envelope(s: Seq<Sample>, vs: Seq<i64>, v: i64, cap: u64, slack: int)
    requires
        wf_samples(s, cap as int),
        tracks(s, vs),
        envelope_within(s, vs, slack),
        slack >= 0,
        forall|i: int| 0 <= i < s.len() ==> (#[trigger] s[i]).g + s[i].delta
            < 0xffff_ffff_ffff_ffff,
    ensures
        envelope_within(push_value_spec(s, v, cap), vs.push(v), slack),
{
    lemma_first_gt_bounds(s, v);
    let idx = first_gt(s, v);
    let r = push_value_spec(s, v, cap);
    let vs2 = vs.push(v);
    assert(forall|i: int| 0 <= i < vs.len() ==> vs2[i] == vs[i]);
    assert forall|w: i64| true implies count_lt(vs2, w) == count_lt(vs, w) + (if v < w {
        1int
    } else {
        0int
    }) && count_le(vs2, w) == count_le(vs, w) + (if v <= w {
        1int
    } else {
        0int
    }) by {
        lemma_count_push(vs, v, w);
    }
    if s.len() == 0 {
        assert(vs.len() == 0);
        assert(r =~= seq![Sample::exact_spec(v)]);
        assert(r.take(1) =~= r);
        assert(r.drop_last() =~= Seq::<Sample>::empty());
        assert(sum_g(Seq::<Sample>::empty()) == 0);
        assert(sum_g(r.take(1)) == 1);
        assert(count_le(vs2, v) == 1 && count_lt(vs2, v) == 0);
    } else {
        assert(is_min(s[0].value, vs) && is_max(s.last().value, vs));
        if idx == 0 {
            assert(s[0].value > v);
            assert(forall|i: int| 0 <= i < vs.len() ==> v <= #[trigger] vs[i]);
            lemma_count_lt_none(vs, v);
            lemma_count_bounds(vs, v, v);
            if s.len() >= 2 && s[1].delta + s[1].g + 1 <= cap {
                let m = Sample { value: s[1].value, g: (s[1].g + 1) as u64, delta: s[1].delta };
                let u = s.update(0, Sample::exact_spec(v)).update(1, m);
                assert(r =~= u);
                assert forall|i: int| 0 <= i < r.len() implies #[trigger] sum_g(r.take(i + 1))
                    == sum_g(s.take(i + 1)) + if i >= 1 {
                    1int
                } else {
                    0int
                } by {
                    lemma_sum_take_update(s, 0, Sample::exact_spec(v), i + 1);
                    lemma_sum_take_update(s.update(0, Sample::exact_spec(v)), 1, m, i + 1);
                    assert(s[0].g == 1);
                }
                assert forall|i: int| 0 <= i < r.len() implies sum_g(r.take(i + 1)) <= count_le(
                    vs2,
                    (#[trigger] r[i]).value,
                ) + slack && count_lt(vs2, r[i].value) <= sum_g(r.take(i + 1)) + r[i].delta - 1
                    + slack by {
                    if i == 0 {
                        assert(r[0] == Sample::exact_spec(v));
                        assert(s.take(1) =~= seq![s[0]]);
                        assert(seq![s[0]].drop_last() =~= Seq::<Sample>::empty());
                        assert(sum_g(Seq::<Sample>::empty()) == 0);
                        assert(seq![s[0]].last() == s[0]);
                        assert(sum_g(s.take(1)) == 1);
                        assert(count_le(vs2, v) >= 1);
                    } else {
                        assert(r[i].value == s[i].value && r[i].delta == s[i].delta);
                        assert(v <= s[i].value);
                        assert(count_le(vs2, s[i].value) == count_le(vs, s[i].value) + 1);
                        assert(count_lt(vs2, s[i].value) <= count_lt(vs, s[i].value) + 1);
                    }
                }
            } else {
                assert(r =~= s.insert(0, Sample::exact_spec(v)));
                assert forall|i: int| 0 <= i < r.len() implies sum_g(r.take(i + 1)) <= count_le(
                    vs2,
                    (#[trigger] r[i]).value,
                ) + slack && count_lt(vs2, r[i].value) <= sum_g(r.take(i + 1)) + r[i].delta - 1
                    + slack by {
                    lemma_sum_take_insert(s, 0, Sample::exact_spec(v), i + 1);
                    if i == 0 {
                        assert(r[0] == Sample::exact_spec(v));
                        assert(r.take(1) =~= seq![Sample::exact_spec(v)]);
                        assert(seq![Sample::exact_spec(v)].drop_last() =~= Seq::<Sample>::empty());
                        assert(sum_g(Seq::<Sample>::empty()) == 0);
                        assert(count_le(vs2, v) >= 1);
                    } else {
                        assert(r[i] == s[i - 1]);
                        assert(sum_g(r.take(i + 1)) == sum_g(s.take(i)) + 1);
                        assert(v <= s[i - 1].value);
                        assert(count_le(vs2, s[i - 1].value) == count_le(vs, s[i - 1].value) + 1);
                        assert(count_lt(vs2, s[i - 1].value) <= count_lt(vs, s[i - 1].value) + 1);
                    }
                }
            }
        } else if idx == s.len() {
            assert(forall|i: int| 0 <= i < s.len() ==> s[i].value <= v);
            assert(forall|i: int| 0 <= i < vs.len() ==> #[trigger] vs[i] <= s.last().value && s.last().value <= v);
            lemma_count_le_all(vs, v);
            lemma_count_bounds(vs, v, v);
            if s.len() >= 2 && s.last().g + 1 <= cap {
                let m = Sample { value: v, g: (s.last().g + 1) as u64, delta: s.last().delta };
                assert(r =~= s.update(s.len() - 1, m));
                assert forall|i: int| 0 <= i < r.len() implies sum_g(r.take(i + 1)) <= count_le(
                    vs2,
                    (#[trigger] r[i]).value,
                ) + slack && count_lt(vs2, r[i].value) <= sum_g(r.take(i + 1)) + r[i].delta - 1
                    + slack by {
                    lemma_sum_take_update(s, s.len() - 1, m, i + 1);
                    if i < s.len() - 1 {
                        assert(r[i] == s[i]);
                        assert(count_le(vs2, s[i].value) >= count_le(vs, s[i].value));
                        assert(count_lt(vs2, s[i].value) == count_lt(vs, s[i].value));
                    } else {
                        assert(r[i] == m);
                        assert(s.take(s.len() as int) =~= s);
                        assert(sum_g(r.take(i + 1)) == sum_g(s) + 1);
                        assert(count_le(vs2, v) == vs.len() + 1);
                        assert(count_lt(vs2, v) == count_lt(vs, v) <= vs.len());
                    }
                }
            } else {
                assert(r =~= s.push(Sample::exact_spec(v)));
                assert(r =~= s.insert(s.len() as int, Sample::exact_spec(v)));
                assert forall|i: int| 0 <= i < r.len() implies sum_g(r.take(i + 1)) <= count_le(
                    vs2,
                    (#[trigger] r[i]).value,
                ) + slack && count_lt(vs2, r[i].value) <= sum_g(r.take(i + 1)) + r[i].delta - 1
                    + slack by {
                    lemma_sum_take_insert(s, s.len() as int, Sample::exact_spec(v), i + 1);
                    if i < s.len() {
                        assert(r[i] == s[i]);
                        assert(count_le(vs2, s[i].value) >= count_le(vs, s[i].value));
                        assert(count_lt(vs2, s[i].value) == count_lt(vs, s[i].value));
                    } else {
                        assert(r[i] == Sample::exact_spec(v));
                        assert(s.take(s.len() as int) =~= s);
                        assert(sum_g(r.take(i + 1)) == sum_g(s) + 1);
                        assert(count_le(vs2, v) == vs.len() + 1);
                        assert(count_lt(vs2, v) == count_lt(vs, v) <= vs.len());
                    }
                }
            }
        } else {
            assert(0 < idx < s.len());
            assert(s[idx].value > v);
            assert(s[idx - 1].value <= v);
            if s[idx].delta + s[idx].g + 1 <= cap {
                let m = Sample {
                    value: s[idx].value,
                    g: (s[idx].g + 1) as u64,
                    delta: s[idx].delta,
                };
                assert(r =~= s.update(idx, m));
                assert forall|i: int| 0 <= i < r.len() implies sum_g(r.take(i + 1)) <= count_le(
                    vs2,
                    (#[trigger] r[i]).value,
                ) + slack && count_lt(vs2, r[i].value) <= sum_g(r.take(i + 1)) + r[i].delta - 1
                    + slack by {
                    lemma_sum_take_update(s, idx, m, i + 1);
                    if i < idx {
                        assert(r[i] == s[i]);
                        assert(s[i].value <= s[idx - 1].value <= v);
                        assert(count_le(vs2, s[i].value) >= count_le(vs, s[i].value));
                        assert(count_lt(vs2, s[i].value) == count_lt(vs, s[i].value));
                    } else {
                        assert(r[i].value == s[i].value && r[i].delta == s[i].delta);
                        assert(v < s[idx].value && s[idx].value <= s[i].value);
                        assert(count_le(vs2, s[i].value) == count_le(vs, s[i].value) + 1);
                        assert(count_lt(vs2, s[i].value) == count_lt(vs, s[i].value) + 1);
                    }
                }
            } else {
                let m = Sample { value: v, g: 1, delta: (s[idx].g + s[idx].delta - 1) as u64 };
                assert(r =~= s.insert(idx, m));
                assert forall|i: int| 0 <= i < r.len() implies sum_g(r.take(i + 1)) <= count_le(
                    vs2,
                    (#[trigger] r[i]).value,
                ) + slack && count_lt(vs2, r[i].value) <= sum_g(r.take(i + 1)) + r[i].delta - 1
                    + slack by {
                    lemma_sum_take_insert(s, idx, m, i + 1);
                    if i < idx {
                        assert(r[i] == s[i]);
                        assert(s[i].value <= s[idx - 1].value <= v);
                        assert(count_le(vs2, s[i].value) >= count_le(vs, s[i].value));
                        assert(count_lt(vs2, s[i].value) == count_lt(vs, s[i].value));
                    } else if i == idx {
                        assert(r[i] == m);
                        assert(sum_g(r.take(i + 1)) == sum_g(s.take(idx)) + 1);
                        // Lower rank claim: carried over from the left neighbour
                        assert(sum_g(s.take(idx)) <= count_le(vs, s[idx - 1].value) + slack);
                        lemma_count_bounds(vs, s[idx - 1].value, v);
                        assert(count_le(vs2, v) == count_le(vs, v) + 1);
                        // Upper rank claim: inherited from the right neighbour
                        lemma_count_bounds(vs, v, s[idx].value);
                        assert(count_lt(vs, v) <= count_lt(vs, s[idx].value));
                        assert(count_lt(vs, s[idx].value) <= sum_g(s.take(idx + 1)) + s[idx].delta
                            - 1 + slack);
                        assert(s.take(idx + 1).drop_last() =~= s.take(idx));
                        assert(s.take(idx + 1).last() == s[idx]);
                        assert(count_lt(vs2, v) == count_lt(vs, v));
                    } else {
                        assert(r[i] == s[i - 1]);
                        assert(sum_g(r.take(i + 1)) == sum_g(s.take(i)) + 1);
                        assert(v < s[idx].value && s[idx].value <= s[i - 1].value);
                        assert(count_le(vs2, s[i - 1].value) == count_le(vs, s[i - 1].value) + 1);
                        assert(count_lt(vs2, s[i - 1].value) == count_lt(vs, s[i - 1].value) + 1);
                    }
                }
            }
        }
    }
}

/// Two sequences of equal length that agree everywhere from `k` on and whose
/// prefixes' `g` sums differ by one.
proof fn lemma_sum_g_eq_except(r: Seq<Sample>, s: Seq<Sample>, k: int)
    requires
        r.len() == s.len(),
        0 <= k <= s.len(),
        forall|i: int| k <= i < s.len() ==> r[i] == s[i],
        sum_g(r.take(k)) == sum_g(s.take(k)) + 1,
    ensures
        sum_g(r) == sum_g(s) + 1,
    decreases s.len() - k,
{
    if k == s.len() {
        assert(r.take(k) =~= r);
        assert(s.take(k) =~= s);
    } else {
        assert(r.take(k + 1).drop_last() =~= r.take(k));
        assert(s.take(k + 1).drop_last() =~= s.take(k));
        assert(r.take(k + 1).last() == r[k]);
        assert(s.take(k + 1).last() == s[k]);
        lemma_sum_g_eq_except(r, s, k + 1);
    }
}

/// The `g` sum of a two-sample sequence.
proof fn lemma_sum_g_two(a: Sample, b: Sample)
    ensures
        sum_g(seq![a, b]) == a.g + b.g,
{
    let s = seq![a, b];
    assert(seq![a].drop_last() =~= Seq::<Sample>::empty());
    assert(sum_g(Seq::<Sample>::empty()) == 0);
    assert(seq![a].last() == a);
    assert(sum_g(seq![a]) == a.g);
    assert(s.drop_last() =~= seq![a]);
    assert(s.last() == b);
}

/// Prepending a sample adds its `g` to the total.
proof fn lemma_sum_g_prepend(s: Seq<Sample>, x: Sample)
    ensures
        sum_g(seq![x] + s) == x.g + sum_g(s),
    decreases s.len(),
{
    if s.len() == 0 {
        assert(seq![x] + s =~= seq![x]);
        assert((seq![x] + s).drop_last() =~= Seq::<Sample>::empty());
        assert(sum_g(Seq::<Sample>::empty()) == 0);
        assert((seq![x] + s).last() == x);
    } else {
        lemma_sum_g_prepend(s.drop_last(), x);
        assert((seq![x] + s).drop_last() =~= seq![x] + s.drop_last());
        assert((seq![x] + s).last() == s.last());
    }
}

/// Updating one sample changes the total by the difference of the `g`s.
proof fn lemma_sum_g_update(s: Seq<Sample>, i: int, m: Sample)
    requires
        0 <= i < s.len(),
    ensures
        sum_g(s.update(i, m)) == sum_g(s) - s[i].g + m.g,
    decreases s.len(),
{
    let r = s.update(i, m);
    if i == s.len() - 1 {
        assert(r.drop_last() =~= s.drop_last());
        assert(r.last() == m);
    } else {
        assert(r.drop_last() =~= s.drop_last().update(i, m));
        assert(r.last() == s.last());
        lemma_sum_g_update(s.drop_last(), i, m);
    }
}

/// The ordered sample container of a summary, kept sorted by value.
pub struct SamplesTree {
    samples: Vec<Sample>,
}

impl SamplesTree {
    /// The stored samples, in ascending value order.
    pub closed spec fn view(self) -> Seq<Sample> {
        self.samples@
    }

    /// Create a new empty tree.
    pub fn new() -> (t: SamplesTree)
        ensures
            t@ =~= Seq::<Sample>::empty(),
    {
        SamplesTree { samples: Vec::new() }
    }

    /// Return the number of stored samples.
    pub fn len(&self) -> (n: usize)
        ensures
            n == self@.len(),
    {
        self.samples.len()
    }

    /// The stored samples as a vector of `(value, g, delta)` triples.
    pub fn spec_triples(&self) -> (r: Vec<(i64, u64, u64)>)
        ensures
            r@.len() == self@.len(),
            forall|i: int|
                0 <= i < self@.len() ==> r@[i] == (self@[i].value, self@[i].g, self@[i].delta),
    {
        let mut r: Vec<(i64, u64, u64)> = Vec::new();
        let mut i: usize = 0;
        while i < self.samples.len()
            invariant
                0 <= i <= self.samples.len(),
                r@.len() == i,
                forall|j: int|
                    0 <= j < i ==> r@[j] == (
                        self.samples@[j].value,
                        self.samples@[j].g,
                        self.samples@[j].delta,
                    ),
            decreases self.samples.len() - i,
        {
            let s = self.samples[i];
            r.push((s.value, s.g, s.delta));
            i = i + 1;
        }
        r
    }

    /// Leftmost index whose sample value is strictly greater than `v`, found
    /// by binary search.
    fn search_first_gt(&self, v: i64) -> (idx: usize)
        requires
            sorted_values(self@),
        ensures
            idx == first_gt(self@, v),
    {
        let s = &self.samples;
        let mut lo: usize = 0;
        let mut hi: usize = s.len();
        while lo < hi
            invariant
                0 <= lo <= hi <= s@.len(),
                sorted_values(s@),
                forall|i: int| 0 <= i < lo ==> s@[i].value <= v,
                forall|i: int| hi <= i < s@.len() ==> s@[i].value > v,
            decreases hi - lo,
        {
            let mid = lo + (hi - lo) / 2;
            if s[mid].value > v {
                hi = mid;
            } else {
                lo = mid + 1;
            }
        }
        proof {
            lemma_first_gt_char(s@, v, lo as int);
        }
        lo
    }

    /// Insert a new value into the tree, by actually adding a sample or by
    /// updating a neighbouring sample's `g` (micro-compression), at capacity
    /// `cap`.
    pub fn push_value(&mut self, value: i64, cap: u64)
        requires
            sorted_values(old(self)@),
            gs_positive(old(self)@),
            forall|i: int|
                0 <= i < old(self)@.len() ==> old(self)@[i].g + old(self)@[i].delta
                    < 0xffff_ffff_ffff_ffff,
        ensures
            final(self)@ == push_value_spec(old(self)@, value, cap),
    {
        proof {
            lemma_first_gt_bounds(self@, value);
        }
        let ghost s0 = self@;
        let n = self.samples.len();
        let idx = self.search_first_gt(value);
        if n == 0 {
            self.samples.push(Sample::exact(value));
            proof {
                assert(self@ =~= push_value_spec(s0, value, cap));
            }
        } else if idx == 0 {
            // New minimum
            let roll = if n >= 2 {
                let after = self.samples[1];
                after.delta as u128 + after.g as u128 + 1 <= cap as u128
            } else {
                false
            };
            if roll {
                let after = self.samples[1];
                let merged = Sample { value: after.value, g: after.g + 1, delta: after.delta };
                self.samples.set(1, merged);
                self.samples.set(0, Sample::exact(value));
                proof {
                    assert(self@ =~= push_value_spec(s0, value, cap));
                }
            } else {
                self.samples.insert(0, Sample::exact(value));
                proof {
                    assert(self@ =~= push_value_spec(s0, value, cap));
                }
            }
        } else if idx == n {
            // New maximum
            let last = self.samples[n - 1];
            if n >= 2 && last.g as u128 + 1 <= cap as u128 {
                let merged = Sample { value, g: last.g + 1, delta: last.delta };
                self.samples.set(n - 1, merged);
                proof {
                    assert(self@ =~= push_value_spec(s0, value, cap));
                }
            } else {
                self.samples.push(Sample::exact(value));
                proof {
                    assert(self@ =~= push_value_spec(s0, value, cap));
                }
            }
        } else {
            // Somewhere in the middle
            let right = self.samples[idx];
            if right.delta as u128 + right.g as u128 + 1 <= cap as u128 {
                let merged = Sample { value: right.value, g: right.g + 1, delta: right.delta };
                self.samples.set(idx, merged);
                proof {
                    assert(self@ =~= push_value_spec(s0, value, cap));
                }
            } else {
                let delta = right.g + right.delta - 1;
                self.samples.insert(idx, Sample { value, g: 1, delta });
                proof {
                    assert(self@ =~= push_value_spec(s0, value, cap));
                }
            }
        }
    }

    /// The sample at position `i`.
    pub fn get(&self, i: usize) -> (s: Sample)
        requires
            i < self@.len(),
        ensures
            s == self@[i as int],
    {
        self.samples[i]
    }

    /// Move the stored samples out, leaving the tree empty.
    pub fn take_samples(&mut self) -> (r: Vec<Sample>)
        ensures
            r@ == old(self)@,
            final(self)@ =~= Seq::<Sample>::empty(),
    {
        let mut v: Vec<Sample> = Vec::new();
        std::mem::swap(&mut v, &mut self.samples);
        v
    }

    /// Wrap an already compressed, sorted sample vector.
    pub fn from_samples(samples: Vec<Sample>) -> (t: SamplesTree)
        ensures
            t@ == samples@,
    {
        SamplesTree { samples }
    }
}

} // verus!
