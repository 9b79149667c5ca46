//! The classic Greenwald-Khanna summary: plain insertion, band-based
//! compression and the original query rule. This is not meant to be a
//! performant implementation, but a correct baseline against which the
//! modified variant can be tested.

use vstd::arithmetic::div_mod::lemma_fundamental_div_mod;
use vstd::prelude::*;

use crate::gk::sample::{
    deltas_within, gs_positive, lemma_sum_g_each, lemma_sum_g_least, lemma_sum_g_prefix,
    lemma_sum_g_push, sorted_values, sum_g, Sample,
};
use crate::modified_gk::summary::{
    cap_of, lemma_cap_of_monotone, lemma_cap_of_range, LEN_LIMIT,
};
use crate::rank_spec;
use vstd::arithmetic::power2::pow2;

verus! {

/// `floor(log2(p))` for `p >= 1` (0 for smaller `p`).
pub open spec fn log2_floor(p: int) -> nat
    decreases p,
{
    if p < 2 {
        0
    } else {
        1 + log2_floor(p / 2)
    }
}

/// The lower bound of band `a`: `p - 2^a - (p mod 2^a)`.
pub open spec fn band_lower_bound(p: int, a: nat) -> int {
    p - pow2(a) - (p % (pow2(a) as int))
}

/// The smallest `a` starting at `a0` whose band admits `delta`.
pub open spec fn band_search(delta: int, p: int, a0: nat) -> nat
    decreases 65 - a0,
{
    if a0 > 64 {
        0
    } else if delta > band_lower_bound(p, a0) {
        a0
    } else {
        band_search(delta, p, a0 + 1)
    }
}

/// The band classification of `delta` under `p = floor(2 * eps * n)`:
/// `delta = 0` sits in the highest band `floor(log2(p)) + 1`, `delta = p`
/// in band 0, and otherwise the band is the smallest `a` with
/// `delta > p - 2^a - (p mod 2^a)`.
pub open spec fn band_spec(delta: int, p: int) -> nat {
    if delta == 0 {
        if p == 0 {
            0
        } else {
            log2_floor(p) + 1
        }
    } else {
        band_search(delta, p, 0)
    }
}



/// The samples with their cached bands refreshed for `p`.
pub open spec fn gk_with_bands(s: Seq<Sample>, p: int) -> Seq<Sample> {
    Seq::new(
        s.len(),
        |i: int|
            Sample {
                value: s[i].value,
                g: s[i].g,
                delta: s[i].delta,
                band: band_spec(s[i].delta as int, p) as u64,
            },
    )
}

/// First index of the descendent run of the sample at `i`: the preceding
/// contiguous samples of strictly smaller band, scanned down from `j`;
/// the minimum at position 0 is never included.
pub open spec fn gk_descendents_start(s: Seq<Sample>, i: int, j: int) -> int
    decreases j,
{
    if j <= 1 {
        j
    } else if s[j - 1].band < s[i].band {
        gk_descendents_start(s, i, j - 1)
    } else {
        j
    }
}

/// The band-based right-to-left pass of the baseline compression, examining
/// positions `i - 1` down to `1`: a sample whose band does not exceed its
/// right neighbour's merges, together with its descendent run, into that
/// neighbour whenever the combined `g` plus the neighbour's `delta` stays
/// below the capacity.
pub open spec fn gk_compress_loop(s: Seq<Sample>, i: int, cap: int) -> Seq<Sample>
    decreases i,
{
    if i <= 1 {
        s
    } else {
        let j = i - 1;
        if j + 1 < s.len() {
            let next = s[j + 1];
            if s[j].band > next.band {
                gk_compress_loop(s, j, cap)
            } else {
                // The scan stays within [1, j] on any input reached here;
                // the clamp keeps the recursion well-founded on all inputs
                let fd_raw = gk_descendents_start(s, j, j);
                let fd = if 1 <= fd_raw <= j {
                    fd_raw
                } else {
                    j
                };
                let g_star = sum_g(s.subrange(fd, j + 1));
                if g_star + next.g + next.delta >= cap {
                    gk_compress_loop(s, j, cap)
                } else {
                    let updated = s.update(
                        j + 1,
                        Sample {
                            value: next.value,
                            g: (g_star + next.g) as u64,
                            delta: next.delta,
                            band: next.band,
                        },
                    );
                    let shrunk = updated.take(fd) + updated.skip(j + 1);
                    gk_compress_loop(shrunk, fd, cap)
                }
            }
        } else {
            gk_compress_loop(s, j, cap)
        }
    }
}

/// What the baseline compression leaves behind: fewer than three samples
/// are kept as they are; otherwise the bands are refreshed for the current
/// capacity and the right-to-left merge pass runs once.
pub open spec fn gk_compress_spec(s: Seq<Sample>, cap: int) -> Seq<Sample> {
    if s.len() < 3 {
        s
    } else {
        gk_compress_loop(gk_with_bands(s, cap), s.len() - 1, cap)
    }
}

/// How often the baseline compresses: every `ceil(1 / (2 * eps))` inserts.
pub open spec fn gk_compress_frequency(num: int, den: int) -> int {
    crate::ceil_div(den, 2 * num)
}

/// The baseline Greenwald-Khanna summary over a sorted sample vector.
pub struct Summary {
    samples: Vec<Sample>,
    /// Maximum rank error, as the fraction `eps_num / eps_den`
    eps_num: u64,
    eps_den: u64,
    /// Number of values already seen
    len: u64,
}

impl Summary {
    /// Numerator of the error bound.
    pub closed spec fn epsilon_num(self) -> u64 {
        self.eps_num
    }

    /// Denominator of the error bound.
    pub closed spec fn epsilon_den(self) -> u64 {
        self.eps_den
    }

    /// Number of values inserted so far.
    pub closed spec fn spec_len(self) -> u64 {
        self.len
    }

    /// The retained samples, sorted by value.
    pub closed spec fn samples_seq(self) -> Seq<Sample> {
        self.samples@
    }

    /// The current capacity `floor(2 * eps * len)`.
    pub open spec fn spec_cap(self) -> int {
        cap_of(self.epsilon_num() as int, self.epsilon_den() as int, self.spec_len() as int)
    }

    /// Structural well-formedness: a valid error bound, sorted samples with
    /// positive `g` adding up to `len`, and rank uncertainties within the
    /// capacity.
    pub closed spec fn wf(self) -> bool {
        &&& 0 < self.eps_num < self.eps_den <= LEN_LIMIT
        &&& self.len <= LEN_LIMIT
        &&& sorted_values(self.samples@)
        &&& gs_positive(self.samples@)
        &&& sum_g(self.samples@) == self.len
        &&& deltas_within(self.samples@, self.spec_cap())
        &&& (self.len == 0 <==> self.samples@.len() == 0)
    }

    /// Facts about a well-formed summary available outside this module.
    pub proof fn lemma_wf_facts(self)
        requires
            self.wf(),
        ensures
            0 < self.epsilon_num() < self.epsilon_den() <= LEN_LIMIT,
            self.spec_len() <= LEN_LIMIT,
            self.spec_len() == 0 <==> self.samples_seq().len() == 0,
    {
    }

    /// Create a new empty summary for the error bound `eps_num / eps_den`.
    pub fn new(eps_num: u64, eps_den: u64) -> (s: Summary)
        requires
            0 < eps_num < eps_den,
            eps_den <= LEN_LIMIT,
        ensures
            s.wf(),
            s.spec_len() == 0,
            s.samples_seq() =~= Seq::<Sample>::empty(),
            s.epsilon_num() == eps_num,
            s.epsilon_den() == eps_den,
    {
        let s = Summary { samples: Vec::new(), eps_num, eps_den, len: 0 };
        proof {
            assert(sum_g(s.samples@) == 0);
        }
        s
    }

    /// Assemble a summary from parts, for cross-checking known sample sets.
    pub fn from_parts(samples: Vec<Sample>, eps_num: u64, eps_den: u64, len: u64) -> (s: Summary)
        requires
            0 < eps_num < eps_den <= LEN_LIMIT,
            len <= LEN_LIMIT,
            sorted_values(samples@),
            gs_positive(samples@),
            sum_g(samples@) == len,
            deltas_within(samples@, cap_of(eps_num as int, eps_den as int, len as int)),
            len == 0 <==> samples@.len() == 0,
        ensures
            s.wf(),
            s.spec_len() == len,
            s.samples_seq() == samples@,
            s.epsilon_num() == eps_num,
            s.epsilon_den() == eps_den,
    {
        Summary { samples, eps_num, eps_den, len }
    }

    /// Number of inserted values.
    pub fn len(&self) -> (n: u64)
        ensures
            n == self.spec_len(),
    {
        self.len
    }

    /// The retained samples as `(value, g, delta)` triples, in value order.
    pub fn samples_spec(&self) -> (r: Vec<(i64, u64, u64)>)
        ensures
            r@.len() == self.samples_seq().len(),
            forall|i: int|
                0 <= i < r@.len() ==> r@[i] == (
                    self.samples_seq()[i].value,
                    self.samples_seq()[i].g,
                    self.samples_seq()[i].delta,
                ),
    {
        let mut r: Vec<(i64, u64, u64)> = Vec::new();
        let mut i: usize = 0;
        while i < self.samples.len()
            invariant
                0 <= i <= self.samples@.len(),
                r@.len() == i,
                forall|j: int|
                    0 <= j < i ==> r@[j] == (
                        self.samples@[j].value,
                        self.samples@[j].g,
                        self.samples@[j].delta,
                    ),
            decreases self.samples@.len() - i,
        {
            let s = self.samples[i];
            r.push((s.value, s.g, s.delta));
            i = i + 1;
        }
        r
    }

    /// The current capacity `floor(2 * eps * len)`.
    fn max_g_delta(&self) -> (r: u64)
        requires
            0 < self.eps_num < self.eps_den <= LEN_LIMIT,
            self.len <= LEN_LIMIT,
        ensures
            r as int == self.spec_cap(),
    {
        proof {
            assert(2 * (self.eps_num as int) * (self.len as int) <= 4 * (LEN_LIMIT as int) * (
            LEN_LIMIT as int)) by (nonlinear_arith)
                requires
                    0 < self.eps_num <= LEN_LIMIT,
                    self.len <= LEN_LIMIT,
            ;
            lemma_cap_of_range(self.eps_num as int, self.eps_den as int, self.len as int);
        }
        let p: u128 = 2 * (self.eps_num as u128) * (self.len as u128);
        let q: u128 = p / (self.eps_den as u128);
        proof {
            assert(p == 2 * (self.eps_num as int) * (self.len as int)) by (nonlinear_arith)
                requires
                    p == 2 * (self.eps_num as u128) * (self.len as u128),
                    self.eps_num <= LEN_LIMIT,
                    self.len <= LEN_LIMIT,
            ;
        }
        q as u64
    }

    /// Calculate the band for a given `delta` and `p = floor(2 * eps * n)`.
    /// The valid interval of `delta` is split into bands starting from the
    /// right: band 0 holds `delta = p` alone, and each higher band `a`
    /// covers `p - 2^a - (p mod 2^a) < delta <= p - 2^(a-1) - (p mod 2^(a-1))`,
    /// with `delta = 0` in the highest band `floor(log2(p)) + 1`.
    pub fn band(delta: u64, p: u64) -> (r: u64)
        requires
            delta <= p,
            p <= 4 * LEN_LIMIT,
        ensures
            r as nat == band_spec(delta as int, p as int),
    {
        if delta == 0 {
            if p == 0 {
                return 0;
            }
            // floor(log2(p)) + 1, by repeated halving
            proof {
                lemma_log2_small(p as int);
            }
            let mut q: u64 = p;
            let mut k: u64 = 0;
            while q >= 2
                invariant
                    1 <= q <= p,
                    k <= log2_floor(p as int),
                    log2_floor(p as int) < p,
                    log2_floor(p as int) == k + log2_floor(q as int),
                decreases q,
            {
                proof {
                    lemma_log2_small(q as int);
                }
                q = q / 2;
                k = k + 1;
            }
            return k + 1;
        }
        // Search for increasing `a`: only the lower bound needs checking
        proof {
            vstd::arithmetic::power2::lemma2_to64();
        }
        let mut a: u64 = 0;
        let mut pw: u64 = 1;
        loop
            invariant
                1 <= delta <= p,
                p <= 4 * LEN_LIMIT,
                pw == pow2(a as nat),
                1 <= pw <= 2 * p,
                a <= 64,
                band_search(delta as int, p as int, 0) == band_search(delta as int, p as int, a as nat),
            ensures
                a as nat == band_search(delta as int, p as int, 0),
            decreases 2 * (p as int) - pw,
        {
            let lower: i128 = p as i128 - pw as i128 - (p % pw) as i128;
            proof {
                assert(lower == band_lower_bound(p as int, a as nat));
            }
            if delta as i128 > lower {
                proof {
                    assert(band_search(delta as int, p as int, a as nat) == a as nat);
                }
                break ;
            }
            proof {
                // The search continues, so the current power is below p
                vstd::arithmetic::div_mod::lemma_mod_bound(p as int, pw as int);
                assert(delta as int <= band_lower_bound(p as int, a as nat));
                assert(pw as int <= p - 1 - (p as int % pw as int) < p);
                broadcast use vstd::arithmetic::power2::lemma_pow2_pos;
                assert(pow2((a + 1) as nat) == 2 * pow2(a as nat)) by {
                    vstd::arithmetic::power2::lemma_pow2_adds(a as nat, 1);
                    vstd::arithmetic::power2::lemma2_to64();
                }
                if a >= 64 {
                    vstd::arithmetic::power2::lemma2_to64();
                    if a > 64 {
                        vstd::arithmetic::power2::lemma_pow2_strictly_increases(64, a as nat);
                    }
                    assert(pw >= pow2(64));
                    assert(false);
                }
            }
            a = a + 1;
            pw = pw * 2;
        }
        a
    }

    /// Update the cached band of every sample for the given `p`.
    fn update_bands(&mut self, p: u64)
        requires
            0 < old(self).eps_num < old(self).eps_den <= LEN_LIMIT,
            old(self).len <= LEN_LIMIT,
            p <= 4 * LEN_LIMIT,
            forall|i: int| 0 <= i < old(self).samples@.len() ==> old(self).samples@[i].delta <= p,
        ensures
            final(self).eps_num == old(self).eps_num,
            final(self).eps_den == old(self).eps_den,
            final(self).len == old(self).len,
            final(self).samples@.len() == old(self).samples@.len(),
            final(self).samples@ == gk_with_bands(old(self).samples@, p as int),
            forall|i: int|
                0 <= i < final(self).samples@.len() ==> (#[trigger] final(self).samples@[i]).value
                    == old(self).samples@[i].value && final(self).samples@[i].g == old(self).samples@[i].g && final(self).samples@[i].delta == old(self).samples@[i].delta
                    && final(self).samples@[i].band as nat == band_spec(
                    old(self).samples@[i].delta as int,
                    p as int,
                ),
    {
        let mut i: usize = 0;
        while i < self.samples.len()
            invariant
                0 <= i <= self.samples@.len(),
                self.samples@.len() == old(self).samples@.len(),
                self.eps_num == old(self).eps_num,
                self.eps_den == old(self).eps_den,
                self.len == old(self).len,
                p <= 4 * LEN_LIMIT,
                forall|j: int| i <= j < self.samples@.len() ==> self.samples@[j] == old(self).samples@[j],
                forall|j: int|
                    0 <= j < i ==> (#[trigger] self.samples@[j]).value == old(self).samples@[j].value && self.samples@[j].g == old(self).samples@[j].g
                        && self.samples@[j].delta == old(self).samples@[j].delta
                        && self.samples@[j].band as nat == band_spec(
                        old(self).samples@[j].delta as int,
                        p as int,
                    ),
                forall|j: int| 0 <= j < old(self).samples@.len() ==> old(self).samples@[j].delta <= p,
            decreases self.samples@.len() - i,
        {
            let s = self.samples[i];
            let b = Summary::band(s.delta, p);
            self.samples.set(i, Sample { band: b, ..s });
            i = i + 1;
        }
        proof {
            assert(self.samples@ =~= gk_with_bands(old(self).samples@, p as int));
        }
    }
}

impl Summary {
    /// Insert a single new sample into the structure, without triggering a
    /// compression: a new extreme is exact, an intermediate value enters
    /// with the full current rank uncertainty.
    pub fn insert_without_compression(&mut self, value: i64)
        requires
            old(self).wf(),
            old(self).spec_len() < LEN_LIMIT,
        ensures
            final(self).wf(),
            final(self).spec_len() == old(self).spec_len() + 1,
            final(self).epsilon_num() == old(self).epsilon_num(),
            final(self).epsilon_den() == old(self).epsilon_den(),
            final(self).samples_seq() == gk_insert_spec(
                old(self).samples_seq(),
                value,
                final(self).spec_cap() as u64,
            ),
    {
        let ghost old_cap = self.spec_cap();
        self.len = self.len + 1;
        proof {
            lemma_cap_of_monotone(
                self.eps_num as int,
                self.eps_den as int,
                self.len as int - 1,
                self.len as int,
            );
            lemma_cap_of_range(self.eps_num as int, self.eps_den as int, self.len as int);
        }
        let cap = self.max_g_delta();
        let ghost s0 = self.samples@;
        let n = self.samples.len();

        // Special case: new minimum (or empty)
        if n == 0 || value < self.samples[0].value {
            self.samples.insert(0, Sample::new(value, 0));
            proof {
                assert(self.samples@ =~= gk_insert_spec(s0, value, cap));
                assert(forall|j: int| 0 <= j < s0.len() ==> self.samples@[j + 1] == s0[j]);
                lemma_gk_sum_prepend(s0, (Sample { value, g: 1, delta: 0, band: 0 }));
            }
            return ;
        }
        // Special case: new maximum
        if value >= self.samples[n - 1].value {
            self.samples.push(Sample::new(value, 0));
            proof {
                assert(self.samples@ =~= gk_insert_spec(s0, value, cap));
                lemma_sum_g_push(s0, (Sample { value, g: 1, delta: 0, band: 0 }));
            }
            return ;
        }
        // Find the point of insertion `i` such that v[i-1] <= value < v[i]
        let mut i: usize = 1;
        while i < n && self.samples[i].value <= value
            invariant
                1 <= i <= n,
                n == self.samples@.len(),
                self.samples@ == s0,
                forall|j: int| 0 <= j < i ==> self.samples@[j].value <= value,
            decreases n - i,
        {
            i = i + 1;
        }
        proof {
            assert(s0[n - 1].value > value);
            assert(i < n);
            lemma_first_gt_char(s0, value, i as int);
        }
        let inserted = Sample { value, g: 1, delta: cap, band: 0 };
        self.samples.insert(i, inserted);
        proof {
            assert(self.samples@ =~= gk_insert_spec(s0, value, cap));
            assert(self.samples@ =~= s0.take(i as int).push(inserted) + s0.skip(i as int));
            crate::gk::sample::lemma_sum_g_concat(s0.take(i as int).push(inserted), s0.skip(i as int));
            lemma_sum_g_push(s0.take(i as int), inserted);
            crate::gk::sample::lemma_sum_g_concat(s0.take(i as int), s0.skip(i as int));
            assert(s0 =~= s0.take(i as int) + s0.skip(i as int));
            assert(sorted_values(self.samples@)) by {
                assert(forall|j: int| 0 <= j < i ==> self.samples@[j] == s0[j]);
                assert(forall|j: int|
                    i < j < self.samples@.len() ==> #[trigger] self.samples@[j] == s0[j - 1]
                        && s0[j - 1].value >= s0[i as int].value);
            }
        }
    }

    /// Insert a new value into the summary; the summary is compressed every
    /// `ceil(1 / (2 * eps))` insertions to keep only some samples: the new
    /// state is exactly a plain insertion, preceded by one compression pass
    /// when the periodic trigger fires.
    pub fn insert_one(&mut self, value: i64)
        requires
            old(self).wf(),
            old(self).spec_len() < LEN_LIMIT,
        ensures
            final(self).wf(),
            final(self).spec_len() == old(self).spec_len() + 1,
            final(self).epsilon_num() == old(self).epsilon_num(),
            final(self).epsilon_den() == old(self).epsilon_den(),
            final(self).samples_seq() == ({
                let pre = if old(self).spec_len() > 0 && old(self).spec_len() as int
                    % gk_compress_frequency(
                    old(self).epsilon_num() as int,
                    old(self).epsilon_den() as int,
                ) == 0 {
                    gk_compress_spec(old(self).samples_seq(), old(self).spec_cap())
                } else {
                    old(self).samples_seq()
                };
                gk_insert_spec(
                    pre,
                    value,
                    cap_of(
                        old(self).epsilon_num() as int,
                        old(self).epsilon_den() as int,
                        old(self).spec_len() + 1,
                    ) as u64,
                )
            }),
    {
        let compress_frequency = (self.eps_den + 2 * self.eps_num - 1) / (2 * self.eps_num);
        proof {
            crate::modified_gk::summary::lemma_mul_le_div(
                1,
                self.eps_den + 2 * self.eps_num - 1,
                2 * self.eps_num as int,
            );
        }
        if self.len > 0 && self.len % compress_frequency == 0 {
            self.compress();
        }
        self.insert_without_compression(value);
    }

    /// Compress the summary with the classic band-based right-to-left pass,
    /// so that it will probably use less memory but still answer any
    /// quantile query within the error margin. Keeps the samples sorted,
    /// the total `g`, and the extreme values; a summary with fewer than
    /// three samples is left as it is.
    pub fn compress(&mut self)
        requires
            old(self).wf(),
        ensures
            final(self).wf(),
            final(self).spec_len() == old(self).spec_len(),
            final(self).epsilon_num() == old(self).epsilon_num(),
            final(self).epsilon_den() == old(self).epsilon_den(),
            final(self).samples_seq() == gk_compress_spec(
                old(self).samples_seq(),
                old(self).spec_cap(),
            ),
            final(self).samples_seq().len() <= old(self).samples_seq().len(),
            old(self).samples_seq().len() > 0 ==> final(self).samples_seq().len() > 0 && final(self).samples_seq()[0].value == old(self).samples_seq()[0].value && final(self).samples_seq()[0].g == old(self).samples_seq()[0].g && final(self).samples_seq()[0].delta == old(self).samples_seq()[0].delta && final(self).samples_seq().last().value == old(self).samples_seq().last().value,
    {
        if self.samples.len() < 3 {
            return ;
        }
        let compression_threshold = self.max_g_delta();
        proof {
            lemma_cap_of_range(self.eps_num as int, self.eps_den as int, self.len as int);
        }
        self.update_bands(compression_threshold);
        let ghost s0 = old(self).samples@;
        let ghost cap = compression_threshold as int;
        let ghost banded = gk_with_bands(s0, cap);
        proof {
            assert(sorted_values(self.samples@));
            assert(gs_positive(self.samples@));
            assert(sum_g(self.samples@) == self.len) by {
                lemma_gk_sum_same_g(old(self).samples@, self.samples@);
            }
            assert(self.samples@ == banded);
        }

        // Iterate over each pair of samples in reverse order to merge them
        let mut i = self.samples.len() - 1;
        while i > 1
            invariant
                self.eps_num == old(self).eps_num,
                self.eps_den == old(self).eps_den,
                self.len == old(self).len,
                self.wf(),
                i < self.samples@.len(),
                2 <= self.samples@.len(),
                compression_threshold as int == cap,
                gk_compress_loop(self.samples@, i as int, cap) == gk_compress_loop(
                    banded,
                    banded.len() - 1,
                    cap,
                ),
                self.samples@[0].value == s0[0].value,
                self.samples@[0].g == s0[0].g,
                self.samples@[0].delta == s0[0].delta,
                self.samples@.last().value == s0.last().value,
                self.samples@.len() <= s0.len(),
            decreases i,
    {
            let ghost i0 = i as int;
            let ghost scur = self.samples@;
            i = i - 1;

            let sample = self.samples[i];
            let next_sample = self.samples[i + 1];

            if sample.band > next_sample.band {
                // Can't be merged: incompatible bands
                proof {
                    assert(gk_compress_loop(scur, i0, cap) == gk_compress_loop(
                        scur,
                        i as int,
                        cap,
                    ));
                }
                continue ;
            }
            let (first_descendent, g_star) = self.scan_all_descendents(i);
            proof {
                lemma_sum_g_each(self.samples@, i + 1);
            }
            let new_g = g_star + next_sample.g;
            if new_g >= compression_threshold || compression_threshold - new_g
                <= next_sample.delta {
                // Can't be merged: would produce a full sample
                proof {
                    assert(g_star + next_sample.g + next_sample.delta >= cap);
                    assert(gk_compress_loop(scur, i0, cap) == gk_compress_loop(
                        scur,
                        i as int,
                        cap,
                    ));
                }
                continue ;
            }
            proof {
                assert(g_star + next_sample.g + next_sample.delta < cap);
            }
            // Merge [first_descendent, i] into i + 1
            let ghost before = self.samples@;
            self.samples.set(i + 1, Sample { g: new_g, ..next_sample });
            let ghost updated = self.samples@;
            // Remove the merged run
            let mut removed: usize = 0;
            let count = i + 1 - first_descendent;
            while removed < count
                invariant
                    self.eps_num == old(self).eps_num,
                    self.eps_den == old(self).eps_den,
                    self.len == old(self).len,
                    first_descendent + count == i + 1,
                    i + 1 < updated.len(),
                    0 <= removed <= count,
                    self.samples@ =~= updated.take(first_descendent as int) + updated.skip(
                        first_descendent + removed,
                    ),
                decreases count - removed,
            {
                proof {
                    assert(self.samples@.len() == updated.len() - removed);
                }
                self.samples.remove(first_descendent);
                removed = removed + 1;
                proof {
                    assert(self.samples@ =~= updated.take(first_descendent as int) + updated.skip(
                        first_descendent + removed,
                    ));
                }
            }
            proof {
                lemma_gk_compress_step(before, updated, first_descendent as int, i as int, g_star as int);
                assert(self.samples@ =~= updated.take(first_descendent as int) + updated.skip(
                    i + 1,
                ));
                // The executed merge step is exactly one unfolding of the pass
                let j = i as int;
                let fd = first_descendent as int;
                let next = scur[j + 1];
                assert(updated == scur.update(
                    j + 1,
                    Sample {
                        value: next.value,
                        g: (sum_g(scur.subrange(fd, j + 1)) + next.g) as u64,
                        delta: next.delta,
                        band: next.band,
                    },
                ));
                assert(self.samples@ == updated.take(fd) + updated.skip(j + 1));
                assert(gk_compress_loop(scur, i0, cap) == gk_compress_loop(
                    self.samples@,
                    fd,
                    cap,
                ));
            }
            i = first_descendent;
        }
        proof {
            assert(i <= 1);
            assert(gk_compress_loop(self.samples@, i as int, cap) == self.samples@);
            assert(self.samples@ == gk_compress_spec(s0, cap));
        }
    }

    /// Detect where all descendents of a given sample are and sum their `g`
    /// values: the preceding contiguous run with strictly smaller band. The
    /// band cache must be up to date; the first sample (the minimum) is
    /// never included.
    fn scan_all_descendents(&self, i: usize) -> (r: (usize, u64))
        requires
            self.wf(),
            1 <= i < self.samples_seq().len(),
        ensures
            1 <= r.0 <= i,
            r.0 == gk_descendents_start(self.samples_seq(), i as int, i as int),
            r.1 == sum_g(self.samples_seq().subrange(r.0 as int, i + 1)),
            r.1 <= sum_g(self.samples_seq()),
            forall|k: int| r.0 <= k <= i ==> (#[trigger] self.samples_seq()[k]).g <= r.1,
    {
        let ghost s = self.samples@;
        let mut j = i;
        let max_band = self.samples[i].band;
        let mut total_g = self.samples[i].g;
        proof {
            assert(s.subrange(i as int, i + 1) =~= seq![s[i as int]]);
            assert(seq![s[i as int]].drop_last() =~= Seq::<Sample>::empty());
            assert(sum_g(Seq::<Sample>::empty()) == 0);
            assert(seq![s[i as int]].last() == s[i as int]);
            assert(sum_g(s.subrange(i as int, i + 1)) == s[i as int].g);
            lemma_gk_sum_subrange_bound(s, i as int, i + 1);
        }
        while j > 1 && self.samples[j - 1].band < max_band
            invariant
                self.wf(),
                s == self.samples@,
                1 <= j <= i < s.len(),
                max_band == s[i as int].band,
                gk_descendents_start(s, i as int, i as int) == gk_descendents_start(
                    s,
                    i as int,
                    j as int,
                ),
                total_g == sum_g(s.subrange(j as int, i + 1)),
                total_g <= sum_g(s),
                forall|k: int| j <= k <= i ==> (#[trigger] s[k]).g <= total_g,
            decreases j,
        {
            proof {
                assert(s.subrange(j - 1, i + 1).drop_first() =~= s.subrange(j as int, i + 1));
                lemma_gk_sum_cons(s[j - 1], s.subrange(j as int, i + 1));
                assert(s.subrange(j - 1, i + 1) =~= seq![s[j - 1]] + s.subrange(j as int, i + 1));
                lemma_gk_sum_subrange_bound(s, j - 1, i + 1);
            }
            total_g = total_g + self.samples[j - 1].g;
            j = j - 1;
        }
        (j, total_g)
    }
}

/// The rank error allowance `floor(eps * n)`.
pub open spec fn max_err_of(num: int, den: int, n: int) -> int {
    (num * n) / den
}

/// Minimum rank of the sample at `i`.
pub open spec fn gk_min_rank(s: Seq<Sample>, i: int) -> int {
    sum_g(s.take(i + 1))
}

/// Midpoint rank of the sample at `i`: its minimum rank plus half its rank
/// uncertainty, rounded up.
pub open spec fn gk_mid(s: Seq<Sample>, i: int) -> int {
    gk_min_rank(s, i) + (s[i].delta + 1) / 2
}

/// Absolute signed distance of the target rank from the sample's midpoint.
pub open spec fn gk_err(s: Seq<Sample>, i: int, rank: int) -> int {
    let e = rank - gk_mid(s, i);
    if e < 0 {
        -e
    } else {
        e
    }
}

/// Whether the sample at `i` can answer a query for `rank` within the
/// allowance `me`.
pub open spec fn gk_qualifies(s: Seq<Sample>, i: int, rank: int, me: int) -> bool {
    rank <= me + gk_min_rank(s, i) && gk_min_rank(s, i) + s[i].delta <= me + rank
}

/// First index among the first `k` samples that qualifies with the smallest
/// midpoint distance (-1 if none qualifies).
pub open spec fn gk_best_upto(s: Seq<Sample>, rank: int, me: int, k: int) -> int
    decreases k,
{
    if k <= 0 {
        -1
    } else {
        let b = gk_best_upto(s, rank, me, k - 1);
        if gk_qualifies(s, k - 1, rank, me) && (b == -1 || gk_err(s, k - 1, rank) < gk_err(
            s,
            b,
            rank,
        )) {
            k - 1
        } else {
            b
        }
    }
}

/// The best index lies within the scanned prefix.
proof fn lemma_gk_best_range(s: Seq<Sample>, rank: int, me: int, k: int)
    requires
        k >= 0,
    ensures
        -1 <= gk_best_upto(s, rank, me, k) < k,
    decreases k,
{
    if k > 0 {
        lemma_gk_best_range(s, rank, me, k - 1);
    }
}

impl Summary {
    /// The rank error allowance `floor(eps * len)`.
    fn max_err(&self) -> (r: u64)
        requires
            0 < self.eps_num < self.eps_den <= LEN_LIMIT,
            self.len <= LEN_LIMIT,
        ensures
            r as int == max_err_of(self.eps_num as int, self.eps_den as int, self.len as int),
            r <= self.len,
    {
        proof {
            assert((self.eps_num as int) * (self.len as int) <= 4 * (LEN_LIMIT as int) * (
            LEN_LIMIT as int)) by (nonlinear_arith)
                requires
                    0 < self.eps_num <= LEN_LIMIT,
                    self.len <= LEN_LIMIT,
            ;
        }
        let p: u128 = (self.eps_num as u128) * (self.len as u128);
        let q: u128 = p / (self.eps_den as u128);
        proof {
            assert(p == (self.eps_num as int) * (self.len as int)) by (nonlinear_arith)
                requires
                    p == (self.eps_num as u128) * (self.len as u128),
                    self.eps_num <= LEN_LIMIT,
                    self.len <= LEN_LIMIT,
            ;
            let x = (self.eps_num as int) * (self.len as int);
            let d = self.eps_den as int;
            assert(x <= d * (self.len as int)) by (nonlinear_arith)
                requires
                    0 < self.eps_num < d,
                    0 <= self.len,
                    x == (self.eps_num as int) * (self.len as int),
            ;
            lemma_fundamental_div_mod(x, d);
            vstd::arithmetic::div_mod::lemma_mod_bound(x, d);
            assert(x / d <= self.len as int) by (nonlinear_arith)
                requires
                    d > 0,
                    x == d * (x / d) + x % d,
                    0 <= x % d,
                    x <= d * (self.len as int),
            ;
        }
        q as u64
    }

    /// Query the structure for an epsilon-approximate quantile; `None` if
    /// and only if no value was inserted.
    ///
    /// Unlike the original article, this returns the closest qualifying
    /// sample instead of the least one when several are possible; if no
    /// sample qualifies, the first sample answers.
    pub fn query(&self, q_num: u64, q_den: u64) -> (r: Option<i64>)
        requires
            self.wf(),
            q_num <= q_den,
            0 < q_den,
        ensures
            r is None <==> self.spec_len() == 0,
            self.spec_len() > 0 ==> {
                let rank = rank_spec(q_num as int, q_den as int, self.spec_len() as int);
                let me = max_err_of(
                    self.epsilon_num() as int,
                    self.epsilon_den() as int,
                    self.spec_len() as int,
                );
                let b = gk_best_upto(self.samples_seq(), rank, me, self.samples_seq().len() as int);
                r == Some(
                    if b == -1 {
                        self.samples_seq()[0].value
                    } else {
                        self.samples_seq()[b].value
                    },
                )
            },
    {
        if self.len == 0 {
            return None;
        }
        let ghost s = self.samples@;
        let rank = crate::quantile_to_rank(q_num, q_den, self.len);
        let max_err = self.max_err();
        let m = self.samples.len();
        proof {
            lemma_cap_of_range(self.eps_num as int, self.eps_den as int, self.len as int);
        }
        let mut i: usize = 0;
        let mut min_rank: u64 = 0;
        let mut have_best = false;
        let mut best_err: u64 = 0;
        let mut best_value: i64 = self.samples[0].value;
        let mut best_idx: usize = 0;
        while i < m
            invariant
                self.wf(),
                s == self.samples@,
                m == s.len(),
                m >= 1,
                0 <= i <= m,
                1 <= rank <= self.len,
                max_err as int == max_err_of(
                    self.eps_num as int,
                    self.eps_den as int,
                    self.len as int,
                ),
                max_err <= self.len,
                self.len <= LEN_LIMIT,
                min_rank == sum_g(s.take(i as int)),
                min_rank <= self.len,
                self.spec_cap() <= 2 * LEN_LIMIT,
                best_value == if gk_best_upto(s, rank as int, max_err as int, i as int) == -1 {
                    s[0].value
                } else {
                    s[gk_best_upto(s, rank as int, max_err as int, i as int)].value
                },
                have_best <==> gk_best_upto(s, rank as int, max_err as int, i as int) != -1,
                have_best ==> {
                    let b = gk_best_upto(s, rank as int, max_err as int, i as int);
                    0 <= b < i && best_err == gk_err(s, b, rank as int)
                },
            decreases m - i,
        {
            proof {
                lemma_sum_g_prefix(s, i + 1);
                assert(s.take(i + 1).drop_last() =~= s.take(i as int));
                assert(s.take(i + 1).last() == s[i as int]);
                lemma_sum_g_least(s);
                lemma_gk_best_range(s, rank as int, max_err as int, i as int);
            }
            let sample = self.samples[i];
            proof {
                assert(sample.delta <= self.spec_cap());
            }
            min_rank = min_rank + sample.g;
            let max_rank = min_rank + sample.delta;
            let mid = min_rank + (sample.delta + 1) / 2;
            let err: u64 = if rank >= mid {
                rank - mid
            } else {
                mid - rank
            };
            proof {
                assert(min_rank == gk_min_rank(s, i as int));
                assert(err == gk_err(s, i as int, rank as int));
            }
            if rank <= max_err + min_rank && max_rank <= max_err + rank && (!have_best || err
                < best_err) {
                have_best = true;
                best_err = err;
                best_value = sample.value;
                best_idx = i;
            }
            i = i + 1;
        }
        Some(best_value)
    }

    /// Merge another summary into this one, consuming it. Both summaries
    /// must have been built with the same error bound. Both operands are
    /// compressed, their sample runs are interleaved in value order, and
    /// the result is compressed at the combined length's capacity.
    pub fn merge(&mut self, other: Summary)
        requires
            old(self).wf(),
            other.wf(),
            old(self).epsilon_num() == other.epsilon_num(),
            old(self).epsilon_den() == other.epsilon_den(),
            old(self).spec_len() + other.spec_len() <= LEN_LIMIT,
        ensures
            final(self).wf(),
            final(self).spec_len() == old(self).spec_len() + other.spec_len(),
            final(self).epsilon_num() == old(self).epsilon_num(),
            final(self).epsilon_den() == old(self).epsilon_den(),
            final(self).samples_seq() == gk_compress_spec(
                gk_merge_runs(
                    gk_compress_spec(old(self).samples_seq(), old(self).spec_cap()),
                    gk_compress_spec(other.samples_seq(), other.spec_cap()),
                ),
                cap_of(
                    old(self).epsilon_num() as int,
                    old(self).epsilon_den() as int,
                    old(self).spec_len() + other.spec_len(),
                ),
            ),
    {
        let mut other = other;
        self.compress();
        other.compress();
        // Interleave the two sorted sample runs and account for both lengths
        let merged = merge_sorted_runs(&self.samples, &other.samples);
        proof {
            lemma_cap_of_monotone(
                self.eps_num as int,
                self.eps_den as int,
                self.len as int,
                self.len + other.len,
            );
            lemma_cap_of_monotone(
                self.eps_num as int,
                self.eps_den as int,
                other.len as int,
                self.len + other.len,
            );
        }
        self.len = self.len + other.len;
        self.samples = merged;
        self.compress();
    }
}

/// The interleaving of two sorted sample runs, smaller head first, the
/// left run first on ties.
pub open spec fn gk_merge_runs(a: Seq<Sample>, b: Seq<Sample>) -> Seq<Sample>
    decreases a.len() + b.len(),
{
    if a.len() == 0 {
        b
    } else if b.len() == 0 {
        a
    } else if a[0].value <= b[0].value {
        seq![a[0]] + gk_merge_runs(a.drop_first(), b)
    } else {
        seq![b[0]] + gk_merge_runs(a, b.drop_first())
    }
}

/// Merge two sorted sample runs into one sorted run holding the samples of
/// both.
fn merge_sorted_runs(a: &Vec<Sample>, b: &Vec<Sample>) -> (r: Vec<Sample>)
    requires
        sorted_values(a@),
        sorted_values(b@),
    ensures
        r@ == gk_merge_runs(a@, b@),
        sorted_values(r@),
        r@.len() == a@.len() + b@.len(),
        sum_g(r@) == sum_g(a@) + sum_g(b@),
        gs_positive(a@) && gs_positive(b@) ==> gs_positive(r@),
        forall|k: int|
            0 <= k < r@.len() ==> exists|j: int|
                (0 <= j < a@.len() && (#[trigger] r@[k]).delta == a@[j].delta) || (0 <= j
                    < b@.len() && r@[k].delta == b@[j].delta),
{
    let mut r: Vec<Sample> = Vec::new();
    let mut i: usize = 0;
    let mut j: usize = 0;
    proof {
        assert(a@.skip(0) =~= a@);
        assert(b@.skip(0) =~= b@);
        assert(r@ + gk_merge_runs(a@, b@) =~= gk_merge_runs(a@, b@));
    }
    while i < a.len() || j < b.len()
        invariant
            sorted_values(a@),
            sorted_values(b@),
            0 <= i <= a@.len(),
            0 <= j <= b@.len(),
            r@.len() == i + j,
            r@ + gk_merge_runs(a@.skip(i as int), b@.skip(j as int)) == gk_merge_runs(a@, b@),
            sorted_values(r@),
            sum_g(r@) == sum_g(a@.take(i as int)) + sum_g(b@.take(j as int)),
            forall|k: int, l: int|
                0 <= k < r@.len() && i <= l < a@.len() ==> (#[trigger] r@[k]).value
                    <= (#[trigger] a@[l]).value,
            forall|k: int, l: int|
                0 <= k < r@.len() && j <= l < b@.len() ==> (#[trigger] r@[k]).value
                    <= (#[trigger] b@[l]).value,
            gs_positive(a@) && gs_positive(b@) ==> gs_positive(r@),
            forall|k: int|
                0 <= k < r@.len() ==> exists|m: int|
                    (0 <= m < a@.len() && (#[trigger] r@[k]).delta == a@[m].delta) || (0 <= m
                        < b@.len() && r@[k].delta == b@[m].delta),
        decreases a@.len() + b@.len() - i - j,
    {
        let take_a = if i < a.len() && j < b.len() {
            a[i].value <= b[j].value
        } else {
            i < a.len()
        };
        let ghost r0 = r@;
        let ghost ar = a@.skip(i as int);
        let ghost br = b@.skip(j as int);
        if take_a {
            let x = a[i];
            r.push(x);
            proof {
                lemma_sum_g_push(r0, x);
                assert(a@.take(i + 1).drop_last() =~= a@.take(i as int));
                assert(a@.take(i + 1).last() == a@[i as int]);
                assert(ar[0] == x);
                assert(ar.drop_first() =~= a@.skip(i + 1));
                assert(gk_merge_runs(ar, br) =~= seq![x] + gk_merge_runs(a@.skip(i + 1), br));
                assert(r@ + gk_merge_runs(a@.skip(i + 1), br) =~= gk_merge_runs(a@, b@));
            }
            i = i + 1;
        } else {
            let x = b[j];
            r.push(x);
            proof {
                lemma_sum_g_push(r0, x);
                assert(b@.take(j + 1).drop_last() =~= b@.take(j as int));
                assert(b@.take(j + 1).last() == b@[j as int]);
                assert(br[0] == x);
                assert(br.drop_first() =~= b@.skip(j + 1));
                if ar.len() == 0 {
                    assert(gk_merge_runs(ar, br) == br);
                    assert(br =~= seq![x] + br.drop_first());
                } else {
                    assert(gk_merge_runs(ar, br) =~= seq![x] + gk_merge_runs(
                        ar,
                        b@.skip(j + 1),
                    ));
                }
                assert(r@ + gk_merge_runs(ar, b@.skip(j + 1)) =~= gk_merge_runs(a@, b@));
            }
            j = j + 1;
        }
    }
    proof {
        assert(a@.take(a@.len() as int) =~= a@);
        assert(b@.take(b@.len() as int) =~= b@);
        assert(gk_merge_runs(a@.skip(a@.len() as int), b@.skip(b@.len() as int)) =~= Seq::<
            Sample,
        >::empty());
        assert(r@ =~= gk_merge_runs(a@, b@));
    }
    r
}

/// Index of the leftmost sample whose value is strictly greater than `v`.
pub open spec fn first_gt(s: Seq<Sample>, v: i64) -> int
    decreases s.len(),
{
    if s.len() == 0 {
        0
    } else if s[0].value > v {
        0
    } else {
        1 + first_gt(s.drop_first(), v)
    }
}

/// `first_gt` is the unique index `k` bounded by everything before and the
/// sample at `k`.
pub proof fn lemma_first_gt_char(s: Seq<Sample>, v: i64, k: int)
    requires
        0 <= k <= s.len(),
        forall|i: int| 0 <= i < k ==> s[i].value <= v,
        k < s.len() ==> s[k].value > v,
    ensures
        first_gt(s, v) == k,
    decreases s.len(),
{
    if s.len() == 0 {
    } else if k == 0 {
    } else {
        let d = s.drop_first();
        assert(forall|i: int| 0 <= i < k - 1 ==> d[i] == s[i + 1] && d[i].value <= v);
        assert(k - 1 < d.len() ==> d[k - 1] == s[k]);
        lemma_first_gt_char(d, v, k - 1);
    }
}

/// The sample sequence after the baseline insertion of `v` at capacity
/// `cap`: a new extreme is inserted exactly, an intermediate value with the
/// full rank uncertainty `cap`.
pub open spec fn gk_insert_spec(s: Seq<Sample>, v: i64, cap: u64) -> Seq<Sample> {
    if s.len() == 0 || v < s[0].value {
        seq![Sample { value: v, g: 1, delta: 0, band: 0 }] + s
    } else if v >= s.last().value {
        s.push(Sample { value: v, g: 1, delta: 0, band: 0 })
    } else {
        s.insert(first_gt(s, v), Sample { value: v, g: 1, delta: cap, band: 0 })
    }
}

/// Prepending a sample adds its `g` to the total.
proof fn lemma_gk_sum_prepend(s: Seq<Sample>, x: Sample)
    ensures
        sum_g(seq![x] + s) == x.g + sum_g(s),
    decreases s.len(),
{
    if s.len() == 0 {
        assert(seq![x] + s =~= seq![x]);
        assert(seq![x].drop_last() =~= Seq::<Sample>::empty());
        assert(sum_g(Seq::<Sample>::empty()) == 0);
        assert(seq![x].last() == x);
    } else {
        lemma_gk_sum_prepend(s.drop_last(), x);
        assert((seq![x] + s).drop_last() =~= seq![x] + s.drop_last());
        assert((seq![x] + s).last() == s.last());
    }
}

/// The same, stated for a cons cell.
proof fn lemma_gk_sum_cons(x: Sample, s: Seq<Sample>)
    ensures
        sum_g(seq![x] + s) == x.g + sum_g(s),
{
    lemma_gk_sum_prepend(s, x);
}

/// Two sample sequences with the same `g` fields have the same total.
proof fn lemma_gk_sum_same_g(a: Seq<Sample>, b: Seq<Sample>)
    requires
        a.len() == b.len(),
        forall|i: int| 0 <= i < a.len() ==> a[i].g == b[i].g,
    ensures
        sum_g(a) == sum_g(b),
    decreases a.len(),
{
    if a.len() > 0 {
        assert(forall|i: int| 0 <= i < a.len() - 1 ==> a.drop_last()[i].g == b.drop_last()[i].g);
        lemma_gk_sum_same_g(a.drop_last(), b.drop_last());
    }
}

/// The `g` sum of an inner subrange is bounded by the whole, and bounds each
/// of its elements.
proof fn lemma_gk_sum_subrange_bound(s: Seq<Sample>, lo: int, hi: int)
    requires
        gs_positive(s),
        0 <= lo <= hi <= s.len(),
    ensures
        sum_g(s.subrange(lo, hi)) <= sum_g(s),
        forall|k: int| lo <= k < hi ==> (#[trigger] s[k]).g <= sum_g(s.subrange(lo, hi)),
        sum_g(s.subrange(lo, hi)) >= 0,
{
    let mid = s.subrange(lo, hi);
    assert(s =~= s.subrange(0, lo) + mid + s.subrange(hi, s.len() as int));
    crate::gk::sample::lemma_sum_g_concat(s.subrange(0, lo) + mid, s.subrange(hi, s.len() as int));
    crate::gk::sample::lemma_sum_g_concat(s.subrange(0, lo), mid);
    assert(gs_positive(s.subrange(0, lo))) by {
        assert(forall|i: int| 0 <= i < lo ==> s.subrange(0, lo)[i] == s[i]);
    }
    assert(gs_positive(s.subrange(hi, s.len() as int))) by {
        assert(forall|i: int|
            0 <= i < s.len() - hi ==> s.subrange(hi, s.len() as int)[i] == s[i + hi]);
    }
    assert(gs_positive(mid)) by {
        assert(forall|i: int| 0 <= i < hi - lo ==> mid[i] == s[i + lo]);
    }
    lemma_sum_g_least(s.subrange(0, lo));
    lemma_sum_g_least(s.subrange(hi, s.len() as int));
    lemma_sum_g_least(mid);
    assert forall|k: int| lo <= k < hi implies (#[trigger] s[k]).g <= sum_g(mid) by {
        assert(mid[k - lo] == s[k]);
        lemma_sum_g_each(mid, k - lo);
    }
}

/// One merge step of the band compression: the run `[fd, i]` is folded into
/// the sample at `i + 1` (whose `g` grew by the run's total) and removed.
/// The result keeps the total `g`, the ordering, positivity, the delta
/// bound, and both extreme samples.
proof fn lemma_gk_compress_step(
    before: Seq<Sample>,
    updated: Seq<Sample>,
    fd: int,
    i: int,
    g_star: int,
)
    requires
        1 <= fd <= i,
        i + 1 < before.len(),
        updated.len() == before.len(),
        g_star == sum_g(before.subrange(fd, i + 1)),
        forall|k: int| 0 <= k < before.len() && k != i + 1 ==> updated[k] == before[k],
        updated[i + 1].g == before[i + 1].g + g_star,
        updated[i + 1].value == before[i + 1].value,
        updated[i + 1].delta == before[i + 1].delta,
        updated[i + 1].band == before[i + 1].band,
        sorted_values(before),
        gs_positive(before),
        g_star >= 0,
    ensures
        ({
            let result = updated.take(fd) + updated.skip(i + 1);
            &&& sum_g(result) == sum_g(before)
            &&& sorted_values(result)
            &&& gs_positive(result)
            &&& result.len() == before.len() - (i + 1 - fd)
            &&& result[0] == before[0]
            &&& result.last().value == before.last().value
            &&& forall|k: int|
                0 <= k < result.len() ==> exists|j: int|
                    0 <= j < before.len() && (#[trigger] result[k]).delta == before[j].delta
        }),
{
    let result = updated.take(fd) + updated.skip(i + 1);
    assert(result.len() == fd + (updated.len() - (i + 1)));
    assert(forall|k: int| 0 <= k < fd ==> result[k] == before[k]);
    assert(forall|k: int|
        fd <= k < result.len() ==> #[trigger] result[k] == updated[k + (i + 1 - fd)]);
    // Total g
    assert(before =~= before.take(fd) + before.subrange(fd, i + 1) + before.skip(i + 1));
    crate::gk::sample::lemma_sum_g_concat(
        before.take(fd) + before.subrange(fd, i + 1),
        before.skip(i + 1),
    );
    crate::gk::sample::lemma_sum_g_concat(before.take(fd), before.subrange(fd, i + 1));
    crate::gk::sample::lemma_sum_g_concat(updated.take(fd), updated.skip(i + 1));
    assert(updated.take(fd) =~= before.take(fd));
    assert(updated.skip(i + 1) =~= seq![updated[i + 1]] + before.skip(i + 2));
    assert(before.skip(i + 1) =~= seq![before[i + 1]] + before.skip(i + 2));
    lemma_gk_sum_cons(updated[i + 1], before.skip(i + 2));
    lemma_gk_sum_cons(before[i + 1], before.skip(i + 2));
    // Ordering
    assert forall|a: int, b: int| 0 <= a <= b < result.len() implies result[a].value
        <= result[b].value by {
        let ai = if a < fd {
            a
        } else {
            a + (i + 1 - fd)
        };
        let bi = if b < fd {
            b
        } else {
            b + (i + 1 - fd)
        };
        assert(result[a].value == before[ai].value);
        assert(result[b].value == before[bi].value);
    }
    // Positivity and delta membership
    assert forall|k: int| 0 <= k < result.len() implies (#[trigger] result[k]).g >= 1 by {
        if k >= fd {
            assert(result[k] == updated[k + (i + 1 - fd)]);
        }
    }
    assert forall|k: int| 0 <= k < result.len() implies exists|j: int|
        0 <= j < before.len() && (#[trigger] result[k]).delta == before[j].delta by {
        if k < fd {
            assert(result[k].delta == before[k].delta);
        } else {
            assert(result[k].delta == before[k + (i + 1 - fd)].delta);
        }
    }
    assert(result.last() == updated.last());
}

/// The floor logarithm is below its argument.
proof fn lemma_log2_small(p: int)
    requires
        p >= 1,
    ensures
        log2_floor(p) < p,
    decreases p,
{
    if p >= 2 {
        lemma_log2_small(p / 2);
    }
}

} // verus!
