//! A seeded random generator of `num` values with the target value at the
//! requested rank of the sorted order: the decisions are driven by a Pcg64
//! generator, yet the counts of lesser and greater values are exact for
//! every possible random outcome.

use vstd::prelude::*;

use crate::quantile_generator::{count_above, count_below, count_equal, places_at_rank};
use crate::rank_spec;

verus! {

/// The Pcg64 random number generator of the `rand_pcg` crate, opaque here.
#[verifier::external_type_specification]
#[verifier::external_body]
pub struct ExLcg128Xsl64(rand_pcg::Lcg128Xsl64);

/// Relies on `SeedableRng::seed_from_u64` for `rand_pcg::Pcg64`: builds a
/// generator from a 64-bit seed. Nothing is assumed of the state.
#[verifier::external_body]
fn pcg_from_seed(seed: u64) -> rand_pcg::Pcg64 {
    <rand_pcg::Pcg64 as rand::SeedableRng>::seed_from_u64(seed)
}

/// Relies on `Rng::next_u64` for `rand_pcg::Pcg64`: draws the next word.
/// Nothing is assumed of the value drawn.
#[verifier::external_body]
fn pcg_next_u64(rng: &mut rand_pcg::Pcg64) -> u64 {
    rand::Rng::next_u64(rng)
}

/// Half-width of the band in which generated non-target values spread.
pub const VALUE_SPREAD: u64 = 1000;

/// An iterator-like generator of `num` values with `value` at rank
/// `rank` of the sorted order, in an order decided by a seeded Pcg64.
pub struct RandomGenerator {
    remaining_lesser: u64,
    /// Values still to emit, excluding the target value
    remaining: u64,
    value: i64,
    published_value: bool,
    rng: rand_pcg::Pcg64,
    rank: Ghost<u64>,
    num: Ghost<u64>,
    produced: Ghost<Seq<i64>>,
}

impl RandomGenerator {
    /// The target value.
    pub closed spec fn target(self) -> i64 {
        self.value
    }

    /// Rank at which the target sits in the sorted output.
    pub closed spec fn target_rank(self) -> u64 {
        self.rank@
    }

    /// Number of values the full run holds.
    pub closed spec fn total(self) -> u64 {
        self.num@
    }

    /// The values emitted so far, in order.
    pub closed spec fn emitted(self) -> Seq<i64> {
        self.produced@
    }

    /// The counts of emitted values below, equal to and above the target
    /// always agree with the counters still to run down: whatever the
    /// random draws decide, the full run is exact.
    pub closed spec fn wf(self) -> bool {
        &&& 1 <= self.rank@ <= self.num@
        &&& self.remaining_lesser <= self.remaining
        &&& self.remaining < self.num@
        &&& self.num@ < 0x4000_0000_0000_0000
        &&& i64::MIN + (VALUE_SPREAD + 1) <= self.value <= i64::MAX - (VALUE_SPREAD + 1)
        &&& count_below(self.produced@, self.value) + self.remaining_lesser == self.rank@ - 1
        &&& count_equal(self.produced@, self.value) == if self.published_value {
            1int
        } else {
            0int
        }
        &&& count_above(self.produced@, self.value) + (self.remaining - self.remaining_lesser)
            == self.num@ - self.rank@
        &&& self.produced@.len() + self.remaining + (if self.published_value {
            0int
        } else {
            1int
        }) == self.num@
    }

    /// Create a generator of `num` values for the quantile `q_num / q_den`
    /// and the seed `seed`: the value at position `quantile_to_rank(q, num)
    /// - 1` of the sorted output is exactly `value`.
    pub fn new(q_num: u64, q_den: u64, value: i64, num: u64, seed: u64) -> (g: RandomGenerator)
        requires
            q_num <= q_den,
            0 < q_den,
            0 < num < 0x4000_0000_0000_0000,
            i64::MIN + (VALUE_SPREAD + 1) <= value <= i64::MAX - (VALUE_SPREAD + 1),
        ensures
            g.wf(),
            g.emitted() =~= Seq::<i64>::empty(),
            g.total() == num,
            g.target() == value,
            g.target_rank() == rank_spec(q_num as int, q_den as int, num as int),
    {
        let rank = crate::quantile_to_rank(q_num, q_den, num);
        let remaining_lesser = rank - 1;
        let g = RandomGenerator {
            remaining_lesser,
            remaining: num - 1,
            value,
            published_value: false,
            rng: pcg_from_seed(seed),
            rank: Ghost(rank),
            num: Ghost(num),
            produced: Ghost(Seq::empty()),
        };
        proof {
            assert(count_below(Seq::<i64>::empty(), value) == 0);
            assert(count_equal(Seq::<i64>::empty(), value) == 0);
            assert(count_above(Seq::<i64>::empty(), value) == 0);
        }
        g
    }

    /// Emit the next value, `None` once the run is complete. At each step
    /// the generator randomly publishes the target value, a lesser value or
    /// a greater one, with the counts of each kept exact.
    pub fn next(&mut self) -> (r: Option<i64>)
        requires
            old(self).wf(),
        ensures
            final(self).wf(),
            final(self).target() == old(self).target(),
            final(self).target_rank() == old(self).target_rank(),
            final(self).total() == old(self).total(),
            r is None <==> old(self).emitted().len() == old(self).total(),
            r is None ==> final(self).emitted() == old(self).emitted(),
            r is Some ==> final(self).emitted() == old(self).emitted().push(r->0),
    {
        let ghost before = self.produced@;
        // Check end of run
        if self.remaining == 0 && self.published_value {
            return None;
        }
        // Publish the target value, with probability 1 / (remaining + 1)
        if !self.published_value {
            let draw = pcg_next_u64(&mut self.rng);
            if draw % (self.remaining + 1) == 0 {
                self.published_value = true;
                proof {
                    self.produced@ = self.produced@.push(self.value);
                    assert(self.produced@.drop_last() =~= before);
                }
                return Some(self.value);
            }
        }
        // Publish another value: lesser or greater, with probability
        // proportional to the number of remaining draws of each kind
        let draw = pcg_next_u64(&mut self.rng);
        let offset_draw = pcg_next_u64(&mut self.rng);
        let offset = 1 + (offset_draw % VALUE_SPREAD) as i64;
        self.remaining = self.remaining - 1;
        let out: i64;
        if draw % (self.remaining + 1) < self.remaining_lesser {
            // Lesser
            self.remaining_lesser = self.remaining_lesser - 1;
            out = self.value - offset;
        } else {
            // Greater
            out = self.value + offset;
        }
        proof {
            self.produced@ = self.produced@.push(out);
            assert(self.produced@.drop_last() =~= before);
        }
        Some(out)
    }

    /// Run the generator to the end and collect every value. The output
    /// places the target exactly at its rank, whatever the random draws
    /// decided: `rank - 1` values lie strictly below it and `num - rank`
    /// strictly above it.
    pub fn into_vec(self) -> (r: Vec<i64>)
        requires
            self.wf(),
            self.emitted().len() == 0,
        ensures
            places_at_rank(r@, self.target(), self.target_rank() as int, self.total() as int),
    {
        let ghost value = self.value;
        let ghost rank = self.rank@ as int;
        let ghost num = self.num@ as int;
        let mut g = self;
        let mut r: Vec<i64> = Vec::new();
        loop
            invariant
                g.wf(),
                g.target() == value,
                g.target_rank() as int == rank,
                g.total() as int == num,
                r@ == g.emitted(),
            ensures
                g.wf(),
                g.target() == value,
                g.target_rank() as int == rank,
                g.total() as int == num,
                r@ == g.emitted(),
                r@.len() == num,
            decreases (g.total() - g.emitted().len()) as int,
        {
            match g.next() {
                Some(x) => {
                    r.push(x);
                },
                None => {
                    break ;
                },
            }
        }
        proof {
            // The run is complete: all counters have run down
            assert(count_equal(r@, value) == 1);
            assert(count_below(r@, value) == rank - 1);
        }
        r
    }
}

} // verus!
