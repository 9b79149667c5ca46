//! A deterministic generator of `num` consecutive values, ascending or
//! descending, with the target value at the requested rank of the sorted
//! order.

use vstd::prelude::*;

use crate::quantile_generator::{count_above, count_below, count_equal, places_at_rank};
use crate::rank_spec;

verus! {

/// Direction of the emitted run.
pub enum SequentialOrder {
    Ascending,
    Descending,
}

/// The value at position `i` of the run: consecutive values around `value`
/// such that the sorted order puts `value` exactly at `rank`.
pub open spec fn term_spec(value: int, rank: int, num: int, ascending: bool, i: int) -> int {
    if ascending {
        value + i - (rank - 1)
    } else {
        value - i + (num - rank)
    }
}

/// An iterator-like generator of `num` consecutive values with `value` at
/// rank `rank` of the sorted order.
pub struct SequentialGenerator {
    value: i64,
    position: u64,
    ascending: bool,
    rank: u64,
    num: u64,
}

impl SequentialGenerator {
    /// The generator state is consistent and the arithmetic stays in range.
    pub closed spec fn wf(self) -> bool {
        &&& 1 <= self.rank <= self.num
        &&& self.position <= self.num
        &&& self.num < 0x4000_0000_0000_0000
        &&& i64::MIN + self.num as int <= self.value <= i64::MAX - self.num as int
    }

    /// The target value.
    pub closed spec fn target(self) -> i64 {
        self.value
    }

    /// Rank at which the target sits in the sorted output.
    pub closed spec fn target_rank(self) -> u64 {
        self.rank
    }

    /// Number of values the full run holds.
    pub closed spec fn total(self) -> u64 {
        self.num
    }

    /// How many values were emitted already.
    pub closed spec fn emitted(self) -> u64 {
        self.position
    }

    /// Whether the run is ascending.
    pub closed spec fn is_ascending(self) -> bool {
        self.ascending
    }

    /// Create a generator of `num` values for the quantile `q_num / q_den`:
    /// the value at position `quantile_to_rank(q, num) - 1` of the sorted
    /// output is exactly `value`.
    pub fn new(q_num: u64, q_den: u64, value: i64, num: u64, order: SequentialOrder) -> (g:
        SequentialGenerator)
        requires
            q_num <= q_den,
            0 < q_den,
            0 < num < 0x4000_0000_0000_0000,
            i64::MIN + num as int <= value <= i64::MAX - num as int,
        ensures
            g.wf(),
            g.emitted() == 0,
            g.total() == num,
            g.target() == value,
            g.target_rank() == rank_spec(q_num as int, q_den as int, num as int),
            g.is_ascending() == (order is Ascending),
    {
        let rank = crate::quantile_to_rank(q_num, q_den, num);
        let ascending = match order {
            SequentialOrder::Ascending => true,
            SequentialOrder::Descending => false,
        };
        SequentialGenerator { value, position: 0, ascending, rank, num }
    }

    /// Emit the next value of the run, `None` once `num` values are out.
    pub fn next(&mut self) -> (r: Option<i64>)
        requires
            old(self).wf(),
        ensures
            final(self).wf(),
            final(self).target() == old(self).target(),
            final(self).target_rank() == old(self).target_rank(),
            final(self).total() == old(self).total(),
            final(self).is_ascending() == old(self).is_ascending(),
            old(self).emitted() == old(self).total() ==> r is None && final(self).emitted() == old(
                self,
            ).emitted(),
            old(self).emitted() < old(self).total() ==> final(self).emitted() == old(self).emitted()
                + 1 && r == Some(
                term_spec(
                    old(self).target() as int,
                    old(self).target_rank() as int,
                    old(self).total() as int,
                    old(self).is_ascending(),
                    old(self).emitted() as int,
                ) as i64,
            ),
    {
        if self.position == self.num {
            None
        } else {
            let r: i64 = if self.ascending {
                self.value + (self.position as i64 - (self.rank as i64 - 1))
            } else {
                self.value - self.position as i64 + (self.num as i64 - self.rank as i64)
            };
            self.position = self.position + 1;
            Some(r)
        }
    }

    /// Number of values still to come.
    pub fn size_hint(&self) -> (r: u64)
        requires
            self.wf(),
        ensures
            r == self.total() - self.emitted(),
    {
        self.num - self.position
    }

    /// Run the generator to the end and collect every value. The output
    /// places the target exactly at its rank: `rank - 1` values lie strictly
    /// below it and `num - rank` strictly above it.
    pub fn into_vec(self) -> (r: Vec<i64>)
        requires
            self.wf(),
            self.emitted() == 0,
        ensures
            r@.len() == self.total(),
            forall|i: int|
                0 <= i < r@.len() ==> r@[i] == term_spec(
                    self.target() as int,
                    self.target_rank() as int,
                    self.total() as int,
                    self.is_ascending(),
                    i,
                ),
            places_at_rank(r@, self.target(), self.target_rank() as int, self.total() as int),
    {
        let ghost value = self.value as int;
        let ghost rank = self.rank as int;
        let ghost num = self.num as int;
        let ghost asc = self.ascending;
        let mut g = self;
        let mut r: Vec<i64> = Vec::new();
        loop
            invariant
                g.wf(),
                g.target() as int == value,
                g.target_rank() as int == rank,
                g.total() as int == num,
                g.is_ascending() == asc,
                r@.len() == g.emitted(),
                forall|i: int| 0 <= i < r@.len() ==> r@[i] == term_spec(value, rank, num, asc, i),
            ensures
                g.emitted() == g.total(),
                g.target() as int == value,
                g.target_rank() as int == rank,
                g.total() as int == num,
                g.is_ascending() == asc,
                r@.len() == num,
                forall|i: int| 0 <= i < r@.len() ==> r@[i] == term_spec(value, rank, num, asc, i),
            decreases g.total() - g.emitted(),
        {
            match g.next() {
                Some(x) => {
                    r.push(x);
                },
                None => {
                    break ;
                },
            }
        }
        proof {
            lemma_terms_place_at_rank(r@, value as i64, rank, num, asc, r@.len() as int);
        }
        r
    }
}

/// Counting the prefix of a term run: exactly those terms below the target
/// come from positions on the lesser side of the rank.
proof fn lemma_terms_place_at_rank(s: Seq<i64>, value: i64, rank: int, num: int, asc: bool, k: int)
    requires
        1 <= rank <= num,
        s.len() == num,
        0 <= k <= num,
        forall|i: int| 0 <= i < s.len() ==> s[i] == term_spec(value as int, rank, num, asc, i),
        i64::MIN <= value - num && value + num <= i64::MAX,
    ensures
        asc ==> count_below(s.take(k), value) == if k < rank {
            k
        } else {
            rank - 1
        },
        asc ==> count_equal(s.take(k), value) == if k < rank {
            0int
        } else {
            1int
        },
        asc ==> count_above(s.take(k), value) == if k < rank {
            0int
        } else {
            k - rank
        },
        !asc ==> count_below(s.take(k), value) == if k < num - rank + 1 {
            0int
        } else {
            k - (num - rank + 1)
        },
        !asc ==> count_equal(s.take(k), value) == if k < num - rank + 1 {
            0int
        } else {
            1int
        },
        !asc ==> count_above(s.take(k), value) == if k < num - rank + 1 {
            k
        } else {
            num - rank
        },
        k == num ==> places_at_rank(s, value, rank, num),
    decreases k,
{
    if k == 0 {
        assert(s.take(0) =~= Seq::<i64>::empty());
    } else {
        lemma_terms_place_at_rank(s, value, rank, num, asc, k - 1);
        assert(s.take(k).drop_last() =~= s.take(k - 1));
        assert(s.take(k).last() == s[k - 1]);
        if k == num {
            assert(s.take(k) =~= s);
        }
    }
}

} // verus!
