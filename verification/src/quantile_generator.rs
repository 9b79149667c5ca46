//! Generators of finite value streams with a known quantile: a seeded random
//! variant and a deterministic sequential variant. Both place a chosen target
//! value at an exact rank of the sorted stream, which makes them suitable for
//! exercising the quantile summaries.

pub mod random;
pub mod sequential;

pub use random::RandomGenerator;
pub use sequential::{SequentialGenerator, SequentialOrder};

use vstd::prelude::*;

verus! {

/// Number of values of `s` strictly below `v`.
pub open spec fn count_below(s: Seq<i64>, v: i64) -> int
    decreases s.len(),
{
    if s.len() == 0 {
        0
    } else {
        count_below(s.drop_last(), v) + if s.last() < v {
            1int
        } else {
            0int
        }
    }
}

/// Number of values of `s` equal to `v`.
pub open spec fn count_equal(s: Seq<i64>, v: i64) -> int
    decreases s.len(),
{
    if s.len() == 0 {
        0
    } else {
        count_equal(s.drop_last(), v) + if s.last() == v {
            1int
        } else {
            0int
        }
    }
}

/// Number of values of `s` strictly above `v`.
pub open spec fn count_above(s: Seq<i64>, v: i64) -> int
    decreases s.len(),
{
    if s.len() == 0 {
        0
    } else {
        count_above(s.drop_last(), v) + if s.last() > v {
            1int
        } else {
            0int
        }
    }
}

/// A stream of `num` values whose sorted order holds `target` exactly at
/// `rank`: `rank - 1` values lie strictly below it and `num - rank` strictly
/// above it.
pub open spec fn places_at_rank(s: Seq<i64>, target: i64, rank: int, num: int) -> bool {
    &&& s.len() == num
    &&& count_below(s, target) == rank - 1
    &&& count_equal(s, target) == 1
    &&& count_above(s, target) == num - rank
}

} // verus!
