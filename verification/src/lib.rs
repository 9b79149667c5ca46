//! Space-efficient online quantile summaries.
//!
//! The crate implements a modification of the Greenwald-Khanna algorithm for
//! answering quantile queries over a stream of values within a configurable
//! rank error bound, together with a classic baseline implementation, an
//! ordered container for the retained samples, and generators of test streams
//! with a known quantile.
//!
//! Error bounds are rational numbers: an error bound of `num / den` plays the
//! role usually taken by a floating-point epsilon.

pub mod btree;
pub mod gk;
pub mod modified_gk;
pub mod quantile_generator;

use vstd::prelude::*;

verus! {

/// An aggregation that can be fed values one by one, merged with another
/// aggregation of the same kind, and finished into an output.
pub trait Operation: Sized {
    type Item;
    type Output;

    fn create() -> Self;

    fn update(&mut self, value: Self::Item);

    fn merge_with(&mut self, other: Self);

    fn finish(self) -> Self::Output;
}

/// Mathematical ceiling of `a / b` for non-negative `a` and positive `b`.
pub open spec fn ceil_div(a: int, b: int) -> int {
    (a + b - 1) / b
}

/// The rank targeted by the quantile `q_num / q_den` over `num` values:
/// `max(1, ceil(q * num))`.
pub open spec fn rank_spec(q_num: int, q_den: int, num: int) -> int {
    let r = ceil_div(q_num * num, q_den);
    if r < 1 {
        1
    } else {
        r
    }
}

/// Convert a quantile, given as the fraction `q_num / q_den` with
/// `0 <= q_num <= q_den`, to the rank it addresses among `num` values.
///
/// For `num = 4`:
///
/// | quantile   | rank |
/// |------------|------|
/// | [0, 1/4]   | 1    |
/// | (1/4, 2/4] | 2    |
/// | (2/4, 3/4] | 3    |
/// | (3/4, 1]   | 4    |
pub fn quantile_to_rank(q_num: u64, q_den: u64, num: u64) -> (rank: u64)
    requires
        q_num <= q_den,
        0 < q_den,
        0 < num,
    ensures
        rank == rank_spec(q_num as int, q_den as int, num as int),
        1 <= rank <= num,
{
    proof {
        assert((q_num as int) * (num as int) <= 0xffff_ffff_ffff_ffff * 0xffff_ffff_ffff_ffff)
            by (nonlinear_arith)
            requires
                q_num <= 0xffff_ffff_ffff_ffffu64,
                num <= 0xffff_ffff_ffff_ffffu64,
        ;
    }
    let prod: u128 = (q_num as u128) * (num as u128);
    let den: u128 = q_den as u128;
    proof {
        assert(prod <= den * (num as u128)) by (nonlinear_arith)
            requires
                prod == (q_num as u128) * (num as u128),
                den == q_den as u128,
                q_num <= q_den,
        ;
        assert(den * (num as u128) <= 0xffff_ffff_ffff_ffffu128 * 0xffff_ffff_ffff_ffffu128)
            by (nonlinear_arith)
            requires
                den <= 0xffff_ffff_ffff_ffffu128,
                num <= 0xffff_ffff_ffff_ffffu64,
        ;
    }
    let r: u128 = (prod + den - 1) / den;
    proof {
        let p = prod as int;
        let d = den as int;
        let ri = r as int;
        assert(ri == (p + d - 1) / d);
        assert(ri <= num as int) by (nonlinear_arith)
            requires
                ri == (p + d - 1) / d,
                p <= d * (num as int),
                d > 0,
        ;
        assert(ri >= 0) by (nonlinear_arith)
            requires
                ri == (p + d - 1) / d,
                p >= 0,
                d > 0,
        ;
    }
    let rank: u64 = r as u64;
    if rank < 1 {
        1
    } else {
        rank
    }
}

} // verus!
