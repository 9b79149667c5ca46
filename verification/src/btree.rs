//! An ordered container backed by a B-tree: sorted insertion with node
//! splitting, a length count, and sorted iteration.

pub mod node;
pub mod tree;
pub mod tree_iter;

pub use tree::BTree;
pub use tree_iter::TreeIter;

use vstd::prelude::*;

verus! {

/// Maximum number of elements a node holds; this implementation assumes the
/// capacity is odd.
pub const CAPACITY: usize = 11;

/// Where a value would enter the tree, together with copies of the
/// neighbouring values.
#[derive(Clone, Copy, Debug, PartialEq, Eq, Structural)]
pub enum InsertionPoint {
    /// The tree is empty
    Empty,
    /// A new minimum: the current minimum, and the value after it if any
    Minimum(i64, Option<i64>),
    /// A new maximum: the current maximum
    Maximum(i64),
    /// An intermediate value: the next value to the right
    Intermediate(i64),
}

} // verus!
