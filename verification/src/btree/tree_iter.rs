//! A sorted iterator over the values of a B-tree, working off a snapshot
//! collected in order.

use vstd::prelude::*;

use crate::btree::node::sorted;
use crate::btree::tree::BTree;

verus! {

/// Iterator over a tree's values, in ascending order.
pub struct TreeIter {
    values: Vec<i64>,
    pos: usize,
}

impl TreeIter {
    /// The values not yet returned, in order.
    pub closed spec fn remaining_values(self) -> Seq<i64> {
        self.values@.skip(self.pos as int)
    }

    /// The position stays within the snapshot.
    pub closed spec fn wf(self) -> bool {
        self.pos <= self.values@.len()
    }

    /// Build the iterator from a tree.
    pub(crate) fn new(tree: &BTree) -> (it: TreeIter)
        requires
            tree.wf(),
        ensures
            it.wf(),
            it.remaining_values().to_multiset() == tree.mset(),
            sorted(it.remaining_values()),
    {
        proof {
            tree.lemma_wf_facts();
        }
        let values = tree.root.to_vec();
        let it = TreeIter { values, pos: 0 };
        proof {
            assert(it.remaining_values() =~= it.values@);
        }
        it
    }

    /// The next value, `None` once the tree is exhausted.
    pub fn next(&mut self) -> (r: Option<i64>)
        requires
            old(self).wf(),
        ensures
            final(self).wf(),
            old(self).remaining_values().len() == 0 ==> r is None && final(self).remaining_values()
                == old(self).remaining_values(),
            old(self).remaining_values().len() > 0 ==> r == Some(old(self).remaining_values()[0])
                && final(self).remaining_values() =~= old(self).remaining_values().drop_first(),
    {
        if self.pos < self.values.len() {
            let v = self.values[self.pos];
            proof {
                assert(self.values@.skip(self.pos as int)[0] == self.values@[self.pos as int]);
            }
            self.pos = self.pos + 1;
            Some(v)
        } else {
            proof {
                assert(self.values@.skip(self.pos as int).len() == 0);
            }
            None
        }
    }

    /// How many values are still to come.
    pub fn size_hint(&self) -> (r: usize)
        requires
            self.wf(),
        ensures
            r == self.remaining_values().len(),
    {
        self.values.len() - self.pos
    }
}

} // verus!
