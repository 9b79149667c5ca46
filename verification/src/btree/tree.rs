//! The B-tree proper: a root node plus a count of the stored values.

use vstd::multiset::Multiset;
use vstd::prelude::*;

use crate::btree::node::{children_mset, sorted, Node};
use crate::btree::tree_iter::TreeIter;
use crate::btree::InsertionPoint;

verus! {

broadcast use {vstd::multiset::group_multiset_axioms, vstd::seq_lib::group_to_multiset_ensures};

/// Index of the leftmost value strictly greater than `v` (`s.len()` if
/// there is none).
pub open spec fn first_gt_val(s: Seq<i64>, v: i64) -> int
    decreases s.len(),
{
    if s.len() == 0 {
        0
    } else if s[0] > v {
        0
    } else {
        1 + first_gt_val(s.drop_first(), v)
    }
}

/// `first_gt_val` is the unique index `k` with everything before at most `v`
/// and the value at `k`, if any, greater than `v`.
proof fn lemma_first_gt_val_char(s: Seq<i64>, v: i64, k: int)
    requires
        0 <= k <= s.len(),
        forall|i: int| 0 <= i < k ==> s[i] <= v,
        k < s.len() ==> s[k] > v,
    ensures
        first_gt_val(s, v) == k,
    decreases s.len(),
{
    if s.len() == 0 {
    } else if k == 0 {
    } else {
        let d = s.drop_first();
        assert(forall|i: int| 0 <= i < k - 1 ==> d[i] == s[i + 1] && d[i] <= v);
        assert(k - 1 < d.len() ==> d[k - 1] == s[k]);
        lemma_first_gt_val_char(d, v, k - 1);
    }
}

/// Where `v` enters the sorted contents `sv`: the empty tree, a new
/// minimum (with the current minimum and its successor), a new maximum
/// (with the current maximum), or an intermediate value (with the first
/// value strictly greater).
pub open spec fn classify_spec(sv: Seq<i64>, v: i64) -> InsertionPoint {
    if sv.len() == 0 {
        InsertionPoint::Empty
    } else if v < sv[0] {
        InsertionPoint::Minimum(
            sv[0],
            if sv.len() > 1 {
                Some(sv[1])
            } else {
                None
            },
        )
    } else if v >= sv.last() {
        InsertionPoint::Maximum(sv.last())
    } else {
        InsertionPoint::Intermediate(sv[first_gt_val(sv, v)])
    }
}

/// An ordered container of values, duplicates allowed, with sorted
/// iteration.
pub struct BTree {
    pub root: Node,
    pub(crate) len: usize,
}

impl BTree {
    /// All stored values, as a multiset.
    pub closed spec fn mset(self) -> Multiset<i64> {
        self.root.mset()
    }

    /// The root is well-formed and the count matches the contents.
    pub closed spec fn wf(self) -> bool {
        self.root.wf() && self.len == self.mset().len()
    }

    /// A well-formed tree's contents are those of its root.
    pub(crate) proof fn lemma_wf_facts(self)
        requires
            self.wf(),
        ensures
            self.root.wf(),
            self.mset() == self.root.mset(),
    {
    }

    /// Create an empty tree.
    pub fn new() -> (t: BTree)
        ensures
            t.wf(),
            t.mset() =~= Multiset::<i64>::empty(),
    {
        let t = BTree { root: Node { elements: Vec::new(), children: Vec::new() }, len: 0 };
        proof {
            assert(children_mset(t.root.children@) =~= Multiset::empty());
            assert(t.root.elements@.to_multiset() =~= Multiset::empty());
            assert(t.mset() =~= Multiset::<i64>::empty());
            vstd::seq_lib::to_multiset_len(t.root.elements@);
        }
        t
    }

    /// Return the total number of values present in the tree.
    pub fn len(&self) -> (n: usize)
        requires
            self.wf(),
        ensures
            n == self.mset().len(),
    {
        self.len
    }

    /// Insert a new value into the tree, keeping it ordered.
    pub fn insert(&mut self, value: i64)
        requires
            old(self).wf(),
            old(self).mset().len() < usize::MAX,
        ensures
            final(self).wf(),
            final(self).mset() == old(self).mset().insert(value),
    {
        match self.root.insert_rec(value) {
            None => {},
            Some((median, right)) => {
                // Splitting reached the root: build a new root node
                let mut left = Node { elements: Vec::new(), children: Vec::new() };
                std::mem::swap(&mut left, &mut self.root);
                let mut elements: Vec<i64> = Vec::new();
                elements.push(median);
                let mut children: Vec<Node> = Vec::new();
                let ghost left_snap = left;
                let ghost right_snap = right;
                children.push(left);
                children.push(right);
                self.root = Node { elements, children };
                proof {
                    let cs = self.root.children@;
                    assert(cs =~= seq![left_snap, right_snap]);
                    assert(cs.drop_first() =~= seq![right_snap]);
                    assert(seq![right_snap].drop_first() =~= Seq::<Node>::empty());
                    assert(children_mset(Seq::<Node>::empty()) == Multiset::<i64>::empty());
                    assert(cs[0] == left_snap && cs.drop_first()[0] == right_snap);
                    assert(children_mset(seq![right_snap]) =~= right_snap.mset());
                    assert(children_mset(cs) == cs[0].mset().add(children_mset(cs.drop_first())));
                    assert(children_mset(cs) =~= left_snap.mset().add(right_snap.mset()));
                    assert(self.root.elements@ =~= seq![median]);
                    assert(seq![median] =~= Seq::<i64>::empty().insert(0, median));
                    vstd::seq_lib::to_multiset_insert(Seq::<i64>::empty(), 0, median);
                    assert(Seq::<i64>::empty().to_multiset() =~= Multiset::<i64>::empty());
                    assert(seq![median].to_multiset() =~= Multiset::empty().insert(median));
                    assert(self.root.mset() =~= left_snap.mset().add(right_snap.mset()).insert(
                        median,
                    ));
                    assert(crate::btree::node::children_wf(cs)) by {
                        assert(cs[0].wf() && cs[1].wf());
                        crate::btree::node::lemma_children_wf_build(cs);
                    }
                    assert(self.root.wf()) by {
                        assert forall|i: int, x: i64|
                            0 <= i < cs.len() && (#[trigger] cs[i].mset().count(x)) > 0 implies (i
                            > 0 ==> self.root.elements@[i - 1] <= x) && (i
                            < self.root.elements@.len() ==> x <= self.root.elements@[i]) by {
                            if i == 0 {
                                assert(cs[i] == left_snap);
                            } else {
                                assert(cs[i] == right_snap);
                            }
                        }
                    }
                }
            },
        }
        self.len = self.len + 1;
    }

    /// Possibly insert a new value:
    ///
    /// 1. find where `search_value` would be inserted;
    /// 2. call the closure with that insertion point; it may return a value,
    ///    which must compare equal to `search_value`, to be inserted there;
    /// 3. if a value was returned, insert it.
    pub fn try_insert<F: FnOnce(InsertionPoint) -> Option<i64>>(
        &mut self,
        search_value: &i64,
        get_insert_value: F,
    )
        requires
            old(self).wf(),
            old(self).mset().len() < usize::MAX,
            forall|p: InsertionPoint| #[trigger] get_insert_value.requires((p,)),
            forall|p: InsertionPoint, ret: Option<i64>|
                #[trigger] get_insert_value.ensures((p,), ret) ==> (ret is Some ==> ret->0
                    == search_value),
        ensures
            final(self).wf(),
            final(self).mset() == old(self).mset() || final(self).mset() == old(
                self,
            ).mset().insert(*search_value),
            exists|p: InsertionPoint, ret: Option<i64>|
                get_insert_value.ensures((p,), ret) && if ret is Some {
                    final(self).mset() == old(self).mset().insert(*search_value)
                } else {
                    final(self).mset() == old(self).mset()
                },
    {
        let sorted_view = self.root.to_vec();
        let ghost sv = sorted_view@;
        let n = sorted_view.len();
        let point = if n == 0 {
            InsertionPoint::Empty
        } else if *search_value < sorted_view[0] {
            InsertionPoint::Minimum(
                sorted_view[0],
                if n > 1 {
                    Some(sorted_view[1])
                } else {
                    None
                },
            )
        } else if *search_value >= sorted_view[n - 1] {
            InsertionPoint::Maximum(sorted_view[n - 1])
        } else {
            // Find the first value strictly greater than the search value
            let mut i: usize = 0;
            while i < n && sorted_view[i] <= *search_value
                invariant
                    0 <= i <= n,
                    n == sorted_view@.len(),
                    forall|j: int| 0 <= j < i ==> sorted_view@[j] <= *search_value,
                    n > 0 && sorted_view@[n - 1] > *search_value,
                decreases n - i,
            {
                i = i + 1;
            }
            proof {
                assert(i < n);
                lemma_first_gt_val_char(sv, *search_value, i as int);
            }
            InsertionPoint::Intermediate(sorted_view[i])
        };
        proof {
            assert(point == classify_spec(sv, *search_value));
        }
        let decision = get_insert_value(point);
        match decision {
            Some(insert_value) => {
                self.insert(insert_value);
            },
            None => {},
        }
        proof {
            assert(get_insert_value.ensures((classify_spec(sv, *search_value),), decision));
        }
    }

    /// A sorted iterator over the values in the tree.
    pub fn iter(&self) -> (it: TreeIter)
        requires
            self.wf(),
        ensures
            it.wf(),
            it.remaining_values().to_multiset() == self.mset(),
            sorted(it.remaining_values()),
    {
        TreeIter::new(self)
    }
}

} // verus!
