//! A node of the B-tree: up to `CAPACITY` sorted elements, with one child
//! between and around them on inner nodes.

use vstd::multiset::Multiset;
use vstd::prelude::*;

use crate::btree::CAPACITY;

verus! {

broadcast use {vstd::multiset::group_multiset_axioms, vstd::seq_lib::group_to_multiset_ensures};

/// A B-tree node; a leaf holds no children.
pub struct Node {
    pub elements: Vec<i64>,
    pub children: Vec<Node>,
}

/// The values held by a run of nodes, as a multiset.
pub open spec fn children_mset(nodes: Seq<Node>) -> Multiset<i64>
    decreases nodes,
{
    if nodes.len() == 0 {
        Multiset::empty()
    } else {
        nodes[0].mset().add(children_mset(nodes.drop_first()))
    }
}

/// Nodes of a run are all well-formed.
pub open spec fn children_wf(nodes: Seq<Node>) -> bool
    decreases nodes,
{
    if nodes.len() == 0 {
        true
    } else {
        nodes[0].wf() && children_wf(nodes.drop_first())
    }
}

/// An integer sequence sorted non-decreasingly.
pub open spec fn sorted(s: Seq<i64>) -> bool {
    forall|i: int, j: int| 0 <= i <= j < s.len() ==> s[i] <= s[j]
}

impl Node {
    /// All values in the subtree, as a multiset.
    pub open spec fn mset(self) -> Multiset<i64>
        decreases self,
    {
        self.elements@.to_multiset().add(children_mset(self.children@))
    }

    /// Well-formedness: at most `CAPACITY` sorted elements, a child between
    /// and around them unless the node is a leaf, every child well-formed,
    /// and each child's values between the neighbouring elements.
    pub open spec fn wf(self) -> bool
        decreases self,
    {
        &&& self.elements@.len() <= CAPACITY
        &&& sorted(self.elements@)
        &&& (self.children@.len() == 0 || self.children@.len() == self.elements@.len() + 1)
        &&& children_wf(self.children@)
        &&& forall|i: int, x: i64|
            0 <= i < self.children@.len() && (#[trigger] self.children@[i].mset().count(x)) > 0
                ==> (i > 0 ==> self.elements@[i - 1] <= x) && (i < self.elements@.len()
                ==> x <= self.elements@[i])
    }

    /// Number of elements directly in this node.
    pub fn len(&self) -> (n: usize)
        ensures
            n == self.elements@.len(),
    {
        self.elements.len()
    }

    /// Whether this node is a leaf.
    pub fn is_leaf(&self) -> (r: bool)
        ensures
            r == (self.children@.len() == 0),
    {
        self.children.len() == 0
    }
}

impl Node {
    /// Collect the values of the subtree into a sorted vector.
    pub fn to_vec(&self) -> (r: Vec<i64>)
        requires
            self.wf(),
        ensures
            r@.to_multiset() == self.mset(),
            sorted(r@),
        decreases self,
    {
        let mut r: Vec<i64> = Vec::new();
        if self.children.len() == 0 {
            let mut i: usize = 0;
            while i < self.elements.len()
                invariant
                    0 <= i <= self.elements@.len(),
                    r@ == self.elements@.take(i as int),
                decreases self.elements@.len() - i,
            {
                r.push(self.elements[i]);
                proof {
                    assert(r@ =~= self.elements@.take(i + 1));
                }
                i = i + 1;
            }
            proof {
                assert(r@ =~= self.elements@);
                assert(children_mset(self.children@) =~= Multiset::empty());
                assert(r@.to_multiset() =~= self.mset());
            }
            r
        } else {
            let n = self.children.len();
            let ghost elen = self.elements@.len() as int;
            let mut i: usize = 0;
            while i < n
                invariant
                    self.wf(),
                    n == self.children@.len(),
                    n == self.elements@.len() + 1,
                    elen == self.elements@.len(),
                    0 <= i <= n,
                    sorted(r@),
                    r@.to_multiset() =~= children_mset(self.children@.take(i as int)).add(
                        self.elements@.take(if i <= elen {
                            i as int
                        } else {
                            elen
                        }).to_multiset(),
                    ),
                    forall|k: int|
                        0 <= k < r@.len() && 1 <= i <= elen ==> #[trigger] r@[k]
                            <= self.elements@[i - 1],
                decreases n - i,
            {
                proof {
                    assert(decreases_to!(self => self.children@[i as int]));
                    lemma_children_wf_index(self.children@);
                }
                let ghost r0 = r@;
                let mut part = self.children[i].to_vec();
                let ghost pv = part@;
                r.append(&mut part);
                proof {
                    assert(r@ == r0 + pv);
                    vstd::seq_lib::lemma_multiset_commutative(r0, pv);
                    lemma_children_mset_take(self.children@, i as int);
                    assert(self.children@.take(i + 1).drop_last() =~= self.children@.take(i as int));
                    // Every appended value sits between the neighbouring elements
                    assert(forall|k: int|
                        0 <= k < pv.len() ==> (#[trigger] pv[k]) == r@[r0.len() + k]);
                    assert forall|k: int| 0 <= k < pv.len() implies (i > 0 ==> self.elements@[i
                        - 1] <= #[trigger] pv[k]) && (i < elen ==> pv[k] <= self.elements@[i as int])
                        by {
                        assert(pv.to_multiset().count(pv[k]) > 0) by {
                            vstd::seq_lib::to_multiset_contains(pv, pv[k]);
                        }
                        assert(self.children@[i as int].mset().count(pv[k]) > 0);
                    }
                    if i == 0 {
                        vstd::seq_lib::to_multiset_len(r0);
                        assert(children_mset(self.children@.take(0)) == Multiset::<
                            i64,
                        >::empty()) by {
                            assert(self.children@.take(0) =~= Seq::<Node>::empty());
                        }
                        assert(self.elements@.take(0).to_multiset() =~= Multiset::empty());
                        assert(r0.len() == 0);
                    }
                    assert forall|a: int, b: int| 0 <= a <= b < r@.len() implies r@[a]
                        <= r@[b] by {
                        if b < r0.len() {
                            assert(r@[a] == r0[a] && r@[b] == r0[b]);
                        } else if a >= r0.len() {
                            assert(r@[a] == pv[a - r0.len()] && r@[b] == pv[b - r0.len()]);
                        } else {
                            assert(r@[a] == r0[a] && r@[b] == pv[b - r0.len()]);
                            assert(r0[a] <= self.elements@[i - 1]);
                            assert(self.elements@[i - 1] <= pv[b - r0.len()]);
                        }
                    }
                }
                if i < self.elements.len() {
                    let ghost r1 = r@;
                    r.push(self.elements[i]);
                    proof {
                        assert(r@ == r1.push(self.elements@[i as int]));
                        assert(r@ =~= r1.insert(r1.len() as int, self.elements@[i as int]));
                        vstd::seq_lib::to_multiset_insert(
                            r1,
                            r1.len() as int,
                            self.elements@[i as int],
                        );
                        assert(self.elements@.take(i + 1) =~= self.elements@.take(i as int).insert(
                            i as int,
                            self.elements@[i as int],
                        ));
                        vstd::seq_lib::to_multiset_insert(
                            self.elements@.take(i as int),
                            i as int,
                            self.elements@[i as int],
                        );
                        assert(sorted(r@)) by {
                            assert(forall|k: int| 0 <= k < r1.len() ==> r@[k] == r1[k]);
                            assert forall|k: int| 0 <= k < r1.len() implies #[trigger] r1[k]
                                <= self.elements@[i as int] by {
                                if k < r0.len() {
                                    assert(r1[k] == r0[k]);
                                    if i > 0 {
                                        assert(r0[k] <= self.elements@[i - 1]);
                                        assert(self.elements@[i - 1] <= self.elements@[i as int]);
                                    } else {
                                        assert(r0.len() == 0);
                                    }
                                } else {
                                    assert(r1[k] == pv[k - r0.len()]);
                                }
                            }
                        }
                        assert(r@.to_multiset() =~= children_mset(self.children@.take(i + 1)).add(
                            self.elements@.take(i + 1).to_multiset(),
                        ));
                    }
                } else {
                    proof {
                        assert(i as int == elen);
                        assert(r@.to_multiset() =~= children_mset(self.children@.take(i + 1)).add(
                            self.elements@.take(elen).to_multiset(),
                        ));
                    }
                }
                i = i + 1;
            }
            proof {
                assert(self.children@.take(n as int) =~= self.children@);
                assert(self.elements@.take(elen) =~= self.elements@);
                assert(r@.to_multiset() =~= self.mset());
            }
            r
        }
    }
}

impl Node {
    /// Insert a value into the subtree; when the node overflows it splits,
    /// handing the median and the new right sibling up to the caller.
    #[verifier::rlimit(100)]
    pub(crate) fn insert_rec(&mut self, value: i64) -> (res: Option<(i64, Node)>)
        requires
            old(self).wf(),
        ensures
            match res {
                None => final(self).wf() && final(self).mset() == old(self).mset().insert(value),
                Some(p) => final(self).wf() && p.1.wf() && final(self).mset().add(
                    p.1.mset(),
                ).insert(p.0) == old(self).mset().insert(value) && (forall|x: i64|
                    final(self).mset().count(x) > 0 ==> x <= p.0) && (forall|x: i64|
                    p.1.mset().count(x) > 0 ==> x >= p.0),
            },
        decreases *old(self),
    {
        // Find the first index whose element is greater than the value
        let mut idx: usize = 0;
        while idx < self.elements.len() && self.elements[idx] <= value
            invariant
                self == old(self),
                0 <= idx <= self.elements@.len(),
                forall|j: int| 0 <= j < idx ==> self.elements@[j] <= value,
            decreases self.elements@.len() - idx,
        {
            idx = idx + 1;
        }
        if self.children.len() == 0 {
            // Leaf: insert in place
            let ghost e0 = self.elements@;
            self.elements.insert(idx, value);
            proof {
                vstd::seq_lib::to_multiset_insert(e0, idx as int, value);
                assert(children_mset(self.children@) =~= Multiset::empty());
                assert(self.mset() =~= old(self).mset().insert(value));
                assert(sorted(self.elements@)) by {
                    assert(forall|j: int| 0 <= j < idx ==> self.elements@[j] == e0[j]);
                    assert(forall|j: int|
                        idx < j < self.elements@.len() ==> #[trigger] self.elements@[j] == e0[j - 1]
                            && e0[j - 1] > value);
                }
            }
            if self.elements.len() > CAPACITY {
                Some(self.split())
            } else {
                None
            }
        } else {
            // Inner node: recurse into the child at the insertion point
            proof {
                lemma_children_wf_index(self.children@);
                lemma_children_mset_split3(self.children@, idx as int);
                assert(decreases_to!(*old(self) => old(self).children@[idx as int]));
            }
            let ghost c0 = self.children@;
            let ghost e0 = self.elements@;
            let mut child = self.children.remove(idx);
            let r = child.insert_rec(value);
            match r {
                None => {
                    self.children.insert(idx, child);
                    proof {
                        assert(self.children@ =~= c0.update(idx as int, child));
                        lemma_children_mset_split3(c0, idx as int);
                        lemma_children_mset_split3(self.children@, idx as int);
                        assert(self.children@.take(idx as int) =~= c0.take(idx as int));
                        assert(self.children@.skip(idx + 1) =~= c0.skip(idx + 1));
                        assert(self.children@[idx as int] == child);
                        assert(children_mset(self.children@) =~= children_mset(c0).insert(value));
                        assert(self.mset() =~= old(self).mset().insert(value));
                        assert forall|i: int| 0 <= i < self.children@.len() implies (
                        #[trigger] self.children@[i]).wf() by {
                            lemma_children_wf_index(c0);
                            if i != idx {
                                assert(self.children@[i] == c0[i]);
                            }
                        }
                        lemma_children_wf_build(self.children@);
                        assert(self.wf()) by {
                            assert forall|i: int, x: i64|
                                0 <= i < self.children@.len() && (
                                #[trigger] self.children@[i].mset().count(x)) > 0 implies (i > 0
                                ==> self.elements@[i - 1] <= x) && (i < self.elements@.len()
                                ==> x <= self.elements@[i]) by {
                                if i != idx {
                                    assert(self.children@[i] == c0[i]);
                                } else {
                                    assert(c0[i].mset().count(x) > 0 || x == value);
                                }
                            }
                        }
                    }
                    None
                },
                Some((med, right)) => {
                    self.children.insert(idx, child);
                    self.children.insert(idx + 1, right);
                    self.elements.insert(idx, med);
                    proof {
                        assert(self.elements@ =~= e0.insert(idx as int, med));
                        vstd::seq_lib::to_multiset_insert(e0, idx as int, med);
                        let u = c0.update(idx as int, child);
                        assert(self.children@ =~= u.insert(idx + 1, right));
                        lemma_children_mset_split3(c0, idx as int);
                        lemma_children_mset_split3(u, idx as int);
                        assert(u.take(idx as int) =~= c0.take(idx as int));
                        assert(u.skip(idx + 1) =~= c0.skip(idx + 1));
                        assert(u[idx as int] == child);
                        assert(u.insert(idx + 1, right) =~= u.take(idx + 1) + (seq![right]
                            + u.skip(idx + 1)));
                        lemma_children_mset_concat(u.take(idx + 1), seq![right] + u.skip(idx + 1));
                        lemma_children_mset_concat(seq![right], u.skip(idx + 1));
                        assert(children_mset(seq![right]) =~= right.mset()) by {
                            assert(seq![right].drop_first() =~= Seq::<Node>::empty());
                            assert(children_mset(Seq::<Node>::empty())
                                == Multiset::<i64>::empty());
                            assert(seq![right][0] == right);
                        }
                        assert(u =~= u.take(idx + 1) + u.skip(idx + 1));
                        lemma_children_mset_concat(u.take(idx + 1), u.skip(idx + 1));
                        assert(children_mset(self.children@) =~= children_mset(u).add(
                            right.mset(),
                        ));
                        let em0 = e0.to_multiset();
                        let ca = children_mset(c0.take(idx as int));
                        let cb = children_mset(c0.skip(idx + 1));
                        assert(children_mset(c0) == ca.add(c0[idx as int].mset()).add(cb));
                        assert(children_mset(u) == ca.add(child.mset()).add(cb));
                        assert(self.elements@.to_multiset() == em0.insert(med));
                        assert(child.mset().add(right.mset()).insert(med) == c0[
                            idx as int
                        ].mset().insert(value));
                        lemma_mset_recombine(
                            em0,
                            ca,
                            cb,
                            child.mset(),
                            right.mset(),
                            c0[idx as int].mset(),
                            med,
                            value,
                        );
                        assert(self.mset() == em0.insert(med).add(
                            ca.add(child.mset()).add(cb).add(right.mset()),
                        ));
                        assert(old(self).mset() == em0.add(ca.add(c0[idx as int].mset()).add(cb)));
                        assert(self.mset() == old(self).mset().insert(value));
                        // The median lies within the old child's range
                        assert(child.mset().add(right.mset()).insert(med).count(med) > 0);
                        assert(c0[idx as int].mset().insert(value).count(med) > 0);
                        assert(c0[idx as int].mset().count(med) > 0 || med == value);
                        assert(idx > 0 ==> e0[idx - 1] <= med);
                        assert(idx < e0.len() ==> med <= e0[idx as int]);
                        assert(sorted(self.elements@)) by {
                            assert(forall|j: int| 0 <= j < idx ==> self.elements@[j] == e0[j]);
                            assert(self.elements@[idx as int] == med);
                            assert(forall|j: int|
                                idx < j < self.elements@.len() ==> #[trigger] self.elements@[j]
                                    == e0[j - 1]);
                            assert(forall|j: int|
                                idx <= j - 1 < e0.len() ==> #[trigger] e0[j - 1] >= e0[idx as int]
                                    || idx == e0.len());
                        }
                        assert forall|i: int| 0 <= i < self.children@.len() implies (
                        #[trigger] self.children@[i]).wf() by {
                            lemma_children_wf_index(c0);
                            if i < idx {
                                assert(self.children@[i] == c0[i]);
                            } else if i > idx + 1 {
                                assert(self.children@[i] == c0[i - 1]);
                            }
                        }
                        lemma_children_wf_build(self.children@);
                        assert forall|i: int, x: i64|
                            0 <= i < self.children@.len() && (
                            #[trigger] self.children@[i].mset().count(x)) > 0 implies (i > 0
                            ==> self.elements@[i - 1] <= x) && (i < self.elements@.len()
                            ==> x <= self.elements@[i]) by {
                            {
                                if i < idx {
                                    assert(self.children@[i] == c0[i]);
                                    assert(i > 0 ==> self.elements@[i - 1] == e0[i - 1]);
                                    assert(self.elements@[i] == e0[i]);
                                } else if i == idx {
                                    assert(self.children@[i] == child);
                                    assert(x <= med);
                                    assert(self.elements@[i] == med);
                                    if i > 0 {
                                        assert(self.elements@[i - 1] == e0[idx - 1]);
                                        assert(child.mset().add(right.mset()).insert(med).count(x)
                                            > 0);
                                        assert(c0[idx as int].mset().count(x) > 0 || x == value);
                                        assert(e0[idx - 1] <= x);
                                    }
                                } else if i == idx + 1 {
                                    assert(self.children@[i] == right);
                                    assert(x >= med);
                                    assert(self.elements@[i - 1] == med);
                                    if i < self.elements@.len() {
                                        assert(self.elements@[i] == e0[idx as int]);
                                        assert(right.mset().count(x) > 0 ==> child.mset().add(
                                            right.mset(),
                                        ).insert(med).count(x) > 0);
                                        assert(c0[idx as int].mset().count(x) > 0 || x == value);
                                        assert(x <= e0[idx as int]);
                                    }
                                } else {
                                    assert(self.children@[i] == c0[i - 1]);
                                    assert(self.elements@[i - 1] == e0[i - 2]);
                                    assert(i < self.elements@.len() ==> self.elements@[i] == e0[i
                                        - 1]);
                                }
                            }
                        }
                    }
                    if self.elements.len() > CAPACITY {
                        Some(self.split())
                    } else {
                        None
                    }
                },
            }
        }
    }

    /// Split an overflowing node around its median: the node keeps the left
    /// half, and the median plus the right half are handed back.
    fn split(&mut self) -> (res: (i64, Node))
        requires
            old(self).elements@.len() == CAPACITY + 1,
            sorted(old(self).elements@),
            old(self).children@.len() == 0 || old(self).children@.len() == old(
                self,
            ).elements@.len() + 1,
            children_wf(old(self).children@),
            forall|i: int, x: i64|
                0 <= i < old(self).children@.len() && (#[trigger] old(
                    self,
                ).children@[i].mset().count(x)) > 0 ==> (i > 0 ==> old(self).elements@[i - 1] <= x)
                    && (i < old(self).elements@.len() ==> x <= old(self).elements@[i]),
        ensures
            final(self).wf(),
            res.1.wf(),
            final(self).mset().add(res.1.mset()).insert(res.0) == old(self).mset(),
            forall|x: i64| final(self).mset().count(x) > 0 ==> x <= res.0,
            forall|x: i64| res.1.mset().count(x) > 0 ==> x >= res.0,
            final(self).elements@.len() >= 1,
            res.1.elements@.len() >= 1,
    {
        let ghost e0 = self.elements@;
        let ghost c0 = self.children@;
        let mid = self.elements.len() / 2;
        let mut tail = self.elements.split_off(mid);
        let median = tail.remove(0);
        let right_children = if self.children.len() == 0 {
            Vec::new()
        } else {
            self.children.split_off(mid + 1)
        };
        proof {
            assert(self.elements@ =~= e0.take(mid as int));
            assert(tail@ =~= e0.skip(mid + 1));
            assert(median == e0[mid as int]);
            assert(e0 =~= e0.take(mid as int) + seq![median] + e0.skip(mid + 1));
            vstd::seq_lib::lemma_multiset_commutative(
                e0.take(mid as int) + seq![median],
                e0.skip(mid + 1),
            );
            vstd::seq_lib::lemma_multiset_commutative(e0.take(mid as int), seq![median]);
            assert(seq![median].to_multiset() =~= Multiset::empty().insert(median));
            if c0.len() > 0 {
                assert(self.children@ =~= c0.take(mid + 1));
                assert(right_children@ =~= c0.skip(mid + 1));
                assert(c0 =~= c0.take(mid + 1) + c0.skip(mid + 1));
                lemma_children_mset_concat(c0.take(mid + 1), c0.skip(mid + 1));
                lemma_children_wf_index(c0);
                lemma_children_wf_build(self.children@);
                lemma_children_wf_build(right_children@);
            } else {
                assert(children_mset(self.children@) =~= Multiset::empty());
                assert(children_mset(right_children@) =~= Multiset::empty());
            }
        }
        let right = Node { elements: tail, children: right_children };
        proof {
            let lf = self;
            assert(lf.mset().add(right.mset()).insert(median) =~= old(self).mset());
            assert(sorted(lf.elements@)) by {
                assert(forall|j: int| 0 <= j < mid ==> lf.elements@[j] == e0[j]);
            }
            assert(sorted(right.elements@)) by {
                assert(forall|j: int|
                    0 <= j < right.elements@.len() ==> right.elements@[j] == e0[j + mid + 1]);
            }
            // Range separation around the median
            assert forall|x: i64| lf.mset().count(x) > 0 implies x <= median by {
                if lf.elements@.to_multiset().count(x) > 0 {
                    vstd::seq_lib::to_multiset_contains(lf.elements@, x);
                    let k = choose|k: int| 0 <= k < lf.elements@.len() && lf.elements@[k] == x;
                    assert(e0[k] == x);
                } else {
                    lemma_children_member(lf.children@, x);
                    let k = choose|k: int|
                        0 <= k < lf.children@.len() && lf.children@[k].mset().count(x) > 0;
                    assert(c0[k].mset().count(x) > 0);
                    assert(k < c0.len() - 1 ==> x <= e0[k]);
                    assert(x <= e0[mid as int]);
                }
            }
            assert forall|x: i64| right.mset().count(x) > 0 implies x >= median by {
                if right.elements@.to_multiset().count(x) > 0 {
                    vstd::seq_lib::to_multiset_contains(right.elements@, x);
                    let k = choose|k: int|
                        0 <= k < right.elements@.len() && right.elements@[k] == x;
                    assert(e0[k + mid + 1] == x);
                } else {
                    lemma_children_member(right.children@, x);
                    let k = choose|k: int|
                        0 <= k < right.children@.len() && right.children@[k].mset().count(x) > 0;
                    assert(c0[k + mid + 1].mset().count(x) > 0);
                    assert(x >= e0[k + mid + 1 - 1]);
                }
            }
            // Bounds inside each half
            assert forall|i: int, x: i64|
                0 <= i < lf.children@.len() && (#[trigger] lf.children@[i].mset().count(x)) > 0
                implies (i > 0 ==> lf.elements@[i - 1] <= x) && (i < lf.elements@.len()
                ==> x <= lf.elements@[i]) by {
                assert(lf.children@[i] == c0[i]);
            }
            assert forall|i: int, x: i64|
                0 <= i < right.children@.len() && (#[trigger] right.children@[i].mset().count(x))
                    > 0 implies (i > 0 ==> right.elements@[i - 1] <= x) && (i
                < right.elements@.len() ==> x <= right.elements@[i]) by {
                assert(right.children@[i] == c0[i + mid + 1]);
                assert(c0[i + mid + 1].mset().count(x) > 0);
            }
        }
        (median, right)
    }
}

/// Recombination of the subtree multiset after a child split: folding the
/// split child, its new right sibling and the median back together yields
/// the old subtree contents plus the inserted value.
proof fn lemma_mset_recombine(
    em0: Multiset<i64>,
    ca: Multiset<i64>,
    cb: Multiset<i64>,
    child_m: Multiset<i64>,
    right_m: Multiset<i64>,
    old_child: Multiset<i64>,
    med: i64,
    value: i64,
)
    requires
        child_m.add(right_m).insert(med) == old_child.insert(value),
    ensures
        em0.insert(med).add(ca.add(child_m).add(cb).add(right_m)) == em0.add(
            ca.add(old_child).add(cb),
        ).insert(value),
{
    broadcast use vstd::multiset::group_multiset_axioms;

    assert forall|x: i64|
        em0.insert(med).add(ca.add(child_m).add(cb).add(right_m)).count(x) == em0.add(
            ca.add(old_child).add(cb),
        ).insert(value).count(x) by {
        let sm = Multiset::singleton(med);
        let sv = Multiset::singleton(value);
        assert(child_m.add(right_m).insert(med).count(x) == old_child.insert(value).count(x));
        assert(child_m.add(right_m).insert(med).count(x) == child_m.count(x) + right_m.count(x)
            + sm.count(x));
        assert(old_child.insert(value).count(x) == old_child.count(x) + sv.count(x));
        assert(em0.insert(med).add(ca.add(child_m).add(cb).add(right_m)).count(x) == em0.count(x)
            + sm.count(x) + ca.count(x) + child_m.count(x) + cb.count(x) + right_m.count(x));
        assert(em0.add(ca.add(old_child).add(cb)).insert(value).count(x) == em0.count(x)
            + ca.count(x) + old_child.count(x) + cb.count(x) + sv.count(x));
    }
    assert(em0.insert(med).add(ca.add(child_m).add(cb).add(right_m)) =~= em0.add(
        ca.add(old_child).add(cb),
    ).insert(value));
}

/// A value in the run multiset comes from one of the nodes.
proof fn lemma_children_member(nodes: Seq<Node>, x: i64)
    requires
        children_mset(nodes).count(x) > 0,
    ensures
        exists|k: int| 0 <= k < nodes.len() && (#[trigger] nodes[k].mset().count(x)) > 0,
    decreases nodes.len(),
{
    if nodes.len() > 0 {
        if nodes[0].mset().count(x) > 0 {
        } else {
            lemma_children_member(nodes.drop_first(), x);
            let k = choose|k: int|
                0 <= k < nodes.drop_first().len() && (#[trigger] nodes.drop_first()[k].mset().count(
                    x,
                )) > 0;
            assert(nodes[k + 1].mset().count(x) > 0);
        }
    }
}

/// The run multiset splits into the parts before, at and after any index.
proof fn lemma_children_mset_split3(nodes: Seq<Node>, i: int)
    requires
        0 <= i < nodes.len(),
    ensures
        children_mset(nodes) == children_mset(nodes.take(i)).add(nodes[i].mset()).add(
            children_mset(nodes.skip(i + 1)),
        ),
{
    assert(nodes =~= nodes.take(i) + (seq![nodes[i]] + nodes.skip(i + 1)));
    lemma_children_mset_concat(nodes.take(i), seq![nodes[i]] + nodes.skip(i + 1));
    lemma_children_mset_concat(seq![nodes[i]], nodes.skip(i + 1));
    assert(children_mset(seq![nodes[i]]) =~= nodes[i].mset()) by {
        assert(seq![nodes[i]].drop_first() =~= Seq::<Node>::empty());
        assert(children_mset(Seq::<Node>::empty()) == Multiset::<i64>::empty());
        assert(seq![nodes[i]][0] == nodes[i]);
    }
    assert(children_mset(nodes) =~= children_mset(nodes.take(i)).add(nodes[i].mset()).add(
        children_mset(nodes.skip(i + 1)),
    ));
}

/// The run multiset splits around any index.
pub proof fn lemma_children_mset_take(nodes: Seq<Node>, i: int)
    requires
        0 <= i < nodes.len(),
    ensures
        children_mset(nodes.take(i + 1)) == children_mset(nodes.take(i)).add(nodes[i].mset()),
    decreases i,
{
    if i == 0 {
        assert(nodes.take(1).drop_first() =~= Seq::<Node>::empty());
        assert(nodes.take(0) =~= Seq::<Node>::empty());
        assert(nodes.take(1)[0] == nodes[0]);
        assert(children_mset(nodes.take(1)) =~= nodes[0].mset().add(Multiset::empty()));
        assert(children_mset(nodes.take(1)) =~= children_mset(nodes.take(0)).add(nodes[0].mset()));
    } else {
        let d = nodes.drop_first();
        assert(nodes.take(i + 1).drop_first() =~= d.take(i));
        assert(nodes.take(i).drop_first() =~= d.take(i - 1));
        assert(nodes.take(i + 1)[0] == nodes[0]);
        assert(nodes.take(i)[0] == nodes[0]);
        assert(d[i - 1] == nodes[i]);
        lemma_children_mset_take(d, i - 1);
        assert(children_mset(nodes.take(i + 1)) == nodes[0].mset().add(children_mset(d.take(i))));
        assert(children_mset(nodes.take(i)) == nodes[0].mset().add(children_mset(d.take(i - 1))));
        assert(children_mset(nodes.take(i + 1)) =~= children_mset(nodes.take(i)).add(
            nodes[i].mset(),
        ));
    }
}

/// The run multiset of a full take is the run multiset.
pub proof fn lemma_children_mset_whole(nodes: Seq<Node>)
    ensures
        children_mset(nodes.take(nodes.len() as int)) == children_mset(nodes),
{
    assert(nodes.take(nodes.len() as int) =~= nodes);
}

/// Well-formedness of each node of a run, index form.
pub proof fn lemma_children_wf_index(nodes: Seq<Node>)
    requires
        children_wf(nodes),
    ensures
        forall|i: int| 0 <= i < nodes.len() ==> (#[trigger] nodes[i]).wf(),
    decreases nodes.len(),
{
    if nodes.len() > 0 {
        let d = nodes.drop_first();
        lemma_children_wf_index(d);
        assert(forall|i: int| 1 <= i < nodes.len() ==> nodes[i] == d[i - 1]);
    }
}

/// Rebuild `children_wf` from indexwise well-formedness.
pub proof fn lemma_children_wf_build(nodes: Seq<Node>)
    requires
        forall|i: int| 0 <= i < nodes.len() ==> (#[trigger] nodes[i]).wf(),
    ensures
        children_wf(nodes),
    decreases nodes.len(),
{
    if nodes.len() > 0 {
        let d = nodes.drop_first();
        assert(forall|i: int| 0 <= i < d.len() ==> d[i] == nodes[i + 1]);
        lemma_children_wf_build(d);
    }
}

/// The run multiset over a concatenation.
pub proof fn lemma_children_mset_concat(a: Seq<Node>, b: Seq<Node>)
    ensures
        children_mset(a + b) == children_mset(a).add(children_mset(b)),
    decreases a.len(),
{
    if a.len() == 0 {
        assert(a + b =~= b);
        assert(children_mset(a) =~= Multiset::empty());
        assert(children_mset(a + b) =~= children_mset(a).add(children_mset(b)));
    } else {
        assert((a + b).drop_first() =~= a.drop_first() + b);
        assert((a + b)[0] == a[0]);
        lemma_children_mset_concat(a.drop_first(), b);
        assert(children_mset(a + b) =~= children_mset(a).add(children_mset(b)));
    }
}

} // verus!
