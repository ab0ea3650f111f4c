//! The B-tree: nodes that own their children, and the tree that owns the
//! root. Its model is the sequence of its entries in key order.

use crate::engine::inorder::{
    copies, copy_of, inserted, lemma_copies_inside, lemma_copies_refl, lemma_copies_sorted,
    lemma_insert_inside, lemma_insert_sorted, lemma_lookup_finds, lemma_middle, lemma_rank_between,
    lemma_rank_parts, lemma_remove_inside, lemma_subrange_sorted, lemma_tail_same,
    lemma_values_cloned_concat, lemma_weave_len, lemma_weave_same, lemma_window,
    lemma_without_first, lemma_without_last, lemma_without_sorted, lemma_woven_at, lemma_woven_cut,
    lemma_woven_pair, lemma_woven_rotate, lemma_woven_split, lookup, rank, slot, sorted, spot, tail,
    values_cloned, weave, without, woven,
};
use crate::engine::order::{
    comparisons_specified, exact_clone, key_eq, key_lt, lemma_comparable,
    lemma_comparisons_specified, lemma_lt_excludes, total_order,
};
use vstd::prelude::*;

verus! {

/// One node of the tree: sorted keys, a value for each key, and, unless it
/// is a leaf, one child more than it has keys.
#[derive(Debug, Default)]
pub struct Node<K, V> where K: Ord + Clone + Default, V: Clone + Default {
    pub keys: Vec<K>,
    pub values: Vec<V>,
    pub children: Vec<Box<Node<K, V>>>,
    pub is_leaf: bool,
    pub order: usize,
}

impl<K, V> Node<K, V> where K: Ord + Clone + Default, V: Clone + Default {
    /// The node's own entries, without those of its children.
    pub open spec fn own(&self) -> Seq<(K, V)> {
        Seq::new(self.keys@.len(), |i: int| (self.keys@[i], self.values@[i]))
    }

    /// The entries of each child's subtree, child by child.
    pub open spec fn below(&self) -> Seq<Seq<(K, V)>>
        decreases self, 0nat,
    {
        Seq::new(
            self.children@.len(),
            |i: int|
                if 0 <= i < self.children@.len() {
                    self.children@[i].entries()
                } else {
                    Seq::empty()
                },
        )
    }

    /// All entries of the subtree in order: each child's entries before the
    /// key that parts it from the next child.
    pub open spec fn entries(&self) -> Seq<(K, V)>
        decreases self, 1nat,
    {
        if self.children@.len() == 0 {
            self.own()
        } else {
            woven(self.below(), self.own())
        }
    }

    /// The number of levels below this node, along its first child.
    pub open spec fn height(&self) -> nat
        decreases self,
    {
        if self.children@.len() == 0 {
            0
        } else {
            1 + self.children@[0].height()
        }
    }

    /// The shape of a subtree of minimum degree `t`: at most `2t - 1` keys
    /// in a node and at least `t - 1` in every node below this one, a value
    /// for each key, one child more than keys in an internal node, and all
    /// children of a node equally high.
    pub open spec fn shaped(&self, t: nat) -> bool
        decreases self,
    {
        &&& self.order == t
        &&& self.values@.len() == self.keys@.len()
        &&& self.keys@.len() <= 2 * t - 1
        &&& self.is_leaf <==> self.children@.len() == 0
        &&& !self.is_leaf ==> {
            &&& self.children@.len() == self.keys@.len() + 1
            &&& forall|i: int|
                0 <= i < self.children@.len() ==> {
                    &&& (#[trigger] self.children@[i]).shaped(t)
                    &&& t - 1 <= self.children@[i].keys@.len()
                    &&& self.children@[i].height() + 1 == self.height()
                }
        }
    }

    /// A subtree that the operations accept: well shaped for its own
    /// minimum degree, which is at least 2, and with ascending keys.
    pub open spec fn wf(&self) -> bool {
        &&& self.order >= 2
        &&& self.shaped(self.order as nat)
        &&& sorted(self.entries())
    }

    /// Every leaf of the subtree lies exactly `depth` levels below this node.
    pub open spec fn leaves_at(&self, depth: nat) -> bool
        decreases self,
    {
        if self.children@.len() == 0 {
            depth == 0
        } else {
            depth > 0 && forall|i: int|
                0 <= i < self.children@.len()
                    ==> (#[trigger] self.children@[i]).leaves_at((depth - 1) as nat)
        }
    }

    /// Every internal node of the subtree has one child more than keys.
    pub open spec fn branching(&self) -> bool
        decreases self,
    {
        self.children@.len() == 0 || (self.children@.len() == self.keys@.len() + 1 && forall|i: int|
            0 <= i < self.children@.len() ==> (#[trigger] self.children@[i]).branching())
    }

    /// A well-shaped subtree has all its leaves at the depth of its
    /// height, and one child more than keys in every internal node.
    pub proof fn lemma_balanced(&self, t: nat)
        requires
            self.shaped(t),
        ensures
            self.leaves_at(self.height()),
            self.branching(),
        decreases self,
    {
        if self.children@.len() > 0 {
            assert forall|i: int| 0 <= i < self.children@.len()
                implies (#[trigger] self.children@[i]).leaves_at(
                (self.height() - 1) as nat,
            ) && self.children@[i].branching() by {
                self.children@[i].lemma_balanced(t);
            }
        }
    }

    /// Where the entries of child `idx` begin among the entries of the subtree.
    pub open spec fn start(&self, idx: int) -> int {
        weave(self.below(), self.own(), idx).len() as int
    }

    /// The entries of a child are a window of the node's entries, with the
    /// parting keys right before and right after it.
    pub proof fn lemma_child_window(&self, idx: int)
        requires
            self.children@.len() == self.keys@.len() + 1,
            0 <= idx < self.children@.len(),
        ensures
            self.entries() == weave(self.below(), self.own(), idx) + self.children@[idx].entries() + tail(
                self.below(),
                self.own(),
                idx,
            ),
            0 <= self.start(idx),
            self.start(idx) + self.children@[idx].entries().len() <= self.entries().len(),
            self.entries().subrange(self.start(idx), self.start(idx)
                + self.children@[idx].entries().len()) == self.children@[idx].entries(),
            idx > 0 ==> self.entries()[self.start(idx) - 1] == self.own()[idx - 1],
            idx < self.keys@.len()
                ==> self.entries()[self.start(idx) + self.children@[idx].entries().len()]
                    == self.own()[idx],
    {
        let b = self.below();
        let o = self.own();
        lemma_woven_at(b, o, idx);
        let p = weave(b, o, idx);
        let x = self.children@[idx].entries();
        let q = tail(b, o, idx);
        assert(b[idx] == x);
        assert((p + x + q).subrange(p.len() as int, p.len() + x.len() as int) =~= x);
    }

    /// A fresh node without entries.
    pub fn new(is_leaf: bool, order: usize) -> (node: Self)
        ensures
            node.keys@.len() == 0,
            node.values@.len() == 0,
            node.children@.len() == 0,
            node.is_leaf == is_leaf,
            node.order == order,
    {
        Node { keys: Vec::new(), values: Vec::new(), children: Vec::new(), is_leaf, order }
    }

    /// Whether the node holds the most keys that its minimum degree allows.
    pub fn is_full(&self) -> (full: bool)
        ensures
            full == (self.keys@.len() == 2 * self.order - 1),
    {
        self.order >= 1 && self.keys.len() % 2 == 1 && self.keys.len() / 2 == self.order - 1
    }

    /// The first position whose key does not sort before `key`.
    fn find_key(&self, key: &K) -> (i: usize)
        requires
            total_order::<K>(),
        ensures
            i == spot(self.keys@, *key),
            i <= self.keys@.len(),
            forall|j: int| 0 <= j < i ==> key_lt(#[trigger] self.keys@[j], *key),
            i < self.keys@.len() ==> !key_lt(self.keys@[i as int], *key),
    {
        proof {
            lemma_comparisons_specified::<K>();
            assert(self.keys@.subrange(0, self.keys@.len() as int) =~= self.keys@);
        }
        let mut i: usize = 0;
        while i < self.keys.len() && self.keys[i] < *key
            invariant
                comparisons_specified::<K>(),
                i <= self.keys@.len(),
                forall|j: int| 0 <= j < i ==> key_lt(#[trigger] self.keys@[j], *key),
                spot(self.keys@, *key) == i + spot(self.keys@.subrange(i as int, self.keys@.len() as int), *key),
            decreases self.keys@.len() - i,
        {
            proof {
                let rest = self.keys@.subrange(i as int, self.keys@.len() as int);
                assert(rest[0] == self.keys@[i as int]);
                assert(rest.drop_first() =~= self.keys@.subrange(i + 1, self.keys@.len() as int));
            }
            i += 1;
        }
        proof {
            let rest = self.keys@.subrange(i as int, self.keys@.len() as int);
            if i < self.keys@.len() {
                assert(rest[0] == self.keys@[i as int]);
            }
        }
        i
    }

    /// The value stored under `key` in this subtree, if any.
    fn search(&self, key: &K) -> (found: Option<&V>)
        requires
            total_order::<K>(),
            self.wf(),
        ensures
            match found {
                Some(v) => lookup(self.entries(), *key) == Some(*v),
                None => lookup(self.entries(), *key) is None,
            },
        decreases self,
    {
        proof {
            lemma_comparisons_specified::<K>();
        }
        let idx = self.find_key(key);
        if idx < self.keys.len() && self.keys[idx] == *key {
            proof {
                self.lemma_found_here(idx as int, *key);
            }
            return Some(&self.values[idx]);
        }
        if self.is_leaf {
            proof {
                self.lemma_absent_in_leaf(idx as int, *key);
            }
            return None;
        }
        proof {
            self.lemma_descend(idx as int, *key);
        }
        self.children[idx].search(key)
    }

    /// A key equal to the node's key at `idx`, before which all keys sort
    /// before it, stands in the subtree at that key's place.
    proof fn lemma_found_here(&self, idx: int, key: K)
        requires
            total_order::<K>(),
            self.wf(),
            0 <= idx < self.keys@.len(),
            key_eq(self.keys@[idx], key),
        ensures
            lookup(self.entries(), key) == Some(self.values@[idx]),
            self.is_leaf ==> rank(self.entries(), key) == idx,
            !self.is_leaf ==> rank(self.entries(), key) == self.start(idx)
                + self.children@[idx].entries().len(),
    {
        let all = self.entries();
        lemma_lookup_finds(all, key);
        if self.is_leaf {
            assert(all[idx] == (self.keys@[idx], self.values@[idx]));
            assert(key_eq(all[idx].0, key));
        } else {
            self.lemma_child_window(idx);
            let at = self.start(idx) + self.children@[idx].entries().len();
            assert(all[at] == self.own()[idx]);
            assert(key_eq(all[at].0, key));
        }
    }

    /// In a leaf whose keys before `idx` sort before `key` and whose key at
    /// `idx` neither sorts before `key` nor equals it, `key` is absent and
    /// would stand at `idx`.
    proof fn lemma_absent_in_leaf(&self, idx: int, key: K)
        requires
            total_order::<K>(),
            self.wf(),
            self.is_leaf,
            0 <= idx <= self.keys@.len(),
            idx > 0 ==> key_lt(self.keys@[idx - 1], key),
            idx < self.keys@.len() ==> !key_lt(self.keys@[idx], key) && !key_eq(self.keys@[idx], key),
        ensures
            lookup(self.entries(), key) is None,
            rank(self.entries(), key) == idx,
    {
        let all = self.entries();
        if idx > 0 {
            assert(all[idx - 1].0 == self.keys@[idx - 1]);
        }
        if idx < self.keys@.len() {
            assert(all[idx].0 == self.keys@[idx]);
        }
        lemma_rank_between(all, idx, idx, key);
    }

    /// Where the node's keys part `key` into child `idx`, the rank of `key`
    /// lies within that child's entries.
    proof fn lemma_descend_bounds(&self, idx: int, key: K)
        requires
            total_order::<K>(),
            self.wf(),
            !self.is_leaf,
            0 <= idx <= self.keys@.len(),
            idx > 0 ==> key_lt(self.keys@[idx - 1], key),
            idx < self.keys@.len() ==> !key_lt(self.keys@[idx], key) && !key_eq(self.keys@[idx], key),
        ensures
            0 <= self.start(idx) <= rank(self.entries(), key) <= self.start(idx)
                + self.children@[idx].entries().len() <= self.entries().len(),
            rank(self.entries(), key) == self.start(idx) + self.children@[idx].entries().len() ==> lookup(
                self.entries(),
                key,
            ) is None,
    {
        let all = self.entries();
        self.lemma_child_window(idx);
        let lo = self.start(idx);
        let hi = lo + self.children@[idx].entries().len();
        if idx > 0 {
            assert(all[lo - 1].0 == self.keys@[idx - 1]);
        }
        if idx < self.keys@.len() {
            assert(all[hi].0 == self.keys@[idx]);
        }
        lemma_rank_between(all, lo, hi, key);
    }

    /// A child whose entries span the rank of `key`, and do not end right
    /// at a present key, answers for the subtree.
    proof fn lemma_spanning(&self, at: int, key: K)
        requires
            total_order::<K>(),
            self.wf(),
            !self.is_leaf,
            0 <= at < self.children@.len(),
            self.start(at) <= rank(self.entries(), key) <= self.start(at)
                + self.children@[at].entries().len(),
            rank(self.entries(), key) == self.start(at) + self.children@[at].entries().len() ==> lookup(
                self.entries(),
                key,
            ) is None,
        ensures
            self.children@[at].wf(),
            self.children@[at].order == self.order,
            self.children@[at].height() < self.height(),
            lookup(self.children@[at].entries(), key) == lookup(self.entries(), key),
            rank(self.entries(), key) == self.start(at) + rank(self.children@[at].entries(), key),
    {
        let all = self.entries();
        self.lemma_child_window(at);
        let lo = self.start(at);
        let hi = lo + self.children@[at].entries().len();
        lemma_window(all, lo, hi, key);
        let child = self.children@[at];
        assert(child.shaped(self.order as nat));
    }

    /// Where the node's keys part `key` into child `idx`, the child answers
    /// for the subtree.
    proof fn lemma_descend(&self, idx: int, key: K)
        requires
            total_order::<K>(),
            self.wf(),
            !self.is_leaf,
            0 <= idx <= self.keys@.len(),
            idx > 0 ==> key_lt(self.keys@[idx - 1], key),
            idx < self.keys@.len() ==> !key_lt(self.keys@[idx], key) && !key_eq(self.keys@[idx], key),
        ensures
            self.children@[idx].wf(),
            self.children@[idx].height() < self.height(),
            lookup(self.children@[idx].entries(), key) == lookup(self.entries(), key),
            rank(self.entries(), key) == self.start(idx) + rank(self.children@[idx].entries(), key),
    {
        self.lemma_descend_bounds(idx, key);
        self.lemma_spanning(idx, key);
    }

    /// A node cut at its own entry `m` into a left and a right node holds
    /// the entries of the left node, that entry, and the entries of the
    /// right node.
    proof fn lemma_cut(whole: &Self, left: &Self, right: &Self, m: int)
        requires
            0 <= m < whole.keys@.len(),
            whole.values@.len() == whole.keys@.len(),
            whole.children@.len() == 0 || whole.children@.len() == whole.keys@.len() + 1,
            left.keys@ == whole.keys@.subrange(0, m),
            left.values@ == whole.values@.subrange(0, m),
            right.keys@ == whole.keys@.subrange(m + 1, whole.keys@.len() as int),
            right.values@ == whole.values@.subrange(m + 1, whole.keys@.len() as int),
            whole.children@.len() == 0 ==> left.children@.len() == 0 && right.children@.len() == 0,
            whole.children@.len() > 0 ==> left.children@ == whole.children@.subrange(0, m + 1)
                && right.children@ == whole.children@.subrange(m + 1, whole.children@.len() as int),
        ensures
            whole.entries() == left.entries() + seq![(whole.keys@[m], whole.values@[m])] + right.entries(),
    {
        if whole.children@.len() == 0 {
            assert(whole.own() =~= left.own() + seq![(whole.keys@[m], whole.values@[m])] + right.own());
        } else {
            assert(left.own() =~= whole.own().subrange(0, m));
            assert(right.own() =~= whole.own().subrange(m + 1, whole.keys@.len() as int));
            assert(left.below() =~= whole.below().subrange(0, m + 1));
            assert(right.below() =~= whole.below().subrange(m + 1, whole.children@.len() as int));
            lemma_woven_cut(whole.below(), whole.own(), m, left.below(), left.own(), right.below(), right.own());
        }
    }

    /// The halves of a full node, cut at its middle entry, are well shaped
    /// and as high as the node was.
    proof fn lemma_cut_shaped(whole: &Self, left: &Self, right: &Self, t: nat)
        requires
            t >= 2,
            whole.shaped(t),
            whole.keys@.len() == 2 * t - 1,
            left.order == t,
            right.order == t,
            left.is_leaf == whole.is_leaf,
            right.is_leaf == whole.is_leaf,
            left.keys@ == whole.keys@.subrange(0, t - 1),
            left.values@ == whole.values@.subrange(0, t - 1),
            right.keys@ == whole.keys@.subrange(t as int, whole.keys@.len() as int),
            right.values@ == whole.values@.subrange(t as int, whole.keys@.len() as int),
            whole.is_leaf ==> left.children@.len() == 0 && right.children@.len() == 0,
            !whole.is_leaf ==> left.children@ == whole.children@.subrange(0, t as int) && right.children@
                == whole.children@.subrange(t as int, whole.children@.len() as int),
        ensures
            left.shaped(t),
            right.shaped(t),
            left.height() == whole.height(),
            right.height() == whole.height(),
            left.keys@.len() == t - 1,
            right.keys@.len() == t - 1,
    {
        if !whole.is_leaf {
            assert(left.children@[0] == whole.children@[0]);
            assert(right.children@[0] == whole.children@[t as int]);
            assert forall|j: int| 0 <= j < left.children@.len() implies {
                &&& (#[trigger] left.children@[j]).shaped(t)
                &&& t - 1 <= left.children@[j].keys@.len()
                &&& left.children@[j].height() + 1 == left.height()
            } by {
                assert(left.children@[j] == whole.children@[j]);
            }
            assert forall|j: int| 0 <= j < right.children@.len() implies {
                &&& (#[trigger] right.children@[j]).shaped(t)
                &&& t - 1 <= right.children@[j].keys@.len()
                &&& right.children@[j].height() + 1 == right.height()
            } by {
                assert(right.children@[j] == whole.children@[j + t]);
            }
        }
    }

    /// A node one of whose children was cut in two, the entry between the
    /// halves taken up among the node's own, holds the entries it held.
    proof fn lemma_part(whole: &Self, parted: &Self, i: int)
        requires
            whole.children@.len() == whole.keys@.len() + 1,
            whole.values@.len() == whole.keys@.len(),
            0 <= i < whole.children@.len(),
            parted.keys@.len() == whole.keys@.len() + 1,
            parted.keys@ == whole.keys@.insert(i, parted.keys@[i]),
            parted.values@ == whole.values@.insert(i, parted.values@[i]),
            parted.children@.len() == whole.children@.len() + 1,
            forall|j: int| 0 <= j < i ==> #[trigger] parted.children@[j] == whole.children@[j],
            forall|j: int| i < j < whole.children@.len() ==> #[trigger] whole.children@[j]
                == parted.children@[j + 1],
            whole.children@[i].entries() == parted.children@[i].entries() + seq![
                (parted.keys@[i], parted.values@[i]),
            ] + parted.children@[i + 1].entries(),
        ensures
            parted.entries() == whole.entries(),
            parted.start(i) == whole.start(i),
    {
        let mid = (parted.keys@[i], parted.values@[i]);
        assert(parted.own() =~= whole.own().insert(i, mid));
        lemma_weave_same(whole.below(), whole.own(), parted.below(), parted.own(), i);
        lemma_woven_split(
            whole.below(),
            whole.own(),
            parted.below(),
            parted.own(),
            i,
            parted.children@[i].entries(),
            mid,
            parted.children@[i + 1].entries(),
        );
    }

    /// `after` is `before` with its child at `i` split around that child's
    /// middle entry: the entry stands in the node at `i`, the child keeps
    /// what came before it, and a new child at `i + 1` holds what came
    /// after it.
    pub open spec fn split_of(before: &Self, after: &Self, i: int) -> bool {
        let t = before.order as int;
        let full = before.children@[i];
        let left = after.children@[i];
        let right = after.children@[i + 1];
        &&& after.order == before.order
        &&& after.is_leaf == before.is_leaf
        &&& after.keys@ == before.keys@.insert(i, full.keys@[t - 1])
        &&& after.values@ == before.values@.insert(i, full.values@[t - 1])
        &&& after.children@.len() == before.children@.len() + 1
        &&& forall|j: int| 0 <= j < i ==> #[trigger] after.children@[j] == before.children@[j]
        &&& forall|j: int|
            i + 1 < j < after.children@.len() ==> #[trigger] after.children@[j] == before.children@[j - 1]
        &&& left.order == full.order
        &&& left.is_leaf == full.is_leaf
        &&& left.keys@ == full.keys@.subrange(0, t - 1)
        &&& left.values@ == full.values@.subrange(0, t - 1)
        &&& left.children@ == (if full.is_leaf {
            full.children@
        } else {
            full.children@.subrange(0, t)
        })
        &&& right.order == full.order
        &&& right.is_leaf == full.is_leaf
        &&& right.keys@ == full.keys@.subrange(t, full.keys@.len() as int)
        &&& right.values@ == full.values@.subrange(t, full.values@.len() as int)
        &&& right.children@ == (if full.is_leaf {
            full.children@
        } else {
            full.children@.subrange(t, full.children@.len() as int)
        })
    }

    /// Splits the full child at `i` around its middle entry, which moves
    /// up into this node; the right half becomes the child at `i + 1`.
    fn split_child(&mut self, i: usize)
        requires
            old(self).order >= 2,
            old(self).shaped(old(self).order as nat),
            !old(self).is_leaf,
            i < old(self).children@.len(),
            old(self).children@[i as int].keys@.len() == 2 * old(self).order - 1,
            old(self).keys@.len() < 2 * old(self).order - 1,
        ensures
            Self::split_of(old(self), final(self), i as int),
            final(self).shaped(old(self).order as nat),
            final(self).entries() == old(self).entries(),
            final(self).height() == old(self).height(),
            final(self).keys@ == old(self).keys@.insert(
                i as int,
                old(self).children@[i as int].keys@[old(self).order - 1],
            ),
            final(self).children@[i as int].keys@.len() == old(self).order - 1,
            final(self).children@[i + 1].keys@.len() == old(self).order - 1,
    {
        let t = self.order;
        let ghost whole = *self;
        let ghost full = *self.children@[i as int];
        proof {
            assert(self.children@[i as int].shaped(t as nat));
            assert(full.values@.len() == 2 * t - 1);
            assert(full.order == t);
            assert(!full.is_leaf ==> full.children@.len() == 2 * t);
        }
        let child = &mut self.children[i];
        let mut new_child = Node::new(child.is_leaf, child.order);
        new_child.keys = child.keys.split_off(t);
        new_child.values = child.values.split_off(t);
        if !child.is_leaf {
            new_child.children = child.children.split_off(t);
        }
        let key = child.keys.pop().expect("Child has no keys to move");
        let value = child.values.pop().expect("Child has no values to move");
        self.keys.insert(i, key);
        self.values.insert(i, value);
        assert(i < self.children.len());
        self.children.insert(i + 1, Box::new(new_child));
        proof {
            let left = *self.children@[i as int];
            let right = *self.children@[i + 1];
            assert(left.keys@ =~= full.keys@.subrange(0, t - 1));
            assert(left.values@ =~= full.values@.subrange(0, t - 1));
            if full.is_leaf {
                assert(right.children@ =~= full.children@);
            }
            Self::lemma_cut(&full, &left, &right, t - 1);
            Self::lemma_cut_shaped(&full, &left, &right, t as nat);
            Self::lemma_part(&whole, self, i as int);
            assert(self.children@[0].height() == whole.children@[0].height());
            assert forall|j: int| 0 <= j < self.children@.len() implies {
                &&& (#[trigger] self.children@[j]).shaped(t as nat)
                &&& t - 1 <= self.children@[j].keys@.len()
                &&& self.children@[j].height() + 1 == self.height()
            } by {
                if j < i {
                    assert(self.children@[j] == whole.children@[j]);
                } else if j > i + 1 {
                    assert(self.children@[j] == whole.children@[j - 1]);
                }
            }
        }
    }

    /// A key that the subtree does not hold differs from each of the
    /// node's own keys.
    proof fn lemma_absent_differs(&self, j: int, key: K)
        requires
            total_order::<K>(),
            self.wf(),
            lookup(self.entries(), key) is None,
            0 <= j < self.keys@.len(),
        ensures
            !key_eq(self.keys@[j], key),
    {
        if key_eq(self.keys@[j], key) {
            self.lemma_found_here(j, key);
        }
    }

    /// Two nodes that differ in child `i` only hold the same entries
    /// before and after that child's.
    proof fn lemma_child_replaced(before: &Self, after: &Self, i: int)
        requires
            before.children@.len() == before.keys@.len() + 1,
            0 <= i < before.children@.len(),
            after.keys@ == before.keys@,
            after.values@ == before.values@,
            after.children@.len() == before.children@.len(),
            forall|j: int| 0 <= j < before.children@.len() && j != i ==> #[trigger] after.children@[j]
                == before.children@[j],
        ensures
            before.entries() == weave(before.below(), before.own(), i) + before.children@[i].entries()
                + tail(
                before.below(),
                before.own(),
                i,
            ),
            after.entries() == weave(before.below(), before.own(), i) + after.children@[i].entries() + tail(
                before.below(),
                before.own(),
                i,
            ),
            after.start(i) == before.start(i),
    {
        before.lemma_child_window(i);
        after.lemma_child_window(i);
        assert(after.own() =~= before.own());
        lemma_weave_same(before.below(), before.own(), after.below(), after.own(), i);
        lemma_tail_same(before.below(), before.own(), i, after.below(), after.own(), 0);
    }

    /// An empty internal node set above a full root is well shaped, one
    /// level higher, and holds the root's entries.
    proof fn lemma_lifted(full: &Self, above: &Self)
        requires
            full.wf(),
            full.keys@.len() == 2 * full.order - 1,
            above.order == full.order,
            !above.is_leaf,
            above.keys@.len() == 0,
            above.values@.len() == 0,
            above.children@.len() == 1,
            above.children@[0] == *full,
        ensures
            above.shaped(full.order as nat),
            above.entries() == full.entries(),
            above.height() == full.height() + 1,
    {
        assert(above.own() =~= Seq::<(K, V)>::empty());
        assert(above.below()[0] == full.entries());
        assert(weave(above.below(), above.own(), 0) =~= Seq::<(K, V)>::empty());
        assert(above.entries() =~= full.entries());
    }

    /// What the shape of an internal node says of one child.
    proof fn lemma_child_shape(&self, i: int)
        requires
            self.shaped(self.order as nat),
            !self.is_leaf,
            0 <= i < self.children@.len(),
        ensures
            self.children@[i].shaped(self.order as nat),
            self.children@[i].order == self.order,
            self.order - 1 <= self.children@[i].keys@.len() <= 2 * self.order - 1,
            self.children@[i].values@.len() == self.children@[i].keys@.len(),
            self.children@[i].height() + 1 == self.height(),
    {
    }

    /// An internal node that differs from a well-shaped one in child `i`
    /// only, where the new child is well shaped, as high as the old one and
    /// not short of keys, is well shaped and as high as before.
    proof fn lemma_reshaped(before: &Self, after: &Self, i: int)
        requires
            before.shaped(before.order as nat),
            !before.is_leaf,
            0 <= i < before.children@.len(),
            after.order == before.order,
            after.is_leaf == before.is_leaf,
            after.keys@.len() == before.keys@.len(),
            after.values@.len() == before.values@.len(),
            after.children@.len() == before.children@.len(),
            forall|j: int| 0 <= j < before.children@.len() && j != i ==> #[trigger] after.children@[j]
                == before.children@[j],
            after.children@[i].shaped(before.order as nat),
            after.children@[i].height() == before.children@[i].height(),
            before.order - 1 <= after.children@[i].keys@.len(),
        ensures
            after.shaped(before.order as nat),
            after.height() == before.height(),
    {
        let t = before.order as nat;
        assert(before.children@[0].shaped(t));
        assert(before.children@[i].shaped(t));
        assert(after.children@[0].height() == before.children@[0].height());
        assert forall|j: int| 0 <= j < after.children@.len() implies {
            &&& (#[trigger] after.children@[j]).shaped(t)
            &&& t - 1 <= after.children@[j].keys@.len()
            &&& after.children@[j].height() + 1 == after.height()
        } by {
            if j != i {
                assert(after.children@[j] == before.children@[j]);
                assert(before.children@[j].shaped(t));
            }
        }
    }

    /// Where an absent key stands among the node's own keys, given the
    /// position found by scanning from the right.
    proof fn lemma_insert_position(&self, i: int, key: K)
        requires
            total_order::<K>(),
            self.wf(),
            lookup(self.entries(), key) is None,
            0 <= i <= self.keys@.len(),
            i > 0 ==> !key_lt(key, self.keys@[i - 1]),
            i < self.keys@.len() ==> key_lt(key, self.keys@[i]),
        ensures
            i > 0 ==> key_lt(self.keys@[i - 1], key),
            i < self.keys@.len() ==> !key_lt(self.keys@[i], key) && !key_eq(self.keys@[i], key),
    {
        if i > 0 {
            self.lemma_absent_differs(i - 1, key);
            lemma_comparable(self.keys@[i - 1], key);
        }
        if i < self.keys@.len() {
            lemma_lt_excludes(key, self.keys@[i]);
        }
    }

    /// A leaf into which an absent key was put at its place holds the
    /// entries it held and the new one, in order.
    proof fn lemma_leaf_inserted(before: &Self, after: &Self, i: int, key: K, value: V)
        requires
            total_order::<K>(),
            before.wf(),
            before.is_leaf,
            before.keys@.len() < 2 * before.order - 1,
            lookup(before.entries(), key) is None,
            0 <= i <= before.keys@.len(),
            i > 0 ==> key_lt(before.keys@[i - 1], key),
            i < before.keys@.len() ==> !key_lt(before.keys@[i], key) && !key_eq(before.keys@[i], key),
            after.order == before.order,
            after.is_leaf,
            after.children@ == before.children@,
            after.keys@ == before.keys@.insert(i, key),
            after.values@ == before.values@.insert(i, value),
        ensures
            after.wf(),
            after.height() == before.height(),
            after.entries() == inserted(before.entries(), key, value),
    {
        before.lemma_absent_in_leaf(i, key);
        lemma_insert_sorted(before.entries(), key, value);
        assert(after.own() =~= before.own().insert(i, (key, value)));
    }

    /// An internal node into one of whose children an absent key was
    /// inserted, the child being the one that the node's keys part the key
    /// into, holds the entries it held and the new one, in order.
    proof fn lemma_child_inserted(before: &Self, after: &Self, i: int, key: K, value: V)
        requires
            total_order::<K>(),
            before.wf(),
            !before.is_leaf,
            lookup(before.entries(), key) is None,
            0 <= i <= before.keys@.len(),
            i > 0 ==> key_lt(before.keys@[i - 1], key),
            i < before.keys@.len() ==> !key_lt(before.keys@[i], key) && !key_eq(before.keys@[i], key),
            after.order == before.order,
            after.is_leaf == before.is_leaf,
            after.keys@ == before.keys@,
            after.values@ == before.values@,
            after.children@.len() == before.children@.len(),
            forall|j: int| 0 <= j < before.children@.len() && j != i ==> #[trigger] after.children@[j]
                == before.children@[j],
            after.children@[i].shaped(before.order as nat),
            after.children@[i].height() == before.children@[i].height(),
            before.children@[i].keys@.len() <= after.children@[i].keys@.len(),
            after.children@[i].entries() == before.children@[i].entries().insert(
                rank(before.children@[i].entries(), key) as int,
                (key, value),
            ),
        ensures
            after.wf(),
            after.height() == before.height(),
            after.entries() == inserted(before.entries(), key, value),
    {
        before.lemma_child_shape(i);
        Self::lemma_reshaped(before, after, i);
        before.lemma_descend(i, key);
        Self::lemma_child_replaced(before, after, i);
        let p = weave(before.below(), before.own(), i);
        let q = tail(before.below(), before.own(), i);
        let x = before.children@[i].entries();
        lemma_rank_parts(x, key);
        lemma_insert_inside(p, x, q, rank(x, key) as int, (key, value));
        lemma_insert_sorted(before.entries(), key, value);
    }

    /// Two nodes joined around an entry, as a merge joins them, make a
    /// well-shaped node of the same height.
    proof fn lemma_joined_shaped(left: &Self, right: &Self, joined: &Self, t: nat)
        requires
            t >= 2,
            left.shaped(t),
            right.shaped(t),
            left.height() == right.height(),
            left.keys@.len() + right.keys@.len() + 1 <= 2 * t - 1,
            joined.order == t,
            joined.is_leaf == left.is_leaf,
            joined.keys@.len() == left.keys@.len() + 1 + right.keys@.len(),
            joined.values@.len() == joined.keys@.len(),
            joined.children@ == left.children@ + right.children@,
        ensures
            joined.shaped(t),
            joined.height() == left.height(),
    {
        if !left.is_leaf {
            assert(joined.children@[0] == left.children@[0]);
            assert(right.children@.len() > 0);
            assert forall|j: int| 0 <= j < joined.children@.len() implies {
                &&& (#[trigger] joined.children@[j]).shaped(t)
                &&& t - 1 <= joined.children@[j].keys@.len()
                &&& joined.children@[j].height() + 1 == joined.height()
            } by {
                if j < left.children@.len() {
                    assert(joined.children@[j] == left.children@[j]);
                } else {
                    assert(joined.children@[j] == right.children@[j - left.children@.len()]);
                }
            }
        } else {
            assert(right.children@.len() == 0);
        }
    }

    /// `after` is `before` with its children at `idx` and `idx + 1` joined
    /// into one at `idx`: the keys, values and children of the first, the
    /// entry that parted the two, and the keys, values and children of the
    /// second.
    pub open spec fn merge_of(before: &Self, after: &Self, idx: int) -> bool {
        &&& after.order == before.order
        &&& after.is_leaf == before.is_leaf
        &&& after.keys@ == before.keys@.remove(idx)
        &&& after.values@ == before.values@.remove(idx)
        &&& after.children@.len() == before.children@.len() - 1
        &&& forall|j: int| 0 <= j < idx ==> #[trigger] after.children@[j] == before.children@[j]
        &&& forall|j: int| idx < j < after.children@.len() ==> #[trigger] after.children@[j]
            == before.children@[j + 1]
        &&& after.children@[idx].order == before.order
        &&& after.children@[idx].is_leaf == before.children@[idx].is_leaf
        &&& after.children@[idx].keys@ == before.children@[idx].keys@.push(before.keys@[idx])
            + before.children@[idx + 1].keys@
        &&& after.children@[idx].values@ == before.children@[idx].values@.push(before.values@[idx])
            + before.children@[idx + 1].values@
        &&& after.children@[idx].children@ == before.children@[idx].children@
            + before.children@[idx + 1].children@
    }

    /// A node two of whose children were joined around the entry between
    /// them is well shaped, as high as before, and holds the same entries.
    proof fn lemma_merged(before: &Self, after: &Self, idx: int)
        requires
            before.order >= 2,
            before.shaped(before.order as nat),
            !before.is_leaf,
            0 <= idx < before.keys@.len(),
            before.children@[idx].keys@.len() + before.children@[idx + 1].keys@.len() + 1
                <= 2 * before.order - 1,
            Self::merge_of(before, after, idx),
        ensures
            after.shaped(before.order as nat),
            after.entries() == before.entries(),
            after.height() == before.height(),
            after.start(idx) == before.start(idx),
            after.children@[idx].entries().len() == before.children@[idx].entries().len() + 1
                + before.children@[idx + 1].entries().len(),
    {
        let t = before.order as nat;
        before.lemma_child_shape(idx);
        before.lemma_child_shape(idx + 1);
        let left = *before.children@[idx];
        let right = *before.children@[idx + 1];
        let joined = *after.children@[idx];
        Self::lemma_joined_shaped(&left, &right, &joined, t);
        let m = left.keys@.len() as int;
        assert(left.keys@ =~= joined.keys@.subrange(0, m));
        assert(left.values@ =~= joined.values@.subrange(0, m));
        assert(right.keys@ =~= joined.keys@.subrange(m + 1, joined.keys@.len() as int));
        assert(right.values@ =~= joined.values@.subrange(m + 1, joined.keys@.len() as int));
        if joined.children@.len() > 0 {
            assert(left.children@ =~= joined.children@.subrange(0, m + 1));
            assert(right.children@ =~= joined.children@.subrange(m + 1, joined.children@.len() as int));
        }
        Self::lemma_cut(&joined, &left, &right, m);
        assert(before.keys@ =~= after.keys@.insert(idx, before.keys@[idx]));
        assert(before.values@ =~= after.values@.insert(idx, before.values@[idx]));
        Self::lemma_part(after, before, idx);
        assert(before.children@[0].shaped(t));
        assert(after.children@[0].height() == before.children@[0].height());
        assert forall|j: int| 0 <= j < after.children@.len() implies {
            &&& (#[trigger] after.children@[j]).shaped(t)
            &&& t - 1 <= after.children@[j].keys@.len()
            &&& after.children@[j].height() + 1 == after.height()
        } by {
            if j < idx {
                assert(after.children@[j] == before.children@[j]);
                before.lemma_child_shape(j);
            } else if j > idx {
                assert(after.children@[j] == before.children@[j + 1]);
                before.lemma_child_shape(j + 1);
            }
        }
    }

    /// Joins the children at `idx` and `idx + 1` and the entry between
    /// them into one child at `idx`.
    fn merge(&mut self, idx: usize)
        requires
            old(self).order >= 2,
            old(self).shaped(old(self).order as nat),
            !old(self).is_leaf,
            idx < old(self).keys@.len(),
            old(self).children@[idx as int].keys@.len() + old(self).children@[idx + 1].keys@.len() + 1
                <= 2 * old(
                self,
            ).order - 1,
        ensures
            Self::merge_of(old(self), final(self), idx as int),
            final(self).shaped(old(self).order as nat),
            final(self).order == old(self).order,
            final(self).entries() == old(self).entries(),
            final(self).height() == old(self).height(),
            final(self).keys@ == old(self).keys@.remove(idx as int),
            final(self).children@.len() == old(self).children@.len() - 1,
            final(self).children@[idx as int].keys@.len() == old(self).children@[idx as int].keys@.len()
                + 1 + old(
                self,
            ).children@[idx + 1].keys@.len(),
            final(self).start(idx as int) == old(self).start(idx as int),
            final(self).children@[idx as int].entries().len()
                == old(self).children@[idx as int].entries().len() + 1
                    + old(self).children@[idx + 1].entries().len(),
    {
        let ghost before = *self;
        assert(idx < self.keys.len());
        let mut sibling = self.children.remove(idx + 1);
        let key = self.keys.remove(idx);
        let value = self.values.remove(idx);
        let child = &mut self.children[idx];
        child.keys.push(key);
        child.values.push(value);
        child.keys.append(&mut sibling.keys);
        child.values.append(&mut sibling.values);
        if !child.is_leaf {
            child.children.append(&mut sibling.children);
        }
        proof {
            before.lemma_child_shape(idx as int);
            before.lemma_child_shape(idx + 1);
            assert(self.children@[idx as int].children@ =~= before.children@[idx as int].children@
                + before.children@[idx + 1].children@);
            Self::lemma_merged(&before, self, idx as int);
        }
    }

    /// A node holds the entries of the node without its last key and last
    /// child, then its last entry, then the entries of its last child.
    proof fn lemma_last_taken(full: &Self, rest: &Self)
        requires
            full.keys@.len() >= 1,
            full.values@.len() == full.keys@.len(),
            full.children@.len() == 0 || full.children@.len() == full.keys@.len() + 1,
            rest.keys@ == full.keys@.drop_last(),
            rest.values@ == full.values@.drop_last(),
            full.children@.len() == 0 ==> rest.children@.len() == 0,
            full.children@.len() > 0 ==> rest.children@ == full.children@.drop_last(),
        ensures
            full.entries() == rest.entries() + seq![(full.keys@.last(), full.values@.last())]
                + (if full.children@.len() == 0 {
                Seq::empty()
            } else {
                full.children@.last().entries()
            }),
    {
        let k = full.keys@.len() as int;
        if full.children@.len() == 0 {
            assert(full.own() =~= rest.own() + seq![(full.keys@.last(), full.values@.last())]
                + Seq::empty());
        } else {
            let b = full.below();
            let o = full.own();
            let br = b.subrange(k, k + 1);
            let or = o.subrange(k, k);
            assert(rest.own() =~= o.subrange(0, k - 1));
            assert(rest.below() =~= b.subrange(0, k));
            lemma_woven_cut(b, o, k - 1, rest.below(), rest.own(), br, or);
            assert(weave(br, or, 0) =~= Seq::<(K, V)>::empty());
            assert(woven(br, or) =~= full.children@.last().entries());
        }
    }

    /// A node holds the entries of its first child, then its first entry,
    /// then the entries of the node without its first key and first child.
    proof fn lemma_first_taken(full: &Self, rest: &Self)
        requires
            full.keys@.len() >= 1,
            full.values@.len() == full.keys@.len(),
            full.children@.len() == 0 || full.children@.len() == full.keys@.len() + 1,
            rest.keys@ == full.keys@.drop_first(),
            rest.values@ == full.values@.drop_first(),
            full.children@.len() == 0 ==> rest.children@.len() == 0,
            full.children@.len() > 0 ==> rest.children@ == full.children@.drop_first(),
        ensures
            full.entries() == (if full.children@.len() == 0 {
                Seq::empty()
            } else {
                full.children@[0].entries()
            }) + seq![(full.keys@[0], full.values@[0])] + rest.entries(),
    {
        let k = full.keys@.len() as int;
        if full.children@.len() == 0 {
            assert(full.own() =~= Seq::empty() + seq![(full.keys@[0], full.values@[0])] + rest.own());
        } else {
            let b = full.below();
            let o = full.own();
            let bl = b.subrange(0, 1);
            let ol = o.subrange(0, 0);
            assert(rest.own() =~= o.subrange(1, k));
            assert(rest.below() =~= b.subrange(1, k + 1));
            lemma_woven_cut(b, o, 0, bl, ol, rest.below(), rest.own());
            assert(weave(bl, ol, 0) =~= Seq::<(K, V)>::empty());
            assert(woven(bl, ol) =~= full.children@[0].entries());
        }
    }

    /// A node that gave up its last key and last child keeps its shape and
    /// height; one that took them on, within the bound on keys, does too.
    proof fn lemma_last_shaped(full: &Self, rest: &Self, t: nat)
        requires
            t >= 2,
            full.shaped(t) || rest.shaped(t),
            full.order == t,
            rest.order == t,
            full.is_leaf == rest.is_leaf,
            full.is_leaf <==> full.children@.len() == 0,
            full.keys@.len() >= 1,
            full.keys@.len() <= 2 * t - 1,
            full.values@.len() == full.keys@.len(),
            rest.keys@ == full.keys@.drop_last(),
            rest.values@ == full.values@.drop_last(),
            full.children@.len() == 0 ==> rest.children@.len() == 0,
            full.children@.len() > 0 ==> full.children@.len() >= 2 && rest.children@
                == full.children@.drop_last(),
            full.children@.len() > 0 ==> {
                &&& full.children@.len() == full.keys@.len() + 1
                &&& full.children@.last().shaped(t)
                &&& t - 1 <= full.children@.last().keys@.len()
                &&& full.children@.last().height() == full.children@[0].height()
            },
        ensures
            full.shaped(t),
            rest.shaped(t),
            full.height() == rest.height(),
    {
        if full.children@.len() > 0 {
            let n = rest.children@.len() as int;
            assert(rest.children@[0] == full.children@[0]);
            if full.shaped(t) {
                assert forall|j: int| 0 <= j < rest.children@.len() implies {
                    &&& (#[trigger] rest.children@[j]).shaped(t)
                    &&& t - 1 <= rest.children@[j].keys@.len()
                    &&& rest.children@[j].height() + 1 == rest.height()
                } by {
                    assert(rest.children@[j] == full.children@[j]);
                }
            } else {
                assert forall|j: int| 0 <= j < full.children@.len() implies {
                    &&& (#[trigger] full.children@[j]).shaped(t)
                    &&& t - 1 <= full.children@[j].keys@.len()
                    &&& full.children@[j].height() + 1 == full.height()
                } by {
                    if j < n {
                        assert(rest.children@[j] == full.children@[j]);
                    }
                }
            }
        }
    }

    /// A node that gave up its first key and first child keeps its shape
    /// and height; one that took them on, within the bound on keys, does too.
    proof fn lemma_first_shaped(full: &Self, rest: &Self, t: nat)
        requires
            t >= 2,
            full.shaped(t) || rest.shaped(t),
            full.order == t,
            rest.order == t,
            full.is_leaf == rest.is_leaf,
            full.is_leaf <==> full.children@.len() == 0,
            full.keys@.len() >= 1,
            full.keys@.len() <= 2 * t - 1,
            full.values@.len() == full.keys@.len(),
            rest.keys@ == full.keys@.drop_first(),
            rest.values@ == full.values@.drop_first(),
            full.children@.len() == 0 ==> rest.children@.len() == 0,
            full.children@.len() > 0 ==> full.children@.len() >= 2 && rest.children@
                == full.children@.drop_first(),
            full.children@.len() > 0 ==> {
                &&& full.children@.len() == full.keys@.len() + 1
                &&& full.children@[0].shaped(t)
                &&& t - 1 <= full.children@[0].keys@.len()
                &&& full.children@[0].height() == full.children@[1].height()
            },
        ensures
            full.shaped(t),
            rest.shaped(t),
            full.height() == rest.height(),
    {
        if full.children@.len() > 0 {
            assert(rest.children@[0] == full.children@[1]);
            if full.shaped(t) {
                assert forall|j: int| 0 <= j < rest.children@.len() implies {
                    &&& (#[trigger] rest.children@[j]).shaped(t)
                    &&& t - 1 <= rest.children@[j].keys@.len()
                    &&& rest.children@[j].height() + 1 == rest.height()
                } by {
                    assert(rest.children@[j] == full.children@[j + 1]);
                }
            } else {
                assert forall|j: int| 0 <= j < full.children@.len() implies {
                    &&& (#[trigger] full.children@[j]).shaped(t)
                    &&& t - 1 <= full.children@[j].keys@.len()
                    &&& full.children@[j].height() + 1 == full.height()
                } by {
                    if j > 0 {
                        assert(rest.children@[j - 1] == full.children@[j]);
                    }
                }
            }
        }
    }

    /// A node in which entries moved between the children at `i` and
    /// `i + 1` through the key between them, both children staying well
    /// shaped and as high as they were, is well shaped and holds the same
    /// entries.
    proof fn lemma_rotated(before: &Self, after: &Self, i: int)
        requires
            before.order >= 2,
            before.shaped(before.order as nat),
            !before.is_leaf,
            0 <= i < before.keys@.len(),
            after.order == before.order,
            after.is_leaf == before.is_leaf,
            after.keys@.len() == before.keys@.len(),
            after.values@.len() == before.values@.len(),
            forall|j: int| 0 <= j < before.keys@.len() && j != i ==> after.keys@[j] == before.keys@[j]
                && after.values@[j] == before.values@[j],
            after.children@.len() == before.children@.len(),
            forall|j: int|
                0 <= j < before.children@.len() && j != i && j != i + 1 ==> #[trigger] after.children@[j]
                    == before.children@[j],
            after.children@[i].shaped(before.order as nat),
            after.children@[i + 1].shaped(before.order as nat),
            before.order - 1 <= after.children@[i].keys@.len(),
            before.order - 1 <= after.children@[i + 1].keys@.len(),
            after.children@[i].height() == before.children@[i].height(),
            after.children@[i + 1].height() == before.children@[i + 1].height(),
            after.children@[i].entries() + seq![(after.keys@[i], after.values@[i])]
                + after.children@[i + 1].entries() == before.children@[i].entries()
                    + seq![(before.keys@[i], before.values@[i])] + before.children@[i + 1].entries(),
        ensures
            after.shaped(before.order as nat),
            after.entries() == before.entries(),
            after.height() == before.height(),
            after.start(i) == before.start(i),
            after.start(i + 1) == after.start(i) + after.children@[i].entries().len() + 1,
            before.start(i + 1) == before.start(i) + before.children@[i].entries().len() + 1,
    {
        let t = before.order as nat;
        lemma_woven_rotate(before.below(), before.own(), after.below(), after.own(), i);
        before.lemma_child_shape(0);
        before.lemma_child_shape(i);
        before.lemma_child_shape(i + 1);
        assert(after.children@[0].height() == before.children@[0].height());
        assert forall|j: int| 0 <= j < after.children@.len() implies {
            &&& (#[trigger] after.children@[j]).shaped(t)
            &&& t - 1 <= after.children@[j].keys@.len()
            &&& after.children@[j].height() + 1 == after.height()
        } by {
            if j != i && j != i + 1 {
                assert(after.children@[j] == before.children@[j]);
                before.lemma_child_shape(j);
            }
        }
    }

    /// `after` is `before` after a rotation to the right at `idx`: the last
    /// entry of the child before `idx` stands between the two children, the
    /// entry that stood there is the first of the child at `idx`, and between
    /// internal children the last grandchild of the one is the first of the
    /// other.
    pub open spec fn borrow_from_prev_of(before: &Self, after: &Self, idx: int) -> bool {
        &&& after.order == before.order
        &&& after.is_leaf == before.is_leaf
        &&& after.keys@ == before.keys@.update(idx - 1, before.children@[idx - 1].keys@.last())
        &&& after.values@ == before.values@.update(idx - 1, before.children@[idx - 1].values@.last())
        &&& after.children@.len() == before.children@.len()
        &&& forall|j: int|
            0 <= j < before.children@.len() && j != idx - 1 && j != idx
                ==> #[trigger] after.children@[j] == before.children@[j]
        &&& after.children@[idx - 1].order == before.order
        &&& after.children@[idx - 1].is_leaf == before.children@[idx - 1].is_leaf
        &&& after.children@[idx - 1].keys@ == before.children@[idx - 1].keys@.drop_last()
        &&& after.children@[idx - 1].values@ == before.children@[idx - 1].values@.drop_last()
        &&& after.children@[idx - 1].children@ == (if before.children@[idx - 1].is_leaf {
            before.children@[idx - 1].children@
        } else {
            before.children@[idx - 1].children@.drop_last()
        })
        &&& after.children@[idx].order == before.order
        &&& after.children@[idx].is_leaf == before.children@[idx].is_leaf
        &&& after.children@[idx].keys@ == before.children@[idx].keys@.insert(0, before.keys@[idx - 1])
        &&& after.children@[idx].values@
            == before.children@[idx].values@.insert(0, before.values@[idx - 1])
        &&& after.children@[idx].children@ == (if before.children@[idx - 1].is_leaf {
            before.children@[idx].children@
        } else {
            before.children@[idx].children@.insert(0, before.children@[idx - 1].children@.last())
        })
    }

    /// A node whose child before `idx` gave its last entry up to the node,
    /// and whose child at `idx` took the entry between the two at its
    /// front, the last grandchild moving along, is well shaped and holds
    /// the same entries.
    proof fn lemma_borrowed_prev(before: &Self, after: &Self, idx: int)
        requires
            before.order >= 2,
            before.shaped(before.order as nat),
            !before.is_leaf,
            0 < idx < before.children@.len(),
            before.children@[idx - 1].keys@.len() >= before.order,
            before.children@[idx].keys@.len() < 2 * before.order - 1,
            Self::borrow_from_prev_of(before, after, idx),
        ensures
            after.shaped(before.order as nat),
            after.entries() == before.entries(),
            after.height() == before.height(),
            after.children@[idx].keys@.len() == before.children@[idx].keys@.len() + 1,
            after.start(idx) <= before.start(idx),
            after.start(idx) + after.children@[idx].entries().len() == before.start(idx)
                + before.children@[idx].entries().len(),
    {
        let t = before.order as nat;
        before.lemma_child_shape(idx - 1);
        before.lemma_child_shape(idx);
        let sib0 = *before.children@[idx - 1];
        let sib1 = *after.children@[idx - 1];
        let ch0 = *before.children@[idx];
        let ch1 = *after.children@[idx];
        assert(sib0.is_leaf == ch0.is_leaf);
        assert(ch0.keys@ =~= ch1.keys@.drop_first());
        assert(ch0.values@ =~= ch1.values@.drop_first());
        if !sib0.is_leaf {
            assert(ch0.children@ =~= ch1.children@.drop_first());
            sib0.lemma_child_shape(sib0.children@.len() - 1);
            sib0.lemma_child_shape(0);
            ch0.lemma_child_shape(0);
            assert(ch1.children@[0] == sib0.children@.last());
            assert(ch1.children@[1] == ch0.children@[0]);
        }
        Self::lemma_last_taken(&sib0, &sib1);
        Self::lemma_first_taken(&ch1, &ch0);
        Self::lemma_last_shaped(&sib0, &sib1, t);
        Self::lemma_first_shaped(&ch1, &ch0, t);
        assert(after.keys@[idx - 1] == sib0.keys@.last() && after.values@[idx - 1] == sib0.values@.last());
        assert(ch1.keys@[0] == before.keys@[idx - 1] && ch1.values@[0] == before.values@[idx - 1]);
        assert(after.children@[idx - 1].entries() + seq![(after.keys@[idx - 1], after.values@[idx - 1])]
            + after.children@[idx].entries() =~= before.children@[idx - 1].entries() + seq![
            (before.keys@[idx - 1], before.values@[idx - 1]),
        ] + before.children@[idx].entries());
        Self::lemma_rotated(before, after, idx - 1);
    }

    /// Moves the last entry of the child before `idx` up into this node
    /// and the entry that parted the two children down to the front of the
    /// child at `idx`; between internal children the last grandchild moves
    /// along.
    fn borrow_from_prev(&mut self, idx: usize)
        requires
            old(self).order >= 2,
            old(self).shaped(old(self).order as nat),
            !old(self).is_leaf,
            0 < idx < old(self).children@.len(),
            old(self).children@[idx - 1].keys@.len() >= old(self).order,
            old(self).children@[idx as int].keys@.len() < 2 * old(self).order - 1,
        ensures
            Self::borrow_from_prev_of(old(self), final(self), idx as int),
            final(self).shaped(old(self).order as nat),
            final(self).order == old(self).order,
            final(self).entries() == old(self).entries(),
            final(self).height() == old(self).height(),
            final(self).keys@.len() == old(self).keys@.len(),
            final(self).children@[idx as int].keys@.len() == old(self).children@[idx as int].keys@.len()
                + 1,
            final(self).start(idx as int) <= old(self).start(idx as int),
            final(self).start(idx as int) + final(self).children@[idx as int].entries().len()
                == old(self).start(
                idx as int,
            ) + old(self).children@[idx as int].entries().len(),
    {
        let ghost before = *self;
        proof {
            before.lemma_child_shape(idx - 1);
            before.lemma_child_shape(idx as int);
        }
        let sibling = &mut self.children[idx - 1];
        let mut key = sibling.keys.pop().expect("Sibling has no keys to borrow");
        let mut value = sibling.values.pop().expect("Sibling has no values to borrow");
        let moved = if !sibling.is_leaf {
            sibling.children.pop()
        } else {
            None
        };
        std::mem::swap(&mut self.keys[idx - 1], &mut key);
        std::mem::swap(&mut self.values[idx - 1], &mut value);
        let child = &mut self.children[idx];
        child.keys.insert(0, key);
        child.values.insert(0, value);
        if let Some(child_to_move) = moved {
            child.children.insert(0, child_to_move);
        }
        proof {
            let sib0 = *before.children@[idx - 1];
            assert(sib0.keys@.subrange(0, sib0.keys@.len() - 1) =~= sib0.keys@.drop_last());
            assert(sib0.values@.subrange(0, sib0.values@.len() - 1) =~= sib0.values@.drop_last());
            if !sib0.is_leaf {
                assert(sib0.children@.subrange(0, sib0.children@.len() - 1) =~= sib0.children@.drop_last());
            }
            Self::lemma_borrowed_prev(&before, self, idx as int);
        }
    }

    /// `after` is `before` after a rotation to the left at `idx`: the first
    /// entry of the child after `idx` stands between the two children, the
    /// entry that stood there is the last of the child at `idx`, and between
    /// internal children the first grandchild of the one is the last of the
    /// other.
    pub open spec fn borrow_from_next_of(before: &Self, after: &Self, idx: int) -> bool {
        &&& after.order == before.order
        &&& after.is_leaf == before.is_leaf
        &&& after.keys@ == before.keys@.update(idx, before.children@[idx + 1].keys@[0])
        &&& after.values@ == before.values@.update(idx, before.children@[idx + 1].values@[0])
        &&& after.children@.len() == before.children@.len()
        &&& forall|j: int|
            0 <= j < before.children@.len() && j != idx && j != idx + 1
                ==> #[trigger] after.children@[j] == before.children@[j]
        &&& after.children@[idx + 1].order == before.order
        &&& after.children@[idx + 1].is_leaf == before.children@[idx + 1].is_leaf
        &&& after.children@[idx + 1].keys@ == before.children@[idx + 1].keys@.remove(0)
        &&& after.children@[idx + 1].values@ == before.children@[idx + 1].values@.remove(0)
        &&& after.children@[idx + 1].children@ == (if before.children@[idx + 1].is_leaf {
            before.children@[idx + 1].children@
        } else {
            before.children@[idx + 1].children@.remove(0)
        })
        &&& after.children@[idx].order == before.order
        &&& after.children@[idx].is_leaf == before.children@[idx].is_leaf
        &&& after.children@[idx].keys@ == before.children@[idx].keys@.push(before.keys@[idx])
        &&& after.children@[idx].values@ == before.children@[idx].values@.push(before.values@[idx])
        &&& after.children@[idx].children@ == (if before.children@[idx + 1].is_leaf {
            before.children@[idx].children@
        } else {
            before.children@[idx].children@.push(before.children@[idx + 1].children@[0])
        })
    }

    /// A node whose child after `idx` gave its first entry up to the node,
    /// and whose child at `idx` took the entry between the two at its end,
    /// the first grandchild moving along, is well shaped and holds the
    /// same entries.
    proof fn lemma_borrowed_next(before: &Self, after: &Self, idx: int)
        requires
            before.order >= 2,
            before.shaped(before.order as nat),
            !before.is_leaf,
            0 <= idx < before.keys@.len(),
            before.children@[idx + 1].keys@.len() >= before.order,
            before.children@[idx].keys@.len() < 2 * before.order - 1,
            Self::borrow_from_next_of(before, after, idx),
        ensures
            after.shaped(before.order as nat),
            after.entries() == before.entries(),
            after.height() == before.height(),
            after.children@[idx].keys@.len() == before.children@[idx].keys@.len() + 1,
            after.start(idx) == before.start(idx),
            after.children@[idx].entries().len() >= before.children@[idx].entries().len(),
    {
        let t = before.order as nat;
        before.lemma_child_shape(idx + 1);
        before.lemma_child_shape(idx);
        let sib0 = *before.children@[idx + 1];
        let sib1 = *after.children@[idx + 1];
        let ch0 = *before.children@[idx];
        let ch1 = *after.children@[idx];
        assert(sib0.is_leaf == ch0.is_leaf);
        assert(sib1.keys@ =~= sib0.keys@.drop_first());
        assert(sib1.values@ =~= sib0.values@.drop_first());
        assert(ch0.keys@ =~= ch1.keys@.drop_last());
        assert(ch0.values@ =~= ch1.values@.drop_last());
        if !sib0.is_leaf {
            assert(sib1.children@ =~= sib0.children@.drop_first());
            assert(ch0.children@ =~= ch1.children@.drop_last());
            sib0.lemma_child_shape(0);
            sib0.lemma_child_shape(1);
            ch0.lemma_child_shape(0);
            assert(ch1.children@.last() == sib0.children@[0]);
            assert(ch1.children@[0] == ch0.children@[0]);
        }
        Self::lemma_first_taken(&sib0, &sib1);
        Self::lemma_last_taken(&ch1, &ch0);
        Self::lemma_first_shaped(&sib0, &sib1, t);
        Self::lemma_last_shaped(&ch1, &ch0, t);
        assert(after.keys@[idx] == sib0.keys@[0] && after.values@[idx] == sib0.values@[0]);
        assert(ch1.keys@.last() == before.keys@[idx] && ch1.values@.last() == before.values@[idx]);
        assert(after.children@[idx].entries() + seq![(after.keys@[idx], after.values@[idx])]
            + after.children@[idx + 1].entries() =~= before.children@[idx].entries()
                + seq![(before.keys@[idx], before.values@[idx])] + before.children@[idx + 1].entries());
        Self::lemma_rotated(before, after, idx);
    }

    /// Moves the first entry of the child after `idx` up into this node
    /// and the entry that parted the two children down to the end of the
    /// child at `idx`; between internal children the first grandchild
    /// moves along.
    fn borrow_from_next(&mut self, idx: usize)
        requires
            old(self).order >= 2,
            old(self).shaped(old(self).order as nat),
            !old(self).is_leaf,
            idx < old(self).keys@.len(),
            old(self).children@[idx + 1].keys@.len() >= old(self).order,
            old(self).children@[idx as int].keys@.len() < 2 * old(self).order - 1,
        ensures
            Self::borrow_from_next_of(old(self), final(self), idx as int),
            final(self).shaped(old(self).order as nat),
            final(self).order == old(self).order,
            final(self).entries() == old(self).entries(),
            final(self).height() == old(self).height(),
            final(self).keys@.len() == old(self).keys@.len(),
            final(self).children@[idx as int].keys@.len() == old(self).children@[idx as int].keys@.len()
                + 1,
            final(self).start(idx as int) == old(self).start(idx as int),
            final(self).children@[idx as int].entries().len() >= old(self).children@[idx as int].entries().len(),
    {
        let ghost before = *self;
        proof {
            before.lemma_child_shape(idx + 1);
            before.lemma_child_shape(idx as int);
        }
        assert(idx < self.keys.len());
        let sibling = &mut self.children[idx + 1];
        let mut key = sibling.keys.remove(0);
        let mut value = sibling.values.remove(0);
        let moved = if !sibling.is_leaf {
            Some(sibling.children.remove(0))
        } else {
            None
        };
        std::mem::swap(&mut self.keys[idx], &mut key);
        std::mem::swap(&mut self.values[idx], &mut value);
        let child = &mut self.children[idx];
        child.keys.push(key);
        child.values.push(value);
        if let Some(child_to_move) = moved {
            child.children.push(child_to_move);
        }
        proof {
            Self::lemma_borrowed_next(&before, self, idx as int);
        }
    }

    /// `after` is `before` after its child at `idx` was filled: by a
    /// rotation from the sibling before it, if that one has a key to
    /// spare; else by a rotation from the sibling after it, if that one
    /// has; else by a merge with the sibling after it, or, for the last
    /// child, with the sibling before it.
    pub open spec fn fill_of(before: &Self, after: &Self, idx: int) -> bool {
        if idx > 0 && before.children@[idx - 1].keys@.len() >= before.order {
            Self::borrow_from_prev_of(before, after, idx)
        } else if idx < before.children@.len() - 1 && before.children@[idx + 1].keys@.len() >= before.order {
            Self::borrow_from_next_of(before, after, idx)
        } else if idx < before.children@.len() - 1 {
            Self::merge_of(before, after, idx)
        } else {
            Self::merge_of(before, after, idx - 1)
        }
    }

    /// Makes sure that the child at `idx`, which is down to the fewest
    /// keys allowed, has one to spare: by borrowing from a sibling that
    /// can give one, or else by merging with a sibling. After a merge with
    /// the sibling before it the child stands at `idx - 1`.
    fn fill(&mut self, idx: usize)
        requires
            old(self).order >= 2,
            old(self).shaped(old(self).order as nat),
            !old(self).is_leaf,
            old(self).keys@.len() >= 1,
            idx < old(self).children@.len(),
            old(self).children@[idx as int].keys@.len() < old(self).order,
        ensures
            Self::fill_of(old(self), final(self), idx as int),
            final(self).shaped(old(self).order as nat),
            final(self).order == old(self).order,
            final(self).entries() == old(self).entries(),
            final(self).height() == old(self).height(),
            old(self).keys@.len() - 1 <= final(self).keys@.len() <= old(self).keys@.len(),
            ({
                let at = if idx > final(self).keys@.len() {
                    idx - 1
                } else {
                    idx as int
                };
                &&& final(self).children@[at].keys@.len() >= old(self).order
                &&& final(self).start(at) <= old(self).start(idx as int)
                &&& old(self).start(idx as int) + old(self).children@[idx as int].entries().len()
                    <= final(self).start(at) + final(self).children@[at].entries().len()
            }),
    {
        let ghost before = *self;
        proof {
            before.lemma_child_shape(idx as int);
            if idx > 0 {
                before.lemma_child_shape(idx - 1);
            }
            if idx + 1 < before.children@.len() {
                before.lemma_child_shape(idx + 1);
            }
        }
        if idx > 0 && self.children[idx - 1].keys.len() >= self.order {
            self.borrow_from_prev(idx);
        } else if idx < self.children.len() - 1 && self.children[idx + 1].keys.len() >= self.order {
            self.borrow_from_next(idx);
        } else {
            if idx < self.children.len() - 1 {
                self.merge(idx);
            } else {
                self.merge(idx - 1);
            }
        }
    }

    /// A well-shaped node holds at least as many entries as it has keys.
    pub proof fn lemma_entries_len(&self)
        requires
            self.values@.len() == self.keys@.len(),
            self.children@.len() == 0 || self.children@.len() == self.keys@.len() + 1,
        ensures
            self.entries().len() >= self.keys@.len(),
    {
        if self.children@.len() > 0 {
            lemma_weave_len(self.below(), self.own(), self.keys@.len() as int);
        }
    }

    /// The last entry of a subtree is the last entry of a leaf, and of the
    /// last child's subtree otherwise.
    proof fn lemma_last_entry(&self)
        requires
            self.order >= 2,
            self.shaped(self.order as nat),
            self.keys@.len() >= 1,
        ensures
            self.entries().len() >= 1,
            self.is_leaf ==> self.entries().last() == (self.keys@.last(), self.values@.last()),
            !self.is_leaf ==> self.children@.last().entries().len() >= 1 && self.entries().last()
                == self.children@.last().entries().last(),
    {
        if !self.is_leaf {
            let k = self.keys@.len() as int;
            self.lemma_child_shape(k);
            self.children@[k].lemma_entries_len();
            assert(self.below()[k] == self.children@[k].entries());
        }
    }

    /// The first entry of a subtree is the first entry of a leaf, and of
    /// the first child's subtree otherwise.
    proof fn lemma_first_entry(&self)
        requires
            self.order >= 2,
            self.shaped(self.order as nat),
            self.keys@.len() >= 1,
        ensures
            self.entries().len() >= 1,
            self.is_leaf ==> self.entries()[0] == (self.keys@[0], self.values@[0]),
            !self.is_leaf ==> self.children@[0].entries().len() >= 1 && self.entries()[0]
                == self.children@[0].entries()[0],
    {
        if !self.is_leaf {
            self.lemma_child_shape(0);
            self.children@[0].lemma_entries_len();
            self.lemma_child_window(0);
            assert(weave(self.below(), self.own(), 0) =~= Seq::<(K, V)>::empty());
        }
    }

    /// The greatest key of the subtree under the child at `idx`.
    fn get_predecessor_key(&self, idx: usize) -> (key: K)
        requires
            exact_clone::<K>(),
            self.order >= 2,
            self.shaped(self.order as nat),
            !self.is_leaf,
            idx < self.children@.len(),
        ensures
            self.children@[idx as int].entries().len() >= 1,
            key == self.children@[idx as int].entries().last().0,
    {
        let mut current = &self.children[idx];
        proof {
            self.lemma_child_shape(idx as int);
            current.lemma_last_entry();
        }
        while !current.is_leaf
            invariant
                current.order >= 2,
                current.shaped(current.order as nat),
                current.keys@.len() >= 1,
                current.entries().len() >= 1,
                current.entries().last() == self.children@[idx as int].entries().last(),
            decreases current.height(),
        {
            proof {
                current.lemma_last_entry();
                current.lemma_child_shape(current.children@.len() - 1);
            }
            current = &current.children[current.children.len() - 1];
        }
        proof {
            current.lemma_last_entry();
        }
        let key = current.keys[current.keys.len() - 1].clone();
        assert(cloned::<K>(current.keys@.last(), key));
        key
    }

    /// A clone of the value stored under the greatest key of the subtree
    /// under the child at `idx`.
    fn get_predecessor_value(&self, idx: usize) -> (value: V)
        requires
            self.order >= 2,
            self.shaped(self.order as nat),
            !self.is_leaf,
            idx < self.children@.len(),
        ensures
            self.children@[idx as int].entries().len() >= 1,
            cloned::<V>(self.children@[idx as int].entries().last().1, value),
    {
        let mut current = &self.children[idx];
        proof {
            self.lemma_child_shape(idx as int);
            current.lemma_last_entry();
        }
        while !current.is_leaf
            invariant
                current.order >= 2,
                current.shaped(current.order as nat),
                current.keys@.len() >= 1,
                current.entries().len() >= 1,
                current.entries().last() == self.children@[idx as int].entries().last(),
            decreases current.height(),
        {
            proof {
                current.lemma_last_entry();
                current.lemma_child_shape(current.children@.len() - 1);
            }
            current = &current.children[current.children.len() - 1];
        }
        proof {
            current.lemma_last_entry();
        }
        current.values[current.values.len() - 1].clone()
    }

    /// The least key of the subtree under the child at `idx + 1`.
    fn get_successor_key(&self, idx: usize) -> (key: K)
        requires
            exact_clone::<K>(),
            self.order >= 2,
            self.shaped(self.order as nat),
            !self.is_leaf,
            idx + 1 < self.children@.len(),
        ensures
            self.children@[idx + 1].entries().len() >= 1,
            key == self.children@[idx + 1].entries()[0].0,
    {
        assert(idx + 1 < self.children.len());
        let mut current = &self.children[idx + 1];
        proof {
            self.lemma_child_shape(idx + 1);
            current.lemma_first_entry();
        }
        while !current.is_leaf
            invariant
                current.order >= 2,
                current.shaped(current.order as nat),
                current.keys@.len() >= 1,
                current.entries().len() >= 1,
                current.entries()[0] == self.children@[idx + 1].entries()[0],
            decreases current.height(),
        {
            proof {
                current.lemma_first_entry();
                current.lemma_child_shape(0);
            }
            current = &current.children[0];
        }
        proof {
            current.lemma_first_entry();
        }
        let key = current.keys[0].clone();
        assert(cloned::<K>(current.keys@[0], key));
        key
    }

    /// A clone of the value stored under the least key of the subtree
    /// under the child at `idx + 1`.
    fn get_successor_value(&self, idx: usize) -> (value: V)
        requires
            self.order >= 2,
            self.shaped(self.order as nat),
            !self.is_leaf,
            idx + 1 < self.children@.len(),
        ensures
            self.children@[idx + 1].entries().len() >= 1,
            cloned::<V>(self.children@[idx + 1].entries()[0].1, value),
    {
        assert(idx + 1 < self.children.len());
        let mut current = &self.children[idx + 1];
        proof {
            self.lemma_child_shape(idx + 1);
            current.lemma_first_entry();
        }
        while !current.is_leaf
            invariant
                current.order >= 2,
                current.shaped(current.order as nat),
                current.keys@.len() >= 1,
                current.entries().len() >= 1,
                current.entries()[0] == self.children@[idx + 1].entries()[0],
            decreases current.height(),
        {
            proof {
                current.lemma_first_entry();
                current.lemma_child_shape(0);
            }
            current = &current.children[0];
        }
        proof {
            current.lemma_first_entry();
        }
        current.values[0].clone()
    }

    /// The children of a valid internal node are valid.
    proof fn lemma_child_wf(&self, i: int)
        requires
            self.wf(),
            !self.is_leaf,
            0 <= i < self.children@.len(),
        ensures
            self.children@[i].wf(),
            self.children@[i].order == self.order,
            self.children@[i].height() + 1 == self.height(),
            self.order - 1 <= self.children@[i].keys@.len(),
    {
        self.lemma_child_shape(i);
        self.lemma_child_window(i);
        lemma_subrange_sorted(self.entries(), self.start(i), self.start(i)
            + self.children@[i].entries().len());
    }

    /// An internal node without keys holds the entries of its only child.
    proof fn lemma_sole_child(&self)
        requires
            self.shaped(self.order as nat),
            !self.is_leaf,
            self.keys@.len() == 0,
        ensures
            self.entries() == self.children@[0].entries(),
    {
        assert(self.below()[0] == self.children@[0].entries());
        assert(weave(self.below(), self.own(), 0) =~= Seq::<(K, V)>::empty());
        assert(self.entries() =~= self.children@[0].entries());
    }

    /// A leaf from which the entry of a key was taken holds the entries it
    /// held, without that key's.
    proof fn lemma_leaf_removed(before: &Self, after: &Self, idx: int, key: K)
        requires
            total_order::<K>(),
            before.wf(),
            before.is_leaf,
            0 <= idx < before.keys@.len(),
            key_eq(before.keys@[idx], key),
            after.order == before.order,
            after.is_leaf,
            after.children@ == before.children@,
            after.keys@ == before.keys@.remove(idx),
            after.values@ == before.values@.remove(idx),
        ensures
            after.shaped(before.order as nat),
            after.height() == before.height(),
            after.entries() == without(before.entries(), key),
            lookup(before.entries(), key) is Some,
            sorted(after.entries()),
    {
        before.lemma_found_here(idx, key);
        assert(after.own() =~= before.own().remove(idx));
        lemma_without_sorted(before.entries(), key);
    }

    /// An internal node from one of whose children a key was deleted, the
    /// child being one that answers for the node, holds the entries it
    /// held without that key's, values possibly cloned.
    proof fn lemma_child_deleted(before: &Self, after: &Self, at: int, key: K)
        requires
            total_order::<K>(),
            before.wf(),
            !before.is_leaf,
            0 <= at < before.children@.len(),
            lookup(before.children@[at].entries(), key) == lookup(before.entries(), key),
            rank(before.entries(), key) == before.start(at) + rank(before.children@[at].entries(), key),
            after.order == before.order,
            after.is_leaf == before.is_leaf,
            after.keys@ == before.keys@,
            after.values@ == before.values@,
            after.children@.len() == before.children@.len(),
            forall|j: int| 0 <= j < before.children@.len() && j != at ==> #[trigger] after.children@[j]
                == before.children@[j],
            after.children@[at].shaped(before.order as nat),
            after.children@[at].height() == before.children@[at].height(),
            before.order - 1 <= after.children@[at].keys@.len(),
            copies(without(before.children@[at].entries(), key), after.children@[at].entries()),
            lookup(before.children@[at].entries(), key) is None ==> after.children@[at].entries()
                == before.children@[at].entries(),
        ensures
            after.shaped(before.order as nat),
            after.height() == before.height(),
            copies(without(before.entries(), key), after.entries()),
            lookup(before.entries(), key) is None ==> after.entries() == before.entries(),
            sorted(after.entries()),
    {
        before.lemma_child_shape(at);
        Self::lemma_reshaped(before, after, at);
        Self::lemma_child_replaced(before, after, at);
        let p = weave(before.below(), before.own(), at);
        let q = tail(before.below(), before.own(), at);
        let x = before.children@[at].entries();
        let y = after.children@[at].entries();
        lemma_without_sorted(before.entries(), key);
        if lookup(x, key) is None {
            lemma_copies_refl(before.entries());
        } else {
            let rc = rank(x, key) as int;
            lemma_remove_inside(p, x, q, rc);
            lemma_copies_inside(p, x.remove(rc), y, q);
        }
        lemma_copies_sorted(without(before.entries(), key), after.entries());
    }

    /// An internal node whose key at `idx` was replaced by the greatest
    /// entry under the child before it, that entry then deleted from the
    /// child, holds the entries it held without the replaced key's.
    proof fn lemma_pred_replaced(before: &Self, after: &Self, idx: int, key: K)
        requires
            total_order::<K>(),
            before.wf(),
            !before.is_leaf,
            0 <= idx < before.keys@.len(),
            key_eq(before.keys@[idx], key),
            before.children@[idx].entries().len() >= 1,
            sorted(before.children@[idx].entries()),
            after.order == before.order,
            after.is_leaf == before.is_leaf,
            after.keys@ == before.keys@.update(idx, before.children@[idx].entries().last().0),
            after.values@.len() == before.values@.len(),
            forall|j: int| 0 <= j < before.values@.len() && j != idx ==> after.values@[j]
                == before.values@[j],
            copy_of(before.children@[idx].entries().last().1, after.values@[idx]),
            after.children@.len() == before.children@.len(),
            forall|j: int| 0 <= j < before.children@.len() && j != idx ==> #[trigger] after.children@[j]
                == before.children@[j],
            after.children@[idx].shaped(before.order as nat),
            after.children@[idx].height() == before.children@[idx].height(),
            before.order - 1 <= after.children@[idx].keys@.len(),
            copies(
                without(before.children@[idx].entries(), before.children@[idx].entries().last().0),
                after.children@[idx].entries(),
            ),
        ensures
            after.shaped(before.order as nat),
            after.height() == before.height(),
            copies(without(before.entries(), key), after.entries()),
            lookup(before.entries(), key) is Some,
            sorted(after.entries()),
    {
        before.lemma_child_shape(idx);
        Self::lemma_reshaped(before, after, idx);
        before.lemma_found_here(idx, key);
        let x = before.children@[idx].entries();
        let y = before.children@[idx + 1].entries();
        let x2 = after.children@[idx].entries();
        let p = weave(before.below(), before.own(), idx);
        let r = tail(before.below(), before.own(), idx + 1);
        let m = before.own()[idx];
        let m2 = after.own()[idx];
        lemma_woven_pair(before.below(), before.own(), idx);
        lemma_woven_pair(after.below(), after.own(), idx);
        lemma_weave_same(before.below(), before.own(), after.below(), after.own(), idx);
        lemma_tail_same(before.below(), before.own(), idx + 1, after.below(), after.own(), 0);
        assert(before.below()[idx] == x && before.below()[idx + 1] == y);
        assert(after.below()[idx] == x2 && after.below()[idx + 1] == y);
        assert(before.entries() == p + (x + seq![m] + y) + r);
        assert(after.entries() == p + (x2 + seq![m2] + y) + r);
        lemma_middle(p, x, m, y, r);
        lemma_middle(p, x2, m2, y, r);
        lemma_without_last(x);
        let new_part = x2 + seq![m2];
        assert(copies(x, new_part)) by {
            assert forall|i: int| 0 <= i < x.len() implies (#[trigger] new_part[i]).0 == x[i].0 && copy_of(
                x[i].1,
                new_part[i].1,
            ) by {
                if i < x2.len() {
                    assert(new_part[i] == x2[i]);
                    assert(x[i] == x.drop_last()[i]);
                }
            }
        }
        lemma_copies_inside(p, x, new_part, y + r);
        assert(without(before.entries(), key) == p + x + (y + r));
        lemma_without_sorted(before.entries(), key);
        lemma_copies_sorted(without(before.entries(), key), after.entries());
    }

    /// An internal node whose key at `idx` was replaced by the least entry
    /// under the child after it, that entry then deleted from the child,
    /// holds the entries it held without the replaced key's.
    proof fn lemma_succ_replaced(before: &Self, after: &Self, idx: int, key: K)
        requires
            total_order::<K>(),
            before.wf(),
            !before.is_leaf,
            0 <= idx < before.keys@.len(),
            key_eq(before.keys@[idx], key),
            before.children@[idx + 1].entries().len() >= 1,
            sorted(before.children@[idx + 1].entries()),
            after.order == before.order,
            after.is_leaf == before.is_leaf,
            after.keys@ == before.keys@.update(idx, before.children@[idx + 1].entries()[0].0),
            after.values@.len() == before.values@.len(),
            forall|j: int| 0 <= j < before.values@.len() && j != idx ==> after.values@[j]
                == before.values@[j],
            copy_of(before.children@[idx + 1].entries()[0].1, after.values@[idx]),
            after.children@.len() == before.children@.len(),
            forall|j: int| 0 <= j < before.children@.len() && j != idx + 1
                ==> #[trigger] after.children@[j] == before.children@[j],
            after.children@[idx + 1].shaped(before.order as nat),
            after.children@[idx + 1].height() == before.children@[idx + 1].height(),
            before.order - 1 <= after.children@[idx + 1].keys@.len(),
            copies(
                without(before.children@[idx + 1].entries(), before.children@[idx + 1].entries()[0].0),
                after.children@[idx + 1].entries(),
            ),
        ensures
            after.shaped(before.order as nat),
            after.height() == before.height(),
            copies(without(before.entries(), key), after.entries()),
            lookup(before.entries(), key) is Some,
            sorted(after.entries()),
    {
        before.lemma_child_shape(idx + 1);
        Self::lemma_reshaped(before, after, idx + 1);
        before.lemma_found_here(idx, key);
        let x = before.children@[idx].entries();
        let y = before.children@[idx + 1].entries();
        let y2 = after.children@[idx + 1].entries();
        let p = weave(before.below(), before.own(), idx);
        let r = tail(before.below(), before.own(), idx + 1);
        let m = before.own()[idx];
        let m2 = after.own()[idx];
        lemma_woven_pair(before.below(), before.own(), idx);
        lemma_woven_pair(after.below(), after.own(), idx);
        lemma_weave_same(before.below(), before.own(), after.below(), after.own(), idx);
        lemma_tail_same(before.below(), before.own(), idx + 1, after.below(), after.own(), 0);
        assert(before.below()[idx] == x && before.below()[idx + 1] == y);
        assert(after.below()[idx] == x && after.below()[idx + 1] == y2);
        assert(before.entries() == p + (x + seq![m] + y) + r);
        assert(after.entries() == p + (x + seq![m2] + y2) + r);
        lemma_middle(p, x, m, y, r);
        lemma_middle(p, x, m2, y2, r);
        lemma_without_first(y);
        let new_part = seq![m2] + y2;
        assert(copies(y, new_part)) by {
            assert forall|i: int| 0 <= i < y.len() implies (#[trigger] new_part[i]).0 == y[i].0 && copy_of(
                y[i].1,
                new_part[i].1,
            ) by {
                if i > 0 {
                    assert(new_part[i] == y2[i - 1]);
                    assert(y[i] == y.drop_first()[i - 1]);
                }
            }
        }
        lemma_copies_inside(p + x, y, new_part, r);
        assert(without(before.entries(), key) == (p + x) + y + r);
        lemma_without_sorted(before.entries(), key);
        lemma_copies_sorted(without(before.entries(), key), after.entries());
    }

    /// `after` is `before` but for its child at `at`.
    pub open spec fn child_replaced_of(before: &Self, after: &Self, at: int) -> bool {
        &&& after.order == before.order
        &&& after.is_leaf == before.is_leaf
        &&& after.keys@ == before.keys@
        &&& after.values@ == before.values@
        &&& after.children@.len() == before.children@.len()
        &&& forall|j: int|
            0 <= j < before.children@.len() && j != at ==> #[trigger] after.children@[j] == before.children@[j]
    }

    /// `after` is `before` after the deletion of `key`. A leaf loses the
    /// entry of the key, if it has it. An internal node that has the key
    /// among its own deals with it as `delete_internal_of` says. Any other
    /// internal node sends the deletion down into the child at the key's
    /// place, after filling that child if it is down to the fewest keys
    /// allowed.
    #[verifier::opaque]
    pub open spec fn delete_of(before: &Self, after: &Self, key: K) -> bool
        decreases before.height(), 1nat,
    {
        let idx = spot(before.keys@, key);
        if idx < before.keys@.len() && key_eq(before.keys@[idx], key) {
            if before.is_leaf {
                &&& after.order == before.order
                &&& after.is_leaf
                &&& after.children@ == before.children@
                &&& after.keys@ == before.keys@.remove(idx)
                &&& after.values@ == before.values@.remove(idx)
            } else {
                Self::delete_internal_of(before, after, key, idx)
            }
        } else if before.is_leaf {
            &&& after.order == before.order
            &&& after.is_leaf
            &&& after.children@ == before.children@
            &&& after.keys@ == before.keys@
            &&& after.values@ == before.values@
        } else if before.children@[idx].keys@.len() < before.order {
            exists|mid: Self|
                {
                    &&& #[trigger] Self::fill_of(before, &mid, idx)
                    &&& {
                        let at = if idx > mid.keys@.len() {
                            idx - 1
                        } else {
                            idx
                        };
                        let child = *mid.children@[at];
                        let child_after = *after.children@[at];
                        &&& Self::child_replaced_of(&mid, after, at)
                        &&& child.height() < before.height()
                        &&& Self::delete_of(&child, &child_after, key)
                    }
                }
        } else {
            let child = *before.children@[idx];
            let child_after = *after.children@[idx];
            &&& Self::child_replaced_of(before, after, idx)
            &&& child.height() < before.height()
            &&& Self::delete_of(&child, &child_after, key)
        }
    }

    /// `after` is the internal node `before` after the deletion of `key`,
    /// which is its own key at `idx`. Where the child before the key has a
    /// key to spare, the greatest entry under that child stands in the
    /// key's place, the value as a clone, and is deleted from that child.
    /// Else, where the child after the key has a key to spare, the least
    /// entry under that child stands in the key's place and is deleted
    /// from that child. Else the two children are merged around the key,
    /// and the key is deleted from the merged child.
    #[verifier::opaque]
    pub open spec fn delete_internal_of(before: &Self, after: &Self, key: K, idx: int) -> bool
        decreases before.height(), 0nat,
    {
        if before.children@[idx].keys@.len() >= before.order {
            let child = *before.children@[idx];
            let child_after = *after.children@[idx];
            let taken = child.entries().last();
            &&& after.order == before.order
            &&& after.is_leaf == before.is_leaf
            &&& after.keys@ == before.keys@.update(idx, taken.0)
            &&& after.values@ == before.values@.update(idx, after.values@[idx])
            &&& cloned::<V>(taken.1, after.values@[idx])
            &&& after.children@.len() == before.children@.len()
            &&& forall|j: int|
                0 <= j < before.children@.len() && j != idx ==> #[trigger] after.children@[j]
                    == before.children@[j]
            &&& child.height() < before.height()
            &&& Self::delete_of(&child, &child_after, taken.0)
        } else if before.children@[idx + 1].keys@.len() >= before.order {
            let child = *before.children@[idx + 1];
            let child_after = *after.children@[idx + 1];
            let taken = child.entries()[0];
            &&& after.order == before.order
            &&& after.is_leaf == before.is_leaf
            &&& after.keys@ == before.keys@.update(idx, taken.0)
            &&& after.values@ == before.values@.update(idx, after.values@[idx])
            &&& cloned::<V>(taken.1, after.values@[idx])
            &&& after.children@.len() == before.children@.len()
            &&& forall|j: int|
                0 <= j < before.children@.len() && j != idx + 1 ==> #[trigger] after.children@[j]
                    == before.children@[j]
            &&& child.height() < before.height()
            &&& Self::delete_of(&child, &child_after, taken.0)
        } else {
            exists|mid: Self|
                {
                    let child = *mid.children@[idx];
                    let child_after = *after.children@[idx];
                    &&& #[trigger] Self::merge_of(before, &mid, idx)
                    &&& Self::child_replaced_of(&mid, after, idx)
                    &&& child.height() < before.height()
                    &&& Self::delete_of(&child, &child_after, key)
                }
        }
    }

    /// A leaf without the entry of the key that it had, or a leaf as it
    /// was where it did not have the key, is the leaf after the deletion.
    proof fn lemma_delete_of_leaf(before: &Self, after: &Self, key: K)
        requires
            before.is_leaf,
            after.order == before.order,
            after.is_leaf,
            after.children@ == before.children@,
            if spot(before.keys@, key) < before.keys@.len() && key_eq(
                before.keys@[spot(before.keys@, key)],
                key,
            ) {
                &&& after.keys@ == before.keys@.remove(spot(before.keys@, key))
                &&& after.values@ == before.values@.remove(spot(before.keys@, key))
            } else {
                &&& after.keys@ == before.keys@
                &&& after.values@ == before.values@
            },
        ensures
            Self::delete_of(before, after, key),
    {
        reveal_with_fuel(Node::delete_of, 1);
    }

    /// An internal node that had the key among its own and dealt with it
    /// is the node after the deletion.
    proof fn lemma_delete_of_own(before: &Self, after: &Self, key: K)
        requires
            !before.is_leaf,
            spot(before.keys@, key) < before.keys@.len(),
            key_eq(before.keys@[spot(before.keys@, key)], key),
            Self::delete_internal_of(before, after, key, spot(before.keys@, key)),
        ensures
            Self::delete_of(before, after, key),
    {
        reveal_with_fuel(Node::delete_of, 1);
        reveal_with_fuel(Node::delete_internal_of, 1);
    }

    /// An internal node whose child at the key's place, filled first if it
    /// was due, had the key deleted from it, is the node after the
    /// deletion.
    proof fn lemma_delete_of_descent(before: &Self, mid: &Self, after: &Self, at: int, key: K)
        requires
            !before.is_leaf,
            !(spot(before.keys@, key) < before.keys@.len() && key_eq(
                before.keys@[spot(before.keys@, key)],
                key,
            )),
            if before.children@[spot(before.keys@, key)].keys@.len() < before.order {
                &&& Self::fill_of(before, mid, spot(before.keys@, key))
                &&& at == if spot(before.keys@, key) > mid.keys@.len() {
                    spot(before.keys@, key) - 1
                } else {
                    spot(before.keys@, key)
                }
            } else {
                *mid == *before && at == spot(before.keys@, key)
            },
            Self::child_replaced_of(mid, after, at),
            mid.children@[at].height() < before.height(),
            Self::delete_of(&*mid.children@[at], &*after.children@[at], key),
        ensures
            Self::delete_of(before, after, key),
    {
        reveal_with_fuel(Node::delete_of, 1);
    }

    /// An internal node in which the greatest entry under the child before
    /// the key, or the least under the child after it, took the key's
    /// place and was deleted below, is the node after the deletion.
    proof fn lemma_delete_internal_of_taken(before: &Self, after: &Self, key: K, idx: int, from: int)
        requires
            if before.children@[idx].keys@.len() >= before.order {
                from == idx
            } else {
                from == idx + 1 && before.children@[idx + 1].keys@.len() >= before.order
            },
            after.order == before.order,
            after.is_leaf == before.is_leaf,
            after.keys@ == before.keys@.update(
                idx,
                (if from == idx {
                    before.children@[from].entries().last()
                } else {
                    before.children@[from].entries()[0]
                }).0,
            ),
            after.values@ == before.values@.update(idx, after.values@[idx]),
            cloned::<V>(
                (if from == idx {
                    before.children@[from].entries().last()
                } else {
                    before.children@[from].entries()[0]
                }).1,
                after.values@[idx],
            ),
            after.children@.len() == before.children@.len(),
            forall|j: int|
                0 <= j < before.children@.len() && j != from ==> #[trigger] after.children@[j]
                    == before.children@[j],
            before.children@[from].height() < before.height(),
            Self::delete_of(
                &*before.children@[from],
                &*after.children@[from],
                (if from == idx {
                    before.children@[from].entries().last()
                } else {
                    before.children@[from].entries()[0]
                }).0,
            ),
        ensures
            Self::delete_internal_of(before, after, key, idx),
    {
        reveal_with_fuel(Node::delete_internal_of, 1);
        reveal_with_fuel(Node::delete_of, 1);
    }

    /// An internal node whose children around the key were merged, and
    /// the key deleted from the merged child, is the node after the
    /// deletion.
    proof fn lemma_delete_internal_of_merged(before: &Self, mid: &Self, after: &Self, key: K, idx: int)
        requires
            before.children@[idx].keys@.len() < before.order,
            before.children@[idx + 1].keys@.len() < before.order,
            Self::merge_of(before, mid, idx),
            Self::child_replaced_of(mid, after, idx),
            mid.children@[idx].height() < before.height(),
            Self::delete_of(&*mid.children@[idx], &*after.children@[idx], key),
        ensures
            Self::delete_internal_of(before, after, key, idx),
    {
        reveal_with_fuel(Node::delete_internal_of, 1);
        reveal_with_fuel(Node::delete_of, 1);
    }

    /// Deletes `key`, which is this internal node's key at `idx`: the
    /// greatest entry under the child before it or the least under the
    /// child after it takes its place, whichever child can spare one; if
    /// neither can, the two children are merged around the key, which is
    /// then deleted from the merged child.
    fn delete_internal_node(&mut self, key: &K, idx: usize)
        requires
            total_order::<K>(),
            exact_clone::<K>(),
            old(self).wf(),
            !old(self).is_leaf,
            idx < old(self).keys@.len(),
            key_eq(old(self).keys@[idx as int], *key),
        ensures
            final(self).shaped(old(self).order as nat),
            final(self).order == old(self).order,
            final(self).height() == old(self).height(),
            old(self).keys@.len() - 1 <= final(self).keys@.len(),
            sorted(final(self).entries()),
            copies(without(old(self).entries(), *key), final(self).entries()),
            lookup(old(self).entries(), *key) is Some,
            Self::delete_internal_of(old(self), final(self), *key, idx as int),
        decreases old(self).height(), 0nat,
    {
        let ghost before = *self;
        proof {
            before.lemma_child_wf(idx as int);
            before.lemma_child_wf(idx + 1);
        }
        assert(idx + 1 < self.children.len());
        if self.children[idx].keys.len() >= self.order {
            let pred_key = self.get_predecessor_key(idx);
            let pred_value = self.get_predecessor_value(idx);
            let stored = pred_key.clone();
            assert(cloned::<K>(pred_key, stored));
            self.keys[idx] = stored;
            self.values[idx] = pred_value;
            proof {
                lemma_without_last(before.children@[idx as int].entries());
            }
            let ghost set = *self;
            self.children[idx].delete(&pred_key);
            proof {
                Self::lemma_pred_replaced(&before, self, idx as int, *key);
                assert(self.values@ =~= before.values@.update(idx as int, self.values@[idx as int]));
                assert(set.children@[idx as int] == before.children@[idx as int]);
                Self::lemma_delete_internal_of_taken(&before, self, *key, idx as int, idx as int);
            }
        } else if self.children[idx + 1].keys.len() >= self.order {
            let succ_key = self.get_successor_key(idx);
            let succ_value = self.get_successor_value(idx);
            let stored = succ_key.clone();
            assert(cloned::<K>(succ_key, stored));
            self.keys[idx] = stored;
            self.values[idx] = succ_value;
            proof {
                lemma_without_first(before.children@[idx + 1].entries());
            }
            let ghost set = *self;
            self.children[idx + 1].delete(&succ_key);
            proof {
                Self::lemma_succ_replaced(&before, self, idx as int, *key);
                assert(self.values@ =~= before.values@.update(idx as int, self.values@[idx as int]));
                assert(set.children@[idx + 1] == before.children@[idx + 1]);
                Self::lemma_delete_internal_of_taken(&before, self, *key, idx as int, idx + 1);
            }
        } else {
            proof {
                before.lemma_found_here(idx as int, *key);
            }
            self.merge(idx);
            let ghost mid = *self;
            proof {
                mid.lemma_spanning(idx as int, *key);
            }
            self.children[idx].delete(key);
            proof {
                Self::lemma_child_deleted(&mid, self, idx as int, *key);
                Self::lemma_delete_internal_of_merged(&before, &mid, self, *key, idx as int);
            }
        }
    }

    /// Deletes `key` from the subtree, if it is there. A child that is
    /// down to the fewest keys allowed is filled before the descent into
    /// it, so that a key can always be taken out below.
    fn delete(&mut self, key: &K)
        requires
            total_order::<K>(),
            exact_clone::<K>(),
            old(self).wf(),
            !old(self).is_leaf ==> old(self).keys@.len() >= 1,
        ensures
            final(self).shaped(old(self).order as nat),
            final(self).order == old(self).order,
            final(self).height() == old(self).height(),
            old(self).keys@.len() - 1 <= final(self).keys@.len(),
            sorted(final(self).entries()),
            copies(without(old(self).entries(), *key), final(self).entries()),
            lookup(old(self).entries(), *key) is None ==> final(self).entries() == old(self).entries(),
            Self::delete_of(old(self), final(self), *key),
        decreases old(self).height(), 1nat,
    {
        proof {
            lemma_comparisons_specified::<K>();
        }
        let ghost before = *self;
        let mut idx = self.find_key(key);
        if idx < self.keys.len() && self.keys[idx] == *key {
            if self.is_leaf {
                self.keys.remove(idx);
                self.values.remove(idx);
                proof {
                    Self::lemma_leaf_removed(&before, self, idx as int, *key);
                    Self::lemma_delete_of_leaf(&before, self, *key);
                }
            } else {
                self.delete_internal_node(key, idx);
                proof {
                    Self::lemma_delete_of_own(&before, self, *key);
                }
            }
        } else {
            if self.is_leaf {
                proof {
                    self.lemma_absent_in_leaf(idx as int, *key);
                    lemma_copies_refl(self.entries());
                    Self::lemma_delete_of_leaf(&before, self, *key);
                }
                return ;
            }
            let flag = idx == self.keys.len();
            proof {
                before.lemma_descend_bounds(idx as int, *key);
                before.lemma_child_shape(idx as int);
            }
            if self.children[idx].keys.len() < self.order {
                self.fill(idx);
            }
            if flag && idx > self.keys.len() {
                idx -= 1;
            }
            let ghost mid = *self;
            proof {
                mid.lemma_spanning(idx as int, *key);
            }
            self.children[idx].delete(key);
            proof {
                Self::lemma_child_deleted(&mid, self, idx as int, *key);
                Self::lemma_delete_of_descent(&before, &mid, self, idx as int, *key);
            }
        }
    }

    /// `after` is `before` after the insertion of an absent key. In a
    /// leaf the entry stands at its place among the keys. In an internal
    /// node the key goes down into the child at its place; a child that
    /// is full is split first, and the key goes down into the half on its
    /// side of the entry that moved up.
    #[verifier::opaque]
    pub open spec fn insert_of(before: &Self, after: &Self, key: K, value: V) -> bool
        decreases before.height(),
    {
        let i = slot(before.keys@, key);
        if before.is_leaf {
            &&& after.order == before.order
            &&& after.is_leaf
            &&& after.children@ == before.children@
            &&& after.keys@ == before.keys@.insert(i, key)
            &&& after.values@ == before.values@.insert(i, value)
        } else if before.children@[i].keys@.len() == 2 * before.order - 1 {
            exists|mid: Self|
                {
                    &&& #[trigger] Self::split_of(before, &mid, i)
                    &&& {
                        let at = if key_lt(mid.keys@[i], key) {
                            i + 1
                        } else {
                            i
                        };
                        let child = *mid.children@[at];
                        let child_after = *after.children@[at];
                        &&& Self::child_replaced_of(&mid, after, at)
                        &&& child.height() < before.height()
                        &&& Self::insert_of(&child, &child_after, key, value)
                    }
                }
        } else {
            let child = *before.children@[i];
            let child_after = *after.children@[i];
            &&& Self::child_replaced_of(before, after, i)
            &&& child.height() < before.height()
            &&& Self::insert_of(&child, &child_after, key, value)
        }
    }

    /// The position at which an insertion of `key` goes in among the
    /// node's own keys: after the last key that `key` does not sort before.
    fn find_slot(&self, key: &K) -> (i: usize)
        requires
            total_order::<K>(),
        ensures
            i == slot(self.keys@, *key),
            i <= self.keys@.len(),
            forall|j: int| i <= j < self.keys@.len() ==> key_lt(*key, #[trigger] self.keys@[j]),
            i > 0 ==> !key_lt(*key, self.keys@[i - 1]),
    {
        proof {
            lemma_comparisons_specified::<K>();
            assert(self.keys@.subrange(0, self.keys@.len() as int) =~= self.keys@);
        }
        let mut i = self.keys.len();
        while i > 0 && *key < self.keys[i - 1]
            invariant
                comparisons_specified::<K>(),
                i <= self.keys@.len(),
                forall|j: int| i <= j < self.keys@.len() ==> key_lt(*key, #[trigger] self.keys@[j]),
                slot(self.keys@, *key) == slot(self.keys@.subrange(0, i as int), *key),
            decreases i,
        {
            proof {
                let front = self.keys@.subrange(0, i as int);
                assert(front.last() == self.keys@[i - 1]);
                assert(front.drop_last() =~= self.keys@.subrange(0, i - 1));
            }
            i -= 1;
        }
        proof {
            let front = self.keys@.subrange(0, i as int);
            if i > 0 {
                assert(front.last() == self.keys@[i - 1]);
            }
        }
        i
    }

    /// A leaf with the entry put in at its place is the leaf after the
    /// insertion.
    proof fn lemma_insert_of_leaf(before: &Self, after: &Self, key: K, value: V)
        requires
            before.is_leaf,
            after.order == before.order,
            after.is_leaf,
            after.children@ == before.children@,
            after.keys@ == before.keys@.insert(slot(before.keys@, key), key),
            after.values@ == before.values@.insert(slot(before.keys@, key), value),
        ensures
            Self::insert_of(before, after, key, value),
    {
        reveal_with_fuel(Node::insert_of, 1);
    }

    /// An internal node whose child at the key's place, or the half of it
    /// on the key's side after a split, took the key in, is the node after
    /// the insertion.
    proof fn lemma_insert_of_descent(before: &Self, mid: &Self, after: &Self, at: int, key: K, value: V)
        requires
            !before.is_leaf,
            if before.children@[slot(before.keys@, key)].keys@.len() == 2 * before.order - 1 {
                &&& Self::split_of(before, mid, slot(before.keys@, key))
                &&& at == if key_lt(mid.keys@[slot(before.keys@, key)], key) {
                    slot(before.keys@, key) + 1
                } else {
                    slot(before.keys@, key)
                }
            } else {
                *mid == *before && at == slot(before.keys@, key)
            },
            Self::child_replaced_of(mid, after, at),
            mid.children@[at].height() < before.height(),
            Self::insert_of(&*mid.children@[at], &*after.children@[at], key, value),
        ensures
            Self::insert_of(before, after, key, value),
            after.keys@ == ({
                let i = slot(before.keys@, key);
                let child = before.children@[i];
                if child.keys@.len() == 2 * before.order - 1 {
                    before.keys@.insert(i, child.keys@[before.order - 1])
                } else {
                    before.keys@
                }
            }),
    {
        reveal_with_fuel(Node::insert_of, 1);
    }

    /// Inserts an absent key into a subtree whose root has room for one
    /// more key, splitting full children on the way down.
    fn insert_non_full(&mut self, key: K, value: V)
        requires
            total_order::<K>(),
            old(self).wf(),
            old(self).keys@.len() < 2 * old(self).order - 1,
            lookup(old(self).entries(), key) is None,
        ensures
            final(self).wf(),
            final(self).order == old(self).order,
            final(self).height() == old(self).height(),
            final(self).entries() == inserted(old(self).entries(), key, value),
            old(self).keys@.len() <= final(self).keys@.len() <= old(self).keys@.len() + 1,
            Self::insert_of(old(self), final(self), key, value),
            !old(self).is_leaf ==> final(self).keys@ == ({
                let at = slot(old(self).keys@, key);
                let child = old(self).children@[at];
                if child.keys@.len() == 2 * old(self).order - 1 {
                    old(self).keys@.insert(at, child.keys@[old(self).order - 1])
                } else {
                    old(self).keys@
                }
            }),
        decreases old(self).height(),
    {
        let ghost before = *self;
        let mut i = self.find_slot(&key);
        proof {
            lemma_comparisons_specified::<K>();
            self.lemma_insert_position(i as int, key);
        }
        if self.is_leaf {
            self.keys.insert(i, key);
            self.values.insert(i, value);
            proof {
                Self::lemma_leaf_inserted(&before, self, i as int, key, value);
                Self::lemma_insert_of_leaf(&before, self, key, value);
            }
        } else {
            proof {
                self.lemma_child_shape(i as int);
            }
            if self.children[i].is_full() {
                self.split_child(i);
                proof {
                    assert(self.wf());
                    self.lemma_absent_differs(i as int, key);
                    lemma_comparable(self.keys@[i as int], key);
                    assert(i < self.keys.len());
                }
                if self.keys[i] < key {
                    i += 1;
                } else {
                    proof {
                        lemma_lt_excludes(key, self.keys@[i as int]);
                    }
                }
                proof {
                    if i < self.keys@.len() {
                        lemma_lt_excludes(key, self.keys@[i as int]);
                    }
                }
            }
            let ghost mid = *self;
            proof {
                mid.lemma_child_shape(i as int);
                mid.lemma_descend(i as int, key);
            }
            self.children[i].insert_non_full(key, value);
            proof {
                Self::lemma_child_inserted(&mid, self, i as int, key, value);
                Self::lemma_insert_of_descent(&before, &mid, self, i as int, key, value);
            }
        }
    }
}

/// An ordered map from keys to values, stored as a B-tree of minimum
/// degree `order`. Its view is the sequence of its entries in key order.
#[derive(Debug)]
pub struct BTree<K, V> where K: Ord + Clone + Default, V: Clone + Default {
    pub root: Option<Box<Node<K, V>>>,
    pub order: usize,
}

impl<K, V> View for BTree<K, V> where K: Ord + Clone + Default, V: Clone + Default {
    type V = Seq<(K, V)>;

    open spec fn view(&self) -> Seq<(K, V)> {
        match self.root {
            Some(root) => root.entries(),
            None => Seq::empty(),
        }
    }
}

impl<K, V> BTree<K, V> where K: Ord + Clone + Default, V: Clone + Default {
    /// The invariant of the tree: a minimum degree of at least 2, a root of
    /// that degree that is well shaped and not empty, and ascending keys.
    pub open spec fn wf(&self) -> bool {
        &&& self.order >= 2
        &&& match self.root {
            Some(root) => root.wf() && root.order == self.order && root.keys@.len() >= 1,
            None => true,
        }
    }

    /// `after` is `before` after the insertion of an absent key. An empty
    /// tree gets a leaf for its root, with the one entry. A full root goes
    /// under a new root and is split: its middle entry is the new root's
    /// only entry, and the key goes down into the half on its side. Any
    /// other root takes the key as a subtree does.
    pub open spec fn insert_of(before: &Self, after: &Self, key: K, value: V) -> bool {
        &&& after.order == before.order
        &&& after.root is Some
        &&& {
            let root_after = *after.root->Some_0;
            match before.root {
                None => {
                    &&& root_after.order == before.order
                    &&& root_after.is_leaf
                    &&& root_after.keys@ == seq![key]
                    &&& root_after.values@ == seq![value]
                    &&& root_after.children@.len() == 0
                },
                Some(root) => if root.keys@.len() == 2 * before.order - 1 {
                    exists|above: Node<K, V>, mid: Node<K, V>|
                        {
                            &&& above.order == before.order
                            &&& !above.is_leaf
                            &&& above.keys@.len() == 0
                            &&& above.values@.len() == 0
                            &&& above.children@ == seq![root]
                            &&& #[trigger] Node::split_of(&above, &mid, 0)
                            &&& {
                                let at = if key_lt(mid.keys@[0], key) {
                                    1int
                                } else {
                                    0int
                                };
                                let child = *mid.children@[at];
                                let child_after = *root_after.children@[at];
                                &&& Node::child_replaced_of(&mid, &root_after, at)
                                &&& Node::insert_of(&child, &child_after, key, value)
                            }
                        }
                } else {
                    Node::insert_of(&*root, &root_after, key, value)
                },
            }
        }
    }

    /// `after` is `before` after the deletion of `key`. The key is deleted
    /// from the root's subtree. A root left without keys then makes way:
    /// for its only child if it is internal, and for no root at all if it
    /// is a leaf.
    pub open spec fn delete_of(before: &Self, after: &Self, key: K) -> bool {
        &&& after.order == before.order
        &&& match before.root {
            None => after.root is None,
            Some(root) => exists|left: Node<K, V>|
                {
                    &&& #[trigger] Node::delete_of(&*root, &left, key)
                    &&& if left.keys@.len() == 0 && !left.is_leaf {
                        after.root is Some && after.root->Some_0 == left.children@[0]
                    } else if left.keys@.len() == 0 {
                        after.root is None
                    } else {
                        after.root is Some && *after.root->Some_0 == left
                    }
                },
        }
    }

    /// A tree whose full root went under a new root, was split there, and
    /// took the key into the half on the key's side, is the tree after the
    /// insertion; the new root has the old root's middle entry for its
    /// only one.
    proof fn lemma_insert_of_full_root(
        before: &Self,
        after: &Self,
        above: &Node<K, V>,
        mid: &Node<K, V>,
        at: int,
        key: K,
        value: V,
    )
        requires
            before.root is Some,
            before.root->Some_0.keys@.len() == 2 * before.order - 1,
            after.order == before.order,
            after.root is Some,
            above.order == before.order,
            !above.is_leaf,
            above.keys@.len() == 0,
            above.values@.len() == 0,
            above.children@ == seq![before.root->Some_0],
            Node::split_of(above, mid, 0),
            at == if key_lt(mid.keys@[0], key) {
                1int
            } else {
                0int
            },
            Node::child_replaced_of(mid, &*after.root->Some_0, at),
            Node::insert_of(&*mid.children@[at], &*after.root->Some_0.children@[at], key, value),
        ensures
            Self::insert_of(before, after, key, value),
            after.root->Some_0.keys@ == seq![before.root->Some_0.keys@[before.order - 1]],
            after.root->Some_0.values@ == seq![before.root->Some_0.values@[before.order - 1]],
            after.root->Some_0.children@.len() == 2,
    {
        let full = before.root->Some_0;
        assert(mid.keys@ =~= seq![full.keys@[before.order - 1]]);
        assert(mid.values@ =~= seq![full.values@[before.order - 1]]);
    }

    /// An empty tree of minimum degree `order`.
    pub fn new(order: usize) -> (tree: Self)
        requires
            order >= 2,
        ensures
            tree.wf(),
            tree.order == order,
            tree@ == Seq::<(K, V)>::empty(),
    {
        BTree { root: None, order }
    }

    /// The value stored under `key`, if any.
    pub fn search(&self, key: &K) -> (found: Option<&V>)
        requires
            total_order::<K>(),
            self.wf(),
        ensures
            match found {
                Some(v) => lookup(self@, *key) == Some(*v),
                None => lookup(self@, *key) is None,
            },
    {
        match &self.root {
            Some(root) => root.search(key),
            None => None,
        }
    }

    /// Stores `value` under `key`, which the tree must not hold yet: the
    /// entry takes its place in key order. `insert_of` says where in the
    /// tree it comes to stand and which nodes are split on the way.
    pub fn insert(&mut self, key: K, value: V)
        requires
            total_order::<K>(),
            old(self).wf(),
            lookup(old(self)@, key) is None,
        ensures
            final(self).wf(),
            final(self).order == old(self).order,
            final(self)@ == inserted(old(self)@, key, value),
            Self::insert_of(old(self), final(self), key, value),
            old(self).root is Some && old(self).root->Some_0.keys@.len() == 2 * old(self).order - 1 ==> {
                &&& final(self).root->Some_0.keys@ == seq![old(self).root->Some_0.keys@[old(self).order - 1]]
                &&& final(self).root->Some_0.values@ == seq![
                    old(self).root->Some_0.values@[old(self).order - 1],
                ]
                &&& final(self).root->Some_0.children@.len() == 2
            },
    {
        proof {
            lemma_comparisons_specified::<K>();
        }
        match self.root.take() {
            Some(mut root) => {
                if root.is_full() {
                    let ghost full = *root;
                    let mut new_root = Node::new(false, self.order);
                    new_root.children.push(root);
                    let ghost above = new_root;
                    proof {
                        Node::lemma_lifted(&full, &new_root);
                        assert(above.children@ =~= seq![old(self).root->Some_0]);
                    }
                    new_root.split_child(0);
                    proof {
                        assert(new_root.wf());
                        new_root.lemma_absent_differs(0, key);
                        lemma_comparable(new_root.keys@[0], key);
                        if !key_lt(new_root.keys@[0], key) {
                            lemma_lt_excludes(key, new_root.keys@[0]);
                        }
                    }
                    let i: usize = if new_root.keys[0] < key {
                        1
                    } else {
                        0
                    };
                    let ghost mid = new_root;
                    proof {
                        mid.lemma_child_shape(i as int);
                        mid.lemma_descend(i as int, key);
                    }
                    new_root.children[i].insert_non_full(key, value);
                    proof {
                        Node::lemma_child_inserted(&mid, &new_root, i as int, key, value);
                    }
                    self.root = Some(Box::new(new_root));
                    proof {
                        Self::lemma_insert_of_full_root(old(self), self, &above, &mid, i as int, key, value);
                    }
                } else {
                    root.insert_non_full(key, value);
                    self.root = Some(root);
                }
            },
            None => {
                let mut root = Node::new(true, self.order);
                root.keys.push(key);
                root.values.push(value);
                proof {
                    assert(root.own() =~= seq![(key, value)]);
                    assert(Seq::<(K, V)>::empty().insert(0, (key, value)) =~= seq![(key, value)]);
                    assert(root.keys@ =~= seq![key]);
                    assert(root.values@ =~= seq![value]);
                }
                self.root = Some(Box::new(root));
            },
        }
    }

    /// Deletes `key` and its value, if the tree holds them; a tree without
    /// `key` is left as it is. `delete_of` says how the nodes are
    /// rearranged on the way; a value that moves up into the place of a
    /// deleted key is a clone of the one that stood below.
    pub fn delete(&mut self, key: &K)
        requires
            total_order::<K>(),
            exact_clone::<K>(),
            old(self).wf(),
        ensures
            final(self).wf(),
            final(self).order == old(self).order,
            copies(without(old(self)@, *key), final(self)@),
            lookup(old(self)@, *key) is None ==> final(self)@ == old(self)@,
            exact_clone::<V>() ==> final(self)@ == without(old(self)@, *key),
            Self::delete_of(old(self), final(self), *key),
    {
        let ghost before = self@;
        if let Some(mut root_node) = self.root.take() {
            root_node.delete(key);
            let ghost left = *root_node;
            proof {
                assert(Node::delete_of(&*old(self).root->Some_0, &left, *key));
            }
            if root_node.keys.is_empty() && !root_node.is_leaf {
                proof {
                    root_node.lemma_sole_child();
                    root_node.lemma_child_shape(0);
                }
                self.root = Some(root_node.children.remove(0));
            } else if root_node.keys.is_empty() && root_node.is_leaf {
                proof {
                    assert(root_node.entries() =~= Seq::<(K, V)>::empty());
                }
                self.root = None;
            } else {
                self.root = Some(root_node);
            }
        } else {
            proof {
                lemma_copies_refl(before);
            }
        }
        proof {
            if exact_clone::<V>() {
                assert(self@ =~= without(before, *key));
            }
        }
    }

    /// A clone of every value, in ascending order of the keys.
    pub fn values_in_order(&self) -> (values: Vec<V>)
        requires
            self.wf(),
        ensures
            values_cloned(self@, values@),
    {
        let mut result = Vec::new();
        if let Some(root) = &self.root {
            Self::collect_values_in_order(root, &mut result);
            assert(result@.subrange(0, result@.len() as int) =~= result@);
        }
        result
    }

    /// Appends to `result` a clone of every value under `node`, in
    /// ascending order of the keys: each child's values before the value
    /// of the key that parts it from the next child.
    fn collect_values_in_order(node: &Node<K, V>, result: &mut Vec<V>)
        requires
            node.shaped(node.order as nat),
        ensures
            final(result)@.len() == old(result)@.len() + node.entries().len(),
            final(result)@.subrange(0, old(result)@.len() as int) == old(result)@,
            values_cloned(node.entries(), final(result)@.subrange(old(result)@.len() as int, final(result)@.len() as int)),
        decreases node,
    {
        let ghost start = result@;
        let ghost n = result@.len() as int;
        if node.is_leaf {
            result.extend_from_slice(node.values.as_slice());
            proof {
                assert(result@.subrange(0, n) =~= start);
                let out = result@.subrange(n, result@.len() as int);
                assert forall|i: int| 0 <= i < node.entries().len() implies cloned::<V>(
                    node.entries()[i].1,
                    #[trigger] out[i],
                ) by {
                    assert(out[i] == result@[n + i]);
                }
            }
        } else {
            let mut i: usize = 0;
            while i < node.keys.len()
                invariant
                    i <= node.keys@.len(),
                    node.shaped(node.order as nat),
                    !node.is_leaf,
                    n == start.len(),
                    n <= result@.len(),
                    result@.subrange(0, n) == start,
                    values_cloned(weave(node.below(), node.own(), i as int), result@.subrange(n, result@.len() as int)),
                decreases node.keys@.len() - i,
            {
                let ghost done = result@.subrange(n, result@.len() as int);
                let ghost mark = result@;
                proof {
                    node.lemma_child_shape(i as int);
                }
                Self::collect_values_in_order(&node.children[i], result);
                let ghost under = result@.subrange(mark.len() as int, result@.len() as int);
                let value = node.values[i].clone();
                result.push(value);
                proof {
                    let below = node.children@[i as int].entries();
                    assert(node.below()[i as int] == below);
                    lemma_values_cloned_concat(weave(node.below(), node.own(), i as int), done, below, under);
                    assert(values_cloned(seq![node.own()[i as int]], seq![value]));
                    lemma_values_cloned_concat(
                        weave(node.below(), node.own(), i as int) + below,
                        done + under,
                        seq![node.own()[i as int]],
                        seq![value],
                    );
                    assert(result@.subrange(n, result@.len() as int) =~= done + under + seq![value]);
                    assert(result@.subrange(0, n) =~= mark.subrange(0, n));
                }
                i += 1;
            }
            if !node.children.is_empty() {
                let ghost done = result@.subrange(n, result@.len() as int);
                let ghost mark = result@;
                proof {
                    node.lemma_child_shape(node.children@.len() - 1);
                }
                Self::collect_values_in_order(&node.children[node.children.len() - 1], result);
                proof {
                    let under = result@.subrange(mark.len() as int, result@.len() as int);
                    let below = node.children@[node.children@.len() - 1].entries();
                    assert(node.below()[node.keys@.len() as int] == below);
                    lemma_values_cloned_concat(
                        weave(node.below(), node.own(), node.keys@.len() as int),
                        done,
                        below,
                        under,
                    );
                    assert(result@.subrange(n, result@.len() as int) =~= done + under);
                    assert(result@.subrange(0, n) =~= mark.subrange(0, n));
                }
            }
        }
    }
}

} // verus!
