//! What holds of every tree, stated over the model that the contracts of
//! the tree's operations use.

use crate::engine::btree::{BTree, Node};
use crate::engine::inorder::{
    copies, copy_of, has_key, inserted, lemma_copies_sorted, lemma_insert_sorted,
    lemma_lookup_finds, lemma_rank_bound, lemma_remove_absent, lemma_remove_sorted,
    lemma_without_sorted, lookup, rank, sorted, without,
};
use crate::engine::order::{key_eq, key_lt, total_order};
use vstd::prelude::*;

verus! {

/// The sequence after each key of `keys` is deleted in turn.
pub open spec fn without_all<K: Ord, V>(s: Seq<(K, V)>, keys: Seq<K>) -> Seq<(K, V)>
    decreases keys.len(),
{
    if keys.len() == 0 {
        s
    } else {
        without_all(without(s, keys[0]), keys.drop_first())
    }
}

/// In a sorted sequence an entry is found under every key equal to its own.
pub proof fn lemma_lookup_at<K: Ord, V>(s: Seq<(K, V)>, i: int, key: K)
    requires
        total_order::<K>(),
        sorted(s),
        0 <= i < s.len(),
        key_eq(s[i].0, key),
    ensures
        lookup(s, key) == Some(s[i].1),
{
    lemma_lookup_finds(s, key);
}

/// A key is found with the value that was inserted with it.
pub proof fn law_insert_found<K: Ord, V>(s: Seq<(K, V)>, key: K, value: V)
    requires
        total_order::<K>(),
        sorted(s),
        lookup(s, key) is None,
    ensures
        lookup(inserted(s, key, value), key) == Some(value),
{
    lemma_insert_sorted(s, key, value);
}

/// An insert changes what is found under no other key.
pub proof fn law_insert_keeps_others<K: Ord, V>(s: Seq<(K, V)>, key: K, value: V, other: K)
    requires
        total_order::<K>(),
        sorted(s),
        lookup(s, key) is None,
        !key_eq(key, other),
    ensures
        lookup(inserted(s, key, value), other) == lookup(s, other),
{
    lemma_insert_sorted(s, key, value);
    lemma_rank_bound(s, key);
    lemma_rank_bound(s, other);
    let r = rank(s, key) as int;
    let t = inserted(s, key, value);
    lemma_rank_bound(t, other);
    lemma_lookup_finds(s, other);
    lemma_lookup_finds(t, other);
    if lookup(s, other) is Some {
        let i = rank(s, other) as int;
        let j = if i < r {
            i
        } else {
            i + 1
        };
        assert(t[j] == s[i]);
        lemma_lookup_at(t, j, other);
    } else if lookup(t, other) is Some {
        let j = rank(t, other) as int;
        if j != r {
            let i = if j < r {
                j
            } else {
                j - 1
            };
            assert(t[j] == s[i]);
            assert(key_eq(s[i].0, other));
        }
    }
}

/// A delete changes what is found under no other key.
pub proof fn law_delete_keeps_others<K: Ord, V>(s: Seq<(K, V)>, key: K, other: K)
    requires
        total_order::<K>(),
        sorted(s),
        !key_eq(key, other),
    ensures
        lookup(without(s, key), other) == lookup(s, other),
{
    if lookup(s, key) is Some {
        let r = rank(s, key) as int;
        let t = s.remove(r);
        lemma_remove_sorted(s, r);
        lemma_lookup_finds(s, other);
        lemma_lookup_finds(t, other);
        crate::engine::order::lemma_eq_sym(s[r].0, key);
        crate::engine::order::lemma_eq_same_side(key, s[r].0, other);
        if lookup(s, other) is Some {
            let i = rank(s, other) as int;
            let j = if i < r {
                i
            } else {
                i - 1
            };
            assert(t[j] == s[i]);
            lemma_lookup_at(t, j, other);
        } else if lookup(t, other) is Some {
            let j = rank(t, other) as int;
            let i = if j < r {
                j
            } else {
                j + 1
            };
            assert(t[j] == s[i]);
            assert(key_eq(s[i].0, other));
        }
    }
}

/// After a delete the key is not found.
pub proof fn law_delete_removes<K: Ord, V>(s: Seq<(K, V)>, key: K)
    requires
        total_order::<K>(),
        sorted(s),
    ensures
        lookup(without(s, key), key) is None,
{
    if lookup(s, key) is Some {
        lemma_remove_absent(s, key);
    }
}

/// Deleting a key that is not there changes nothing; a second delete of
/// the same key changes nothing either.
pub proof fn law_delete_absent<K: Ord, V>(s: Seq<(K, V)>, key: K)
    requires
        total_order::<K>(),
        sorted(s),
    ensures
        lookup(s, key) is None ==> without(s, key) == s,
        without(without(s, key), key) == without(s, key),
{
    law_delete_removes(s, key);
}

/// Inserts of absent keys and deletes keep the keys in strictly ascending
/// order.
pub proof fn law_stays_sorted<K: Ord, V>(s: Seq<(K, V)>, key: K, value: V)
    requires
        total_order::<K>(),
        sorted(s),
    ensures
        lookup(s, key) is None ==> sorted(inserted(s, key, value)),
        sorted(without(s, key)),
{
    if lookup(s, key) is None {
        lemma_insert_sorted(s, key, value);
    }
    lemma_without_sorted(s, key);
}

/// `key` equals one of `keys`.
pub open spec fn among<K: Ord>(key: K, keys: Seq<K>) -> bool {
    exists|j: int| 0 <= j < keys.len() && key_eq(key, #[trigger] keys[j])
}

/// Where every key of a sorted sequence is among `keys`, every key left
/// after the first of `keys` is deleted is among the others.
pub proof fn lemma_without_among<K: Ord, V>(s: Seq<(K, V)>, keys: Seq<K>)
    requires
        total_order::<K>(),
        sorted(s),
        keys.len() > 0,
        forall|i: int| 0 <= i < s.len() ==> among((#[trigger] s[i]).0, keys),
    ensures
        forall|i: int|
            0 <= i < without(s, keys[0]).len()
                ==> among((#[trigger] without(s, keys[0])[i]).0, keys.drop_first()),
{
    let first = keys[0];
    let rest = keys.drop_first();
    let t = without(s, first);
    lemma_lookup_finds(s, first);
    lemma_rank_bound(s, first);
    assert forall|i: int| 0 <= i < t.len() implies among((#[trigger] t[i]).0, rest) by {
        let a = if lookup(s, first) is Some && i >= rank(s, first) {
            i + 1
        } else {
            i
        };
        assert(t[i] == s[a]);
        assert(among(s[a].0, keys));
        let j = choose|j: int| 0 <= j < keys.len() && key_eq(s[a].0, #[trigger] keys[j]);
        if j == 0 {
            assert(has_key(s, first));
            assert(a == rank(s, first));
        }
        assert(rest[j - 1] == keys[j]);
    }
}

/// Once every key that the sequence holds has been deleted, in whatever
/// order and among whatever other keys, nothing is left.
pub proof fn law_delete_all<K: Ord, V>(s: Seq<(K, V)>, keys: Seq<K>)
    requires
        total_order::<K>(),
        sorted(s),
        forall|i: int| 0 <= i < s.len() ==> among((#[trigger] s[i]).0, keys),
    ensures
        without_all(s, keys).len() == 0,
    decreases keys.len(),
{
    if keys.len() == 0 {
        if s.len() > 0 {
            assert(among(s[0].0, keys));
        }
    } else {
        lemma_without_sorted(s, keys[0]);
        lemma_without_among(s, keys);
        law_delete_all(without(s, keys[0]), keys.drop_first());
    }
}

/// The states of a tree along a run of deletes: each state is the one
/// before it without the key deleted, values possibly cloned.
pub open spec fn delete_run<K: Ord, V: Clone>(states: Seq<Seq<(K, V)>>, keys: Seq<K>) -> bool {
    &&& states.len() == keys.len() + 1
    &&& forall|i: int| 0 <= i < keys.len() ==> copies(without(states[i], keys[i]), #[trigger] states[i + 1])
}

/// Once every key that a tree holds has been deleted from it, in whatever
/// order and among whatever other keys, the tree holds nothing, whether or
/// not values were cloned on the way.
pub proof fn law_delete_all_cloned<K: Ord, V: Clone>(states: Seq<Seq<(K, V)>>, keys: Seq<K>)
    requires
        total_order::<K>(),
        delete_run(states, keys),
        sorted(states[0]),
        forall|i: int| 0 <= i < states[0].len() ==> among((#[trigger] states[0][i]).0, keys),
    ensures
        states.last().len() == 0,
    decreases keys.len(),
{
    if keys.len() == 0 {
        if states[0].len() > 0 {
            assert(among(states[0][0].0, keys));
        }
    } else {
        let left = without(states[0], keys[0]);
        let later = states.drop_first();
        let rest = keys.drop_first();
        lemma_without_sorted(states[0], keys[0]);
        lemma_without_among(states[0], keys);
        assert(copies(without(states[0], keys[0]), states[0int + 1]));
        lemma_copies_sorted(left, states[1]);
        assert(later[0] == states[1]);
        assert forall|i: int| 0 <= i < later[0].len() implies among((#[trigger] later[0][i]).0, rest) by {
            assert(later[0][i].0 == left[i].0);
            assert(among(left[i].0, rest));
        }
        assert forall|i: int| 0 <= i < rest.len() implies copies(
            without(later[i], rest[i]),
            #[trigger] later[i + 1],
        ) by {
            assert(later[i] == states[i + 1]);
            assert(later[i + 1] == states[i + 1 + 1]);
            assert(rest[i] == keys[i + 1]);
        }
        law_delete_all_cloned(later, rest);
        assert(later.last() == states.last());
    }
}

/// One change to a tree: storing a value under a key, or deleting a key.
pub enum Op<K, V> {
    Insert(K, V),
    Delete(K),
}

/// The key that a change is about.
pub open spec fn key_of<K, V>(op: Op<K, V>) -> K {
    match op {
        Op::Insert(key, _) => key,
        Op::Delete(key) => key,
    }
}

/// The sequence after one change.
pub open spec fn apply<K: Ord, V>(s: Seq<(K, V)>, op: Op<K, V>) -> Seq<(K, V)> {
    match op {
        Op::Insert(key, value) => inserted(s, key, value),
        Op::Delete(key) => without(s, key),
    }
}

/// The sequence after a run of changes, one after the other.
pub open spec fn apply_all<K: Ord, V>(s: Seq<(K, V)>, ops: Seq<Op<K, V>>) -> Seq<(K, V)>
    decreases ops.len(),
{
    if ops.len() == 0 {
        s
    } else {
        apply(apply_all(s, ops.drop_last()), ops.last())
    }
}

/// Every insert of the run is of a key that is absent when its turn comes.
pub open spec fn admissible<K: Ord, V>(s: Seq<(K, V)>, ops: Seq<Op<K, V>>) -> bool
    decreases ops.len(),
{
    if ops.len() == 0 {
        true
    } else {
        admissible(s, ops.drop_last()) && match ops.last() {
            Op::Insert(key, _) => lookup(apply_all(s, ops.drop_last()), key) is None,
            Op::Delete(_) => true,
        }
    }
}

/// After any run of inserts of absent keys and of deletes, the keys
/// ascend strictly.
pub proof fn law_run_sorted<K: Ord, V>(s: Seq<(K, V)>, ops: Seq<Op<K, V>>)
    requires
        total_order::<K>(),
        sorted(s),
        admissible(s, ops),
    ensures
        sorted(apply_all(s, ops)),
    decreases ops.len(),
{
    if ops.len() > 0 {
        law_run_sorted(s, ops.drop_last());
        let before = apply_all(s, ops.drop_last());
        match ops.last() {
            Op::Insert(key, value) => {
                lemma_insert_sorted(before, key, value);
            },
            Op::Delete(key) => {
                lemma_without_sorted(before, key);
            },
        }
    }
}

/// A key is found with the value that it was inserted with, after any run
/// of later changes to other keys.
pub proof fn law_round_trip<K: Ord, V>(s: Seq<(K, V)>, ops: Seq<Op<K, V>>, i: int)
    requires
        total_order::<K>(),
        sorted(s),
        admissible(s, ops),
        0 <= i < ops.len(),
        ops[i] is Insert,
        forall|j: int| i < j < ops.len() ==> !key_eq(key_of(#[trigger] ops[j]), key_of(ops[i])),
    ensures
        lookup(apply_all(s, ops), ops[i]->Insert_0) == Some(ops[i]->Insert_1),
    decreases ops.len(),
{
    let key = ops[i]->Insert_0;
    let front = ops.drop_last();
    let before = apply_all(s, front);
    law_run_sorted(s, front);
    if i == ops.len() - 1 {
        law_insert_found(before, key, ops[i]->Insert_1);
    } else {
        assert(front[i] == ops[i]);
        assert forall|j: int| i < j < front.len()
            implies !key_eq(key_of(#[trigger] front[j]), key_of(front[i])) by {
            assert(front[j] == ops[j]);
        }
        law_round_trip(s, front, i);
        assert(!key_eq(key_of(ops[ops.len() - 1]), key));
        match ops.last() {
            Op::Insert(other, value) => {
                law_insert_keeps_others(before, other, value, key);
            },
            Op::Delete(other) => {
                law_delete_keeps_others(before, other, key);
            },
        }
    }
}

/// The rank of a key is the same in a sequence and in a copy of it.
pub proof fn lemma_copies_rank<K: Ord, V: Clone>(orig: Seq<(K, V)>, now: Seq<(K, V)>, key: K)
    requires
        copies(orig, now),
    ensures
        rank(now, key) == rank(orig, key),
    decreases orig.len(),
{
    if orig.len() > 0 {
        assert(now.last() == now[now.len() - 1]);
        assert(now.last().0 == orig.last().0);
        assert forall|i: int| 0 <= i < orig.drop_last().len() implies (#[trigger] now.drop_last()[i]).0
            == orig.drop_last()[i].0 && copy_of(orig.drop_last()[i].1, now.drop_last()[i].1) by {
            assert(now.drop_last()[i] == now[i]);
        }
        lemma_copies_rank(orig.drop_last(), now.drop_last(), key);
    }
}

/// What is found in a copy of a sequence is what is found in the
/// sequence, or a clone of it.
pub proof fn law_copies_lookup<K: Ord, V: Clone>(orig: Seq<(K, V)>, now: Seq<(K, V)>, key: K)
    requires
        copies(orig, now),
    ensures
        match (lookup(orig, key), lookup(now, key)) {
            (Some(a), Some(b)) => copy_of(a, b),
            (None, None) => true,
            _ => false,
        },
{
    lemma_copies_rank(orig, now, key);
    let r = rank(orig, key) as int;
    if r < orig.len() {
        assert(now[r].0 == orig[r].0);
    }
}

/// The keys of a tree ascend strictly, and it is empty exactly when it has
/// no root.
pub proof fn law_tree_sorted<K: Ord + Clone + Default, V: Clone + Default>(tree: &BTree<K, V>)
    requires
        tree.wf(),
    ensures
        sorted(tree@),
        tree@.len() == 0 <==> tree.root is None,
{
    if let Some(root) = tree.root {
        root.lemma_entries_len();
    }
}

/// In every tree all leaves lie at the same depth, and every internal
/// node has one child more than it has keys.
pub proof fn law_tree_balanced<K: Ord + Clone + Default, V: Clone + Default>(tree: &BTree<K, V>)
    requires
        tree.wf(),
    ensures
        match tree.root {
            Some(root) => root.leaves_at(root.height()) && root.branching(),
            None => true,
        },
{
    if let Some(root) = tree.root {
        root.lemma_balanced(tree.order as nat);
    }
}

/// In every valid subtree each key of an internal node parts its
/// neighbours: the keys under the child before it sort before it, and the
/// keys under the child after it sort after it.
pub proof fn law_keys_part_children<K: Ord + Clone + Default, V: Clone + Default>(node: &Node<K, V>, i: int)
    requires
        total_order::<K>(),
        node.wf(),
        !node.is_leaf,
        0 <= i < node.keys@.len(),
    ensures
        forall|j: int|
            0 <= j < node.children@[i].entries().len() ==> key_lt(
                (#[trigger] node.children@[i].entries()[j]).0,
                node.keys@[i],
            ),
        forall|j: int|
            0 <= j < node.children@[i + 1].entries().len() ==> key_lt(
                node.keys@[i],
                (#[trigger] node.children@[i + 1].entries()[j]).0,
            ),
{
    let all = node.entries();
    node.lemma_child_window(i);
    node.lemma_child_window(i + 1);
    let left = node.children@[i].entries();
    let right = node.children@[i + 1].entries();
    let at = node.start(i) + left.len();
    assert(all[at].0 == node.keys@[i]);
    assert(node.start(i + 1) == at + 1);
    assert forall|j: int| 0 <= j < left.len() implies key_lt((#[trigger] left[j]).0, node.keys@[i]) by {
        assert(left[j] == all.subrange(node.start(i), at)[j]);
        assert(left[j] == all[node.start(i) + j]);
    }
    assert forall|j: int| 0 <= j < right.len() implies key_lt(node.keys@[i], (#[trigger] right[j]).0) by {
        assert(right[j] == all.subrange(at + 1, at + 1 + right.len())[j]);
        assert(right[j] == all[at + 1 + j]);
    }
}

} // verus!
