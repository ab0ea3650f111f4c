//! The model of a tree: its entries read in order, as a sequence of
//! key and value pairs, and what search, insertion and removal mean on it.

use crate::engine::order::{
    key_eq, key_lt, lemma_comparable, lemma_eq_refl, lemma_lt_eq, lemma_lt_excludes, lemma_lt_trans,
    total_order,
};
use vstd::prelude::*;

verus! {

/// The keys of `s` ascend strictly.
pub open spec fn sorted<K: Ord, V>(s: Seq<(K, V)>) -> bool {
    forall|i: int, j: int| 0 <= i < j < s.len() ==> key_lt(#[trigger] s[i].0, #[trigger] s[j].0)
}

/// How many entries of `s` have a key that sorts before `key`. In a sorted
/// sequence this is the position at which `key` stands or would be inserted.
pub open spec fn rank<K: Ord, V>(s: Seq<(K, V)>, key: K) -> nat
    decreases s.len(),
{
    if s.len() == 0 {
        0
    } else {
        rank(s.drop_last(), key) + if key_lt(s.last().0, key) { 1nat } else { 0nat }
    }
}

/// The first position among `keys` whose key does not sort before `key`;
/// their number where all do. A search for `key` stops or descends here.
pub open spec fn spot<K: Ord>(keys: Seq<K>, key: K) -> int
    decreases keys.len(),
{
    if keys.len() == 0 {
        0
    } else if key_lt(keys[0], key) {
        1 + spot(keys.drop_first(), key)
    } else {
        0
    }
}

/// The position after the last of `keys` that `key` does not sort before;
/// zero where it sorts before all. An insertion of `key` goes in here.
pub open spec fn slot<K: Ord>(keys: Seq<K>, key: K) -> int
    decreases keys.len(),
{
    if keys.len() == 0 {
        0
    } else if key_lt(key, keys.last()) {
        slot(keys.drop_last(), key)
    } else {
        keys.len() as int
    }
}

/// The value stored under `key` in a sorted sequence, if any.
pub open spec fn lookup<K: Ord, V>(s: Seq<(K, V)>, key: K) -> Option<V> {
    let r = rank(s, key) as int;
    if r < s.len() && key_eq(s[r].0, key) {
        Some(s[r].1)
    } else {
        None
    }
}

/// Some entry of `s` has a key equal to `key`.
pub open spec fn has_key<K: Ord, V>(s: Seq<(K, V)>, key: K) -> bool {
    exists|i: int| 0 <= i < s.len() && key_eq(#[trigger] s[i].0, key)
}

/// The sequence after `value` is stored under `key`: the entry stands at
/// the rank of `key`.
pub open spec fn inserted<K: Ord, V>(s: Seq<(K, V)>, key: K, value: V) -> Seq<(K, V)> {
    s.insert(rank(s, key) as int, (key, value))
}

/// The sequence after `key` is deleted: without the entry of `key`, if it
/// holds one, and unchanged if not.
pub open spec fn without<K: Ord, V>(s: Seq<(K, V)>, key: K) -> Seq<(K, V)> {
    if lookup(s, key) is Some {
        s.remove(rank(s, key) as int)
    } else {
        s
    }
}

/// `now` is `orig` or a clone of it.
pub open spec fn copy_of<V: Clone>(orig: V, now: V) -> bool {
    now == orig || cloned::<V>(orig, now)
}

/// `now` has the keys of `orig`, and at each position the value of `orig`
/// or a clone of it.
pub open spec fn copies<K, V: Clone>(orig: Seq<(K, V)>, now: Seq<(K, V)>) -> bool {
    &&& orig.len() == now.len()
    &&& forall|i: int| 0 <= i < orig.len() ==> (#[trigger] now[i]).0 == orig[i].0
        && copy_of(orig[i].1, now[i].1)
}

/// The rank of a key is at most the length of the sequence.
pub proof fn lemma_rank_bound<K: Ord, V>(s: Seq<(K, V)>, key: K)
    ensures
        rank(s, key) <= s.len(),
    decreases s.len(),
{
    if s.len() > 0 {
        lemma_rank_bound(s.drop_last(), key);
    }
}

/// The rank in a concatenation is the sum of the ranks in its parts.
pub proof fn lemma_rank_concat<K: Ord, V>(a: Seq<(K, V)>, b: Seq<(K, V)>, key: K)
    ensures
        rank(a + b, key) == rank(a, key) + rank(b, key),
    decreases b.len(),
{
    if b.len() == 0 {
        assert(a + b =~= a);
    } else {
        assert((a + b).drop_last() =~= a + b.drop_last());
        lemma_rank_concat(a, b.drop_last(), key);
    }
}

/// Where every key sorts before `key`, the rank is the length.
pub proof fn lemma_rank_all<K: Ord, V>(s: Seq<(K, V)>, key: K)
    requires
        forall|i: int| 0 <= i < s.len() ==> key_lt(#[trigger] s[i].0, key),
    ensures
        rank(s, key) == s.len(),
    decreases s.len(),
{
    if s.len() > 0 {
        lemma_rank_all(s.drop_last(), key);
    }
}

/// Where no key sorts before `key`, the rank is zero.
pub proof fn lemma_rank_none<K: Ord, V>(s: Seq<(K, V)>, key: K)
    requires
        forall|i: int| 0 <= i < s.len() ==> !key_lt(#[trigger] s[i].0, key),
    ensures
        rank(s, key) == 0,
    decreases s.len(),
{
    if s.len() > 0 {
        lemma_rank_none(s.drop_last(), key);
    }
}

/// In a sorted sequence the rank of `key` parts the keys that sort before
/// `key` from those that do not.
pub proof fn lemma_rank_parts<K: Ord, V>(s: Seq<(K, V)>, key: K)
    requires
        total_order::<K>(),
        sorted(s),
    ensures
        rank(s, key) <= s.len(),
        forall|i: int| 0 <= i < rank(s, key) ==> key_lt(#[trigger] s[i].0, key),
        forall|i: int| rank(s, key) <= i < s.len() ==> !key_lt(#[trigger] s[i].0, key),
    decreases s.len(),
{
    if s.len() > 0 {
        let t = s.drop_last();
        lemma_rank_parts(t, key);
        let n = s.len() - 1;
        if key_lt(s[n].0, key) {
            assert forall|i: int| 0 <= i < s.len() implies key_lt(#[trigger] s[i].0, key) by {
                if i < n {
                    lemma_lt_trans(s[i].0, s[n].0, key);
                }
            }
            lemma_rank_all(t, key);
        } else {
            assert forall|i: int| 0 <= i < rank(s, key) implies key_lt(#[trigger] s[i].0, key) by {
                assert(s[i] == t[i]);
            }
            assert forall|i: int| rank(s, key) <= i < s.len() implies !key_lt(#[trigger] s[i].0, key) by {
                if i < n {
                    assert(s[i] == t[i]);
                }
            }
        }
    }
}

/// In a sorted sequence a key is found by `lookup` exactly when some entry holds it.
pub proof fn lemma_lookup_finds<K: Ord, V>(s: Seq<(K, V)>, key: K)
    requires
        total_order::<K>(),
        sorted(s),
    ensures
        lookup(s, key) is Some <==> has_key(s, key),
        forall|i: int| 0 <= i < s.len() && key_eq(#[trigger] s[i].0, key) ==> i == rank(s, key),
{
    lemma_rank_parts(s, key);
    let r = rank(s, key) as int;
    assert forall|i: int| 0 <= i < s.len() && key_eq(#[trigger] s[i].0, key) implies i == r by {
        if i < r {
            lemma_lt_excludes(s[i].0, key);
        } else if i > r {
            // s[r] < s[i] == key, so s[r] < key, against the rank
            lemma_lt_eq(s[r].0, s[i].0, key);
        }
    }
    if lookup(s, key) is Some {
        assert(key_eq(s[r].0, key));
    }
}

/// Inserting an absent key at its rank keeps the sequence sorted.
pub proof fn lemma_insert_sorted<K: Ord, V>(s: Seq<(K, V)>, key: K, value: V)
    requires
        total_order::<K>(),
        sorted(s),
        lookup(s, key) is None,
    ensures
        sorted(s.insert(rank(s, key) as int, (key, value))),
        lookup(s.insert(rank(s, key) as int, (key, value)), key) == Some(value),
        rank(s.insert(rank(s, key) as int, (key, value)), key) == rank(s, key),
{
    lemma_rank_parts(s, key);
    lemma_lookup_finds(s, key);
    let r = rank(s, key) as int;
    let t = s.insert(r, (key, value));
    assert forall|i: int, j: int| 0 <= i < j < t.len()
        implies key_lt(#[trigger] t[i].0, #[trigger] t[j].0) by {
        if j < r {
            assert(t[i] == s[i] && t[j] == s[j]);
        } else if j == r {
            assert(t[i] == s[i]);
        } else {
            assert(t[j] == s[j - 1]);
            lemma_comparable(s[j - 1].0, key);
            if i < r {
                assert(t[i] == s[i]);
            } else if i == r {
                assert(!key_lt(s[j - 1].0, key));
                if key_eq(s[j - 1].0, key) {
                    assert(has_key(s, key));
                }
            } else {
                assert(t[i] == s[i - 1]);
            }
        }
    }
    assert(t.subrange(0, r) =~= s.subrange(0, r));
    assert(t =~= s.subrange(0, r) + (seq![(key, value)] + s.subrange(r, s.len() as int)));
    assert(s =~= s.subrange(0, r) + s.subrange(r, s.len() as int));
    lemma_rank_concat(s.subrange(0, r), s.subrange(r, s.len() as int), key);
    lemma_rank_concat(s.subrange(0, r), seq![(key, value)] + s.subrange(r, s.len() as int), key);
    lemma_rank_concat(seq![(key, value)], s.subrange(r, s.len() as int), key);
    lemma_eq_refl(key);
    lemma_comparable(key, key);
    assert(!key_lt(key, key)) by {
        if key_lt(key, key) {
            lemma_lt_excludes(key, key);
        }
    }
    lemma_rank_none(seq![(key, value)], key);
}

/// Removing an entry keeps the sequence sorted.
pub proof fn lemma_remove_sorted<K: Ord, V>(s: Seq<(K, V)>, at: int)
    requires
        sorted(s),
        0 <= at < s.len(),
    ensures
        sorted(s.remove(at)),
{
    let t = s.remove(at);
    assert forall|i: int, j: int| 0 <= i < j < t.len()
        implies key_lt(#[trigger] t[i].0, #[trigger] t[j].0) by {
        let a = if i < at { i } else { i + 1 };
        let b = if j < at { j } else { j + 1 };
        assert(t[i] == s[a] && t[j] == s[b]);
    }
}

/// A sequence with the keys of a sorted one is sorted.
pub proof fn lemma_copies_sorted<K: Ord, V: Clone>(orig: Seq<(K, V)>, now: Seq<(K, V)>)
    requires
        sorted(orig),
        copies(orig, now),
    ensures
        sorted(now),
{
    assert forall|i: int, j: int| 0 <= i < j < now.len()
        implies key_lt(#[trigger] now[i].0, #[trigger] now[j].0) by {
        assert(now[i].0 == orig[i].0 && now[j].0 == orig[j].0);
    }
}

/// After the entry of a present key is removed, the key is absent.
pub proof fn lemma_remove_absent<K: Ord, V>(s: Seq<(K, V)>, key: K)
    requires
        total_order::<K>(),
        sorted(s),
        lookup(s, key) is Some,
    ensures
        lookup(s.remove(rank(s, key) as int), key) is None,
        !has_key(s.remove(rank(s, key) as int), key),
{
    let r = rank(s, key) as int;
    let t = s.remove(r);
    lemma_remove_sorted(s, r);
    lemma_lookup_finds(s, key);
    lemma_lookup_finds(t, key);
    if has_key(t, key) {
        let i = choose|i: int| 0 <= i < t.len() && key_eq(#[trigger] t[i].0, key);
        let a = if i < r { i } else { i + 1 };
        assert(t[i] == s[a]);
        assert(key_eq(s[a].0, key));
    }
}

/// Bounds on the rank from one key on each side of a window of a sorted sequence.
pub proof fn lemma_rank_between<K: Ord, V>(s: Seq<(K, V)>, lo: int, hi: int, key: K)
    requires
        total_order::<K>(),
        sorted(s),
        0 <= lo <= hi <= s.len(),
        lo > 0 ==> key_lt(s[lo - 1].0, key),
        hi < s.len() ==> !key_lt(s[hi].0, key),
    ensures
        lo <= rank(s, key) <= hi,
{
    lemma_rank_parts(s, key);
}

/// A window of a sorted sequence that holds the rank of `key` answers for
/// the whole sequence: its own rank is the offset into it, and it finds
/// what the whole sequence finds.
pub proof fn lemma_window<K: Ord, V>(s: Seq<(K, V)>, lo: int, hi: int, key: K)
    requires
        total_order::<K>(),
        sorted(s),
        0 <= lo <= hi <= s.len(),
        lo <= rank(s, key) <= hi,
        rank(s, key) == hi ==> lookup(s, key) is None,
    ensures
        sorted(s.subrange(lo, hi)),
        rank(s.subrange(lo, hi), key) == rank(s, key) - lo,
        lookup(s.subrange(lo, hi), key) == lookup(s, key),
{
    let p = s.subrange(0, lo);
    let x = s.subrange(lo, hi);
    let q = s.subrange(hi, s.len() as int);
    lemma_rank_parts(s, key);
    assert(s =~= p + x + q);
    lemma_rank_concat(p + x, q, key);
    lemma_rank_concat(p, x, key);
    assert forall|i: int| 0 <= i < p.len() implies key_lt(#[trigger] p[i].0, key) by {
        assert(p[i] == s[i]);
    }
    lemma_rank_all(p, key);
    assert forall|i: int| 0 <= i < q.len() implies !key_lt(#[trigger] q[i].0, key) by {
        assert(q[i] == s[hi + i]);
    }
    lemma_rank_none(q, key);
    assert forall|i: int, j: int| 0 <= i < j < x.len()
        implies key_lt(#[trigger] x[i].0, #[trigger] x[j].0) by {
        assert(x[i] == s[lo + i] && x[j] == s[lo + j]);
    }
    let r = rank(s, key) as int;
    if r < hi {
        assert(x[r - lo] == s[r]);
    }
}

/// Inserting inside the middle part of a sequence inserts into the whole.
pub proof fn lemma_insert_inside<E>(p: Seq<E>, x: Seq<E>, q: Seq<E>, at: int, e: E)
    requires
        0 <= at <= x.len(),
    ensures
        p + x.insert(at, e) + q == (p + x + q).insert(p.len() + at, e),
{
    assert(p + x.insert(at, e) + q =~= (p + x + q).insert(p.len() + at, e));
}

/// Removing inside the middle part of a sequence removes from the whole.
pub proof fn lemma_remove_inside<E>(p: Seq<E>, x: Seq<E>, q: Seq<E>, at: int)
    requires
        0 <= at < x.len(),
    ensures
        p + x.remove(at) + q == (p + x + q).remove(p.len() + at),
{
    assert(p + x.remove(at) + q =~= (p + x + q).remove(p.len() + at));
}

/// Copies inside the middle part of a sequence make a copy of the whole.
pub proof fn lemma_copies_inside<K, V: Clone>(p: Seq<(K, V)>, x: Seq<(K, V)>, y: Seq<(K, V)>, q: Seq<(K, V)>)
    requires
        copies(x, y),
    ensures
        copies(p + x + q, p + y + q),
{
    let a = p + x + q;
    let b = p + y + q;
    assert forall|i: int| 0 <= i < a.len() implies (#[trigger] b[i]).0 == a[i].0
        && copy_of(a[i].1, b[i].1) by {
        if i < p.len() {
        } else if i < p.len() + x.len() {
            assert(b[i] == y[i - p.len()]);
            assert(a[i] == x[i - p.len()]);
        } else {
        }
    }
}

/// The entries of the first `n` subtrees of a node, each followed by the
/// node's own entry that parts it from the next.
pub open spec fn weave<E>(below: Seq<Seq<E>>, own: Seq<E>, n: int) -> Seq<E>
    decreases n,
{
    if n <= 0 {
        Seq::empty()
    } else {
        weave(below, own, n - 1) + below[n - 1] + seq![own[n - 1]]
    }
}

/// What follows subtree `i` of a node: its own entries from `i` on, each
/// followed by the subtree to its right.
pub open spec fn tail<E>(below: Seq<Seq<E>>, own: Seq<E>, i: int) -> Seq<E>
    decreases own.len() - i,
{
    if i >= own.len() {
        Seq::empty()
    } else {
        seq![own[i]] + below[i + 1] + tail(below, own, i + 1)
    }
}

/// A node's entries in order: subtrees and own entries in turn.
pub open spec fn woven<E>(below: Seq<Seq<E>>, own: Seq<E>) -> Seq<E> {
    weave(below, own, own.len() as int) + below[own.len() as int]
}

/// `weave` reads only the first `n` subtrees and own entries.
pub proof fn lemma_weave_same<E>(b1: Seq<Seq<E>>, o1: Seq<E>, b2: Seq<Seq<E>>, o2: Seq<E>, n: int)
    requires
        forall|j: int| 0 <= j < n ==> b1[j] == b2[j] && o1[j] == o2[j],
    ensures
        weave(b1, o1, n) == weave(b2, o2, n),
    decreases n,
{
    if n > 0 {
        lemma_weave_same(b1, o1, b2, o2, n - 1);
    }
}

/// `tail` reads only what lies to the right of its start, wherever that
/// start stands: `d` is how far the second node's positions are shifted.
pub proof fn lemma_tail_same<E>(b1: Seq<Seq<E>>, o1: Seq<E>, i1: int, b2: Seq<Seq<E>>, o2: Seq<E>, d: int)
    requires
        0 <= i1 <= o1.len(),
        0 <= i1 + d,
        o2.len() == o1.len() + d,
        forall|j: int| i1 <= j < o1.len() ==> #[trigger] o1[j] == o2[j + d],
        forall|j: int| i1 < j <= o1.len() ==> #[trigger] b1[j] == b2[j + d],
    ensures
        tail(b1, o1, i1) == tail(b2, o2, i1 + d),
    decreases o1.len() - i1,
{
    if i1 < o1.len() {
        assert(o1[i1] == o2[i1 + d]);
        assert(b1[i1 + 1] == b2[i1 + 1 + d]);
        lemma_tail_same(b1, o1, i1 + 1, b2, o2, d);
    }
}

/// A node's entries split at any subtree: what precedes it, the subtree,
/// what follows it.
pub proof fn lemma_woven_at<E>(below: Seq<Seq<E>>, own: Seq<E>, i: int)
    requires
        0 <= i <= own.len(),
    ensures
        woven(below, own) == weave(below, own, i) + below[i] + tail(below, own, i),
    decreases own.len() - i,
{
    if i < own.len() {
        lemma_woven_at(below, own, i + 1);
        assert(weave(below, own, i + 1) + below[i + 1] + tail(below, own, i + 1) =~= weave(below, own, i)
            + below[i] + tail(below, own, i));
    } else {
        assert(weave(below, own, i) + below[i] + tail(below, own, i) =~= woven(below, own));
    }
}

/// A node's entries split around two neighbouring subtrees and the own
/// entry between them.
pub proof fn lemma_woven_pair<E>(below: Seq<Seq<E>>, own: Seq<E>, i: int)
    requires
        0 <= i < own.len(),
    ensures
        woven(below, own) == weave(below, own, i) + (below[i] + seq![own[i]] + below[i + 1]) + tail(
            below,
            own,
            i + 1,
        ),
{
    lemma_woven_at(below, own, i);
    assert(weave(below, own, i) + below[i] + tail(below, own, i) =~= weave(below, own, i)
        + (below[i] + seq![own[i]] + below[i + 1]) + tail(below, own, i + 1));
}

/// Parting subtree `i` of a node in two around one of its entries, which
/// becomes an own entry of the node, leaves the node's entries as they
/// were. Read from right to left, this joins two subtrees and the own entry
/// between them.
pub proof fn lemma_woven_split<E>(
    b1: Seq<Seq<E>>,
    o1: Seq<E>,
    b2: Seq<Seq<E>>,
    o2: Seq<E>,
    i: int,
    left: Seq<E>,
    mid: E,
    right: Seq<E>,
)
    requires
        0 <= i <= o1.len(),
        b1.len() == o1.len() + 1,
        b2.len() == b1.len() + 1,
        o2 == o1.insert(i, mid),
        b1[i] == left + seq![mid] + right,
        b2[i] == left,
        b2[i + 1] == right,
        forall|j: int| 0 <= j < i ==> #[trigger] b2[j] == b1[j],
        forall|j: int| i < j < b1.len() ==> #[trigger] b1[j] == b2[j + 1],
    ensures
        woven(b2, o2) == woven(b1, o1),
{
    lemma_woven_at(b1, o1, i);
    lemma_woven_pair(b2, o2, i);
    lemma_weave_same(b1, o1, b2, o2, i);
    lemma_tail_same(b1, o1, i, b2, o2, 1);
    assert(woven(b2, o2) =~= woven(b1, o1));
}

/// Cutting a node at its own entry `m` gives two nodes whose entries, with
/// that entry between them, are the entries of the node.
pub proof fn lemma_woven_cut<E>(
    b: Seq<Seq<E>>,
    o: Seq<E>,
    m: int,
    bl: Seq<Seq<E>>,
    ol: Seq<E>,
    br: Seq<Seq<E>>,
    or: Seq<E>,
)
    requires
        0 <= m < o.len(),
        b.len() == o.len() + 1,
        ol == o.subrange(0, m),
        or == o.subrange(m + 1, o.len() as int),
        bl == b.subrange(0, m + 1),
        br == b.subrange(m + 1, b.len() as int),
    ensures
        woven(b, o) == woven(bl, ol) + seq![o[m]] + woven(br, or),
{
    lemma_woven_pair(b, o, m);
    lemma_weave_same(b, o, bl, ol, m);
    lemma_woven_at(br, or, 0);
    lemma_tail_same(b, o, m + 1, br, or, -(m + 1));
    assert(woven(b, o) =~= woven(bl, ol) + seq![o[m]] + woven(br, or));
}

/// Moving entries between subtrees `i` and `i + 1` through the own entry
/// between them leaves the node's entries as they were.
pub proof fn lemma_woven_rotate<E>(b1: Seq<Seq<E>>, o1: Seq<E>, b2: Seq<Seq<E>>, o2: Seq<E>, i: int)
    requires
        0 <= i < o1.len(),
        o2.len() == o1.len(),
        forall|j: int| 0 <= j < o1.len() && j != i ==> #[trigger] o2[j] == o1[j],
        forall|j: int| 0 <= j <= o1.len() && j != i && j != i + 1 ==> #[trigger] b2[j] == b1[j],
        b2[i] + seq![o2[i]] + b2[i + 1] == b1[i] + seq![o1[i]] + b1[i + 1],
    ensures
        woven(b2, o2) == woven(b1, o1),
        weave(b2, o2, i) == weave(b1, o1, i),
{
    lemma_woven_pair(b1, o1, i);
    lemma_woven_pair(b2, o2, i);
    lemma_weave_same(b1, o1, b2, o2, i);
    lemma_tail_same(b1, o1, i + 1, b2, o2, 0);
}

/// The first `n` subtrees and own entries of a node hold at least `n` entries.
pub proof fn lemma_weave_len<E>(below: Seq<Seq<E>>, own: Seq<E>, n: int)
    requires
        0 <= n,
    ensures
        weave(below, own, n).len() >= n,
    decreases n,
{
    if n > 0 {
        lemma_weave_len(below, own, n - 1);
    }
}

/// Every sequence is a copy of itself.
pub proof fn lemma_copies_refl<K, V: Clone>(s: Seq<(K, V)>)
    ensures
        copies(s, s),
{
}

/// Deleting a key keeps a sorted sequence sorted.
pub proof fn lemma_without_sorted<K: Ord, V>(s: Seq<(K, V)>, key: K)
    requires
        sorted(s),
    ensures
        sorted(without(s, key)),
{
    if lookup(s, key) is Some {
        lemma_remove_sorted(s, rank(s, key) as int);
    }
}

/// Deleting the greatest key of a sorted sequence drops its last entry.
pub proof fn lemma_without_last<K: Ord, V>(s: Seq<(K, V)>)
    requires
        total_order::<K>(),
        sorted(s),
        s.len() >= 1,
    ensures
        lookup(s, s.last().0) is Some,
        without(s, s.last().0) == s.drop_last(),
{
    let key = s.last().0;
    lemma_eq_refl(key);
    lemma_lookup_finds(s, key);
    assert(key_eq(s[s.len() - 1].0, key));
    assert(s.remove(s.len() - 1) =~= s.drop_last());
}

/// Deleting the least key of a sorted sequence drops its first entry.
pub proof fn lemma_without_first<K: Ord, V>(s: Seq<(K, V)>)
    requires
        total_order::<K>(),
        sorted(s),
        s.len() >= 1,
    ensures
        lookup(s, s[0].0) is Some,
        without(s, s[0].0) == s.drop_first(),
{
    let key = s[0].0;
    lemma_eq_refl(key);
    lemma_lookup_finds(s, key);
    assert(key_eq(s[0].0, key));
    assert(s.remove(0) =~= s.drop_first());
}

/// A window of a sorted sequence is sorted.
pub proof fn lemma_subrange_sorted<K: Ord, V>(s: Seq<(K, V)>, lo: int, hi: int)
    requires
        sorted(s),
        0 <= lo <= hi <= s.len(),
    ensures
        sorted(s.subrange(lo, hi)),
{
    let x = s.subrange(lo, hi);
    assert forall|i: int, j: int| 0 <= i < j < x.len()
        implies key_lt(#[trigger] x[i].0, #[trigger] x[j].0) by {
        assert(x[i] == s[lo + i] && x[j] == s[lo + j]);
    }
}

/// `out` holds a clone of each value of `entries`, in order.
pub open spec fn values_cloned<K, V: Clone>(entries: Seq<(K, V)>, out: Seq<V>) -> bool {
    &&& out.len() == entries.len()
    &&& forall|i: int| 0 <= i < entries.len() ==> cloned::<V>(entries[i].1, #[trigger] out[i])
}

/// Clones of two runs of entries, one after the other, are clones of the
/// runs joined.
pub proof fn lemma_values_cloned_concat<K, V: Clone>(a: Seq<(K, V)>, x: Seq<V>, b: Seq<(K, V)>, y: Seq<V>)
    requires
        values_cloned(a, x),
        values_cloned(b, y),
    ensures
        values_cloned(a + b, x + y),
{
    assert forall|i: int| 0 <= i < (a + b).len()
        implies cloned::<V>((a + b)[i].1, #[trigger] (x + y)[i]) by {
        if i < a.len() {
            assert((x + y)[i] == x[i]);
        } else {
            assert((x + y)[i] == y[i - a.len()]);
        }
    }
}

/// Taking the entry between two runs out of a sequence, and two ways of
/// grouping what is left and what was there.
pub proof fn lemma_middle<E>(p: Seq<E>, x: Seq<E>, m: E, y: Seq<E>, r: Seq<E>)
    ensures
        (p + (x + seq![m] + y) + r).remove((p.len() + x.len()) as int) == p + x + (y + r),
        (p + (x + seq![m] + y) + r).remove((p.len() + x.len()) as int) == (p + x) + y + r,
        p + (x + seq![m] + y) + r == p + (x + seq![m]) + (y + r),
        p + (x + seq![m] + y) + r == (p + x) + (seq![m] + y) + r,
{
    let whole = p + (x + seq![m] + y) + r;
    assert(whole.remove((p.len() + x.len()) as int) =~= p + x + (y + r));
    assert(whole.remove((p.len() + x.len()) as int) =~= (p + x) + y + r);
    assert(whole =~= p + (x + seq![m]) + (y + r));
    assert(whole =~= (p + x) + (seq![m] + y) + r);
}

} // verus!
