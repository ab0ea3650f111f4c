//! What the tree asks of its keys: a strict total order that agrees with
//! the key's own equality, and clones that equal what they were cloned from.

use std::cmp::Ordering;
use vstd::prelude::*;
use vstd::std_specs::cmp::PartialEqSpec;
use vstd::std_specs::cmp::PartialOrdSpec;

verus! {

/// `a` sorts strictly before `b`.
pub open spec fn key_lt<K: PartialOrd>(a: K, b: K) -> bool {
    a.partial_cmp_spec(&b) == Some(Ordering::Less)
}

/// `a` and `b` are the same key.
pub open spec fn key_eq<K: PartialEq>(a: K, b: K) -> bool {
    a.eq_spec(&b)
}

/// The executable `<` and `==` of `K` compute `key_lt` and `key_eq`, and
/// these form a strict total order: of `a < b`, `a == b`, `b < a` exactly
/// one holds, `<` is transitive, and equal keys sort alike.
#[verifier::opaque]
pub open spec fn total_order<K: Ord>() -> bool {
    &&& K::obeys_eq_spec()
    &&& K::obeys_partial_cmp_spec()
    &&& forall|a: K, b: K| #![trigger key_lt(a, b)] key_lt(a, b) ==> !key_lt(b, a) && !key_eq(a, b)
        && !key_eq(b, a)
    &&& forall|a: K, b: K| #![trigger key_eq(a, b)] key_eq(a, b) || key_lt(a, b) || key_lt(b, a)
    &&& forall|a: K, b: K, c: K| #![trigger key_lt(a, b), key_lt(b, c)] key_lt(a, b) && key_lt(b, c)
        ==> key_lt(a, c)
    &&& forall|a: K, b: K, c: K| #![trigger key_eq(a, b), key_lt(b, c)] key_eq(a, b) && key_lt(b, c)
        ==> key_lt(a, c)
    &&& forall|a: K, b: K, c: K| #![trigger key_lt(a, b), key_eq(b, c)] key_lt(a, b) && key_eq(b, c)
        ==> key_lt(a, c)
}

/// Every clone of a `T` equals the value it was cloned from.
pub open spec fn exact_clone<T: Clone>() -> bool {
    forall|a: T, b: T| #[trigger] cloned::<T>(a, b) ==> a == b
}

/// The executable `<` and `==` of `K` compute `key_lt` and `key_eq`.
pub open spec fn comparisons_specified<K: Ord>() -> bool {
    K::obeys_eq_spec() && K::obeys_partial_cmp_spec()
}

/// Under a total order the executable comparisons are the specified ones.
pub proof fn lemma_comparisons_specified<K: Ord>()
    requires
        total_order::<K>(),
    ensures
        comparisons_specified::<K>(),
{
    reveal(total_order);
}

/// A key that sorts before another is not equal to it and does not sort after it.
pub proof fn lemma_lt_excludes<K: Ord>(a: K, b: K)
    requires
        total_order::<K>(),
        key_lt(a, b),
    ensures
        !key_lt(b, a),
        !key_eq(a, b),
        !key_eq(b, a),
{
    reveal(total_order);
}

/// Two keys are equal or one sorts before the other.
pub proof fn lemma_comparable<K: Ord>(a: K, b: K)
    requires
        total_order::<K>(),
    ensures
        key_eq(a, b) || key_lt(a, b) || key_lt(b, a),
{
    reveal(total_order);
}

/// `<` is transitive.
pub proof fn lemma_lt_trans<K: Ord>(a: K, b: K, c: K)
    requires
        total_order::<K>(),
        key_lt(a, b),
        key_lt(b, c),
    ensures
        key_lt(a, c),
{
    reveal(total_order);
}

/// A key equal to one that sorts before `c` sorts before `c`.
pub proof fn lemma_eq_lt<K: Ord>(a: K, b: K, c: K)
    requires
        total_order::<K>(),
        key_eq(a, b),
        key_lt(b, c),
    ensures
        key_lt(a, c),
{
    reveal(total_order);
}

/// A key that sorts before `b` sorts before every key equal to `b`.
pub proof fn lemma_lt_eq<K: Ord>(a: K, b: K, c: K)
    requires
        total_order::<K>(),
        key_lt(a, b),
        key_eq(b, c),
    ensures
        key_lt(a, c),
{
    reveal(total_order);
}

/// Key equality is reflexive.
pub proof fn lemma_eq_refl<K: Ord>(a: K)
    requires
        total_order::<K>(),
    ensures
        key_eq(a, a),
{
    reveal(total_order);
    if !key_eq(a, a) {
        assert(key_lt(a, a));
    }
}

/// Key equality is symmetric.
pub proof fn lemma_eq_sym<K: Ord>(a: K, b: K)
    requires
        total_order::<K>(),
        key_eq(a, b),
    ensures
        key_eq(b, a),
{
    reveal(total_order);
    if !key_eq(b, a) {
        assert(key_lt(b, a) || key_lt(a, b));
    }
}

/// Equal keys compare alike against any third key.
pub proof fn lemma_eq_same_side<K: Ord>(a: K, b: K, c: K)
    requires
        total_order::<K>(),
        key_eq(a, b),
    ensures
        key_lt(a, c) == key_lt(b, c),
        key_lt(c, a) == key_lt(c, b),
        key_eq(a, c) == key_eq(b, c),
{
    lemma_eq_sym(a, b);
    if key_lt(a, c) {
        lemma_eq_lt(b, a, c);
    }
    if key_lt(b, c) {
        lemma_eq_lt(a, b, c);
    }
    if key_lt(c, a) {
        lemma_lt_eq(c, a, b);
    }
    if key_lt(c, b) {
        lemma_lt_eq(c, b, a);
    }
    lemma_comparable(a, c);
    lemma_comparable(b, c);
    if key_eq(a, c) && !key_eq(b, c) {
        if key_lt(b, c) {
            lemma_lt_excludes(a, c);
        } else {
            lemma_lt_excludes(c, a);
        }
    }
    if key_eq(b, c) && !key_eq(a, c) {
        if key_lt(a, c) {
            lemma_lt_excludes(b, c);
        } else {
            lemma_lt_excludes(c, b);
        }
    }
}

/// `i32` can key a tree: its order is a total order.
pub proof fn law_i32_total_order()
    ensures
        total_order::<i32>(),
{
    reveal(total_order);
}

/// `i64` can key a tree: its order is a total order.
pub proof fn law_i64_total_order()
    ensures
        total_order::<i64>(),
{
    reveal(total_order);
}

/// `u32` can key a tree: its order is a total order.
pub proof fn law_u32_total_order()
    ensures
        total_order::<u32>(),
{
    reveal(total_order);
}

/// `u64` can key a tree: its order is a total order.
pub proof fn law_u64_total_order()
    ensures
        total_order::<u64>(),
{
    reveal(total_order);
}

/// `usize` can key a tree: its order is a total order.
pub proof fn law_usize_total_order()
    ensures
        total_order::<usize>(),
{
    reveal(total_order);
}

} // verus!
