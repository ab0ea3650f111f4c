//! The model of a table's rows: keys and rows as plain values, in key
//! order, and what finding, storing and deleting a row mean on it.

use crate::engine::inorder::{copies, copy_of, inserted, lookup, rank, sorted, without};
use crate::engine::order::{key_eq, key_lt};
use crate::engine::row::Row;
use crate::engine::value::{DataType, Datum, datum_lt, lemma_datum_order};
use vstd::prelude::*;

verus! {

/// The keys and rows of a tree's entries, as plain values.
pub open spec fn stored(entries: Seq<(DataType, Row)>) -> Seq<(Datum, Map<Seq<char>, Datum>)> {
    entries.map_values(|e: (DataType, Row)| (e.0@, e.1@))
}

/// How many rows have a key that comes before `key`.
pub open spec fn place(rows: Seq<(Datum, Map<Seq<char>, Datum>)>, key: Datum) -> nat
    decreases rows.len(),
{
    if rows.len() == 0 {
        0
    } else {
        place(rows.drop_last(), key) + if datum_lt(rows.last().0, key) {
            1nat
        } else {
            0nat
        }
    }
}

/// The row stored under `key`, if any.
pub open spec fn row_at(rows: Seq<(Datum, Map<Seq<char>, Datum>)>, key: Datum) -> Option<Map<Seq<char>, Datum>> {
    let at = place(rows, key) as int;
    if at < rows.len() && rows[at].0 == key {
        Some(rows[at].1)
    } else {
        None
    }
}

/// The rows after `row` is stored under `key`.
pub open spec fn with_row(rows: Seq<(Datum, Map<Seq<char>, Datum>)>, key: Datum, row: Map<Seq<char>, Datum>) -> Seq<
    (Datum, Map<Seq<char>, Datum>),
> {
    rows.insert(place(rows, key) as int, (key, row))
}

/// The rows after the row under `key` is deleted, if there is one.
pub open spec fn without_row(rows: Seq<(Datum, Map<Seq<char>, Datum>)>, key: Datum) -> Seq<
    (Datum, Map<Seq<char>, Datum>),
> {
    if row_at(rows, key) is Some {
        rows.remove(place(rows, key) as int)
    } else {
        rows
    }
}

/// The keys of `rows` ascend strictly.
pub open spec fn ascending(rows: Seq<(Datum, Map<Seq<char>, Datum>)>) -> bool {
    forall|i: int, j: int| 0 <= i < j < rows.len() ==> datum_lt(#[trigger] rows[i].0, #[trigger] rows[j].0)
}

/// The order and equality of keys are those of their plain values.
pub proof fn lemma_key_order(a: DataType, b: DataType)
    ensures
        key_lt(a, b) == datum_lt(a@, b@),
        key_eq(a, b) == (a@ == b@),
{
    lemma_datum_order(a@, b@, b@);
}

/// The place of a key among the stored rows is its rank in the tree.
pub proof fn lemma_place(entries: Seq<(DataType, Row)>, key: DataType)
    ensures
        place(stored(entries), key@) == rank(entries, key),
    decreases entries.len(),
{
    if entries.len() > 0 {
        assert(stored(entries).drop_last() =~= stored(entries.drop_last()));
        lemma_place(entries.drop_last(), key);
        lemma_key_order(entries.last().0, key);
    }
}

/// The row stored under a key is the view of what the tree finds.
pub proof fn lemma_row_at(entries: Seq<(DataType, Row)>, key: DataType)
    ensures
        row_at(stored(entries), key@) == match lookup(entries, key) {
            Some(row) => Some(row@),
            None => None,
        },
{
    lemma_place(entries, key);
    let at = rank(entries, key) as int;
    if at < entries.len() {
        lemma_key_order(entries[at].0, key);
    }
}

/// Storing a row in the tree stores its view among the rows.
pub proof fn lemma_with_row(entries: Seq<(DataType, Row)>, key: DataType, row: Row)
    ensures
        stored(inserted(entries, key, row)) == with_row(stored(entries), key@, row@),
{
    lemma_place(entries, key);
    crate::engine::inorder::lemma_rank_bound(entries, key);
    assert(stored(inserted(entries, key, row)) =~= with_row(stored(entries), key@, row@));
}

/// Deleting a key from the tree deletes its row from the rows.
pub proof fn lemma_without_row(entries: Seq<(DataType, Row)>, key: DataType)
    ensures
        stored(without(entries, key)) == without_row(stored(entries), key@),
{
    lemma_place(entries, key);
    lemma_row_at(entries, key);
    crate::engine::inorder::lemma_rank_bound(entries, key);
    assert(stored(without(entries, key)) =~= without_row(stored(entries), key@));
}

/// Rows that are clones of rows are the same rows.
pub proof fn lemma_copies_stored(orig: Seq<(DataType, Row)>, now: Seq<(DataType, Row)>)
    requires
        copies(orig, now),
    ensures
        stored(now) == stored(orig),
{
    assert forall|i: int| 0 <= i < orig.len() implies stored(now)[i] == stored(orig)[i] by {
        assert(now[i].0 == orig[i].0);
        assert(copy_of(orig[i].1, now[i].1));
    }
    assert(stored(now) =~= stored(orig));
}

/// The stored rows of a tree with ascending keys ascend.
pub proof fn lemma_stored_ascending(entries: Seq<(DataType, Row)>)
    requires
        sorted(entries),
    ensures
        ascending(stored(entries)),
{
    assert forall|i: int, j: int| 0 <= i < j < stored(entries).len() implies datum_lt(
        #[trigger] stored(entries)[i].0,
        #[trigger] stored(entries)[j].0,
    ) by {
        lemma_key_order(entries[i].0, entries[j].0);
        assert(key_lt(entries[i].0, entries[j].0));
    }
}

} // verus!
