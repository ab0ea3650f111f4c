//! A row: the values of one record, by column name.

use crate::engine::value::{DataType, Datum};
use vstd::prelude::*;

verus! {

/// The map that a run of cells makes: each name with the value of the last
/// cell that bears it.
pub open spec fn cells_map(cells: Seq<(String, DataType)>) -> Map<Seq<char>, Datum>
    decreases cells.len(),
{
    if cells.len() == 0 {
        Map::empty()
    } else {
        cells_map(cells.drop_last()).insert(cells.last().0@, cells.last().1@)
    }
}

/// A name that no cell bears is not in the map of the cells.
pub proof fn lemma_cells_map_absent(cells: Seq<(String, DataType)>, name: Seq<char>)
    requires
        forall|i: int| 0 <= i < cells.len() ==> (#[trigger] cells[i]).0@ != name,
    ensures
        !cells_map(cells).contains_key(name),
    decreases cells.len(),
{
    if cells.len() > 0 {
        assert(cells.last() == cells[cells.len() - 1]);
        assert forall|i: int| 0 <= i < cells.drop_last().len() implies (#[trigger] cells.drop_last()[i]).0@
            != name by {
            assert(cells.drop_last()[i] == cells[i]);
        }
        lemma_cells_map_absent(cells.drop_last(), name);
    }
}

/// The map of the cells gives each name the value of the last cell that
/// bears it.
pub proof fn lemma_cells_map_last(cells: Seq<(String, DataType)>, at: int)
    requires
        0 <= at < cells.len(),
        forall|i: int| at < i < cells.len() ==> (#[trigger] cells[i]).0@ != cells[at].0@,
    ensures
        cells_map(cells).contains_key(cells[at].0@),
        cells_map(cells)[cells[at].0@] == cells[at].1@,
    decreases cells.len(),
{
    assert(cells.last() == cells[cells.len() - 1]);
    if at < cells.len() - 1 {
        assert forall|i: int| at < i < cells.drop_last().len() implies (#[trigger] cells.drop_last()[i]).0@
            != cells.drop_last()[at].0@ by {
            assert(cells.drop_last()[i] == cells[i]);
        }
        assert(cells.drop_last()[at] == cells[at]);
        lemma_cells_map_last(cells.drop_last(), at);
    }
}

/// A new value in the last cell that bears a name is a new value under
/// that name in the map.
pub proof fn lemma_cells_map_update(cells: Seq<(String, DataType)>, at: int, cell: (String, DataType))
    requires
        0 <= at < cells.len(),
        cell.0@ == cells[at].0@,
        forall|i: int| at < i < cells.len() ==> (#[trigger] cells[i]).0@ != cells[at].0@,
    ensures
        cells_map(cells.update(at, cell)) == cells_map(cells).insert(cell.0@, cell.1@),
    decreases cells.len(),
{
    let updated = cells.update(at, cell);
    assert(cells.last() == cells[cells.len() - 1]);
    if at == cells.len() - 1 {
        assert(updated.drop_last() =~= cells.drop_last());
        assert(cells_map(updated) =~= cells_map(cells).insert(cell.0@, cell.1@));
    } else {
        assert(updated.drop_last() =~= cells.drop_last().update(at, cell));
        assert(updated.last() == cells.last());
        assert forall|i: int| at < i < cells.drop_last().len() implies (#[trigger] cells.drop_last()[i]).0@
            != cells.drop_last()[at].0@ by {
            assert(cells.drop_last()[i] == cells[i]);
        }
        assert(cells.drop_last()[at] == cells[at]);
        lemma_cells_map_update(cells.drop_last(), at, cell);
        assert(cells_map(updated) =~= cells_map(cells).insert(cell.0@, cell.1@));
    }
}

/// The part of `row` under the names of `columns`.
pub open spec fn projected(row: Map<Seq<char>, Datum>, columns: Seq<Seq<char>>) -> Map<Seq<char>, Datum>
    decreases columns.len(),
{
    if columns.len() == 0 {
        Map::empty()
    } else {
        let front = projected(row, columns.drop_last());
        if row.contains_key(columns.last()) {
            front.insert(columns.last(), row[columns.last()])
        } else {
            front
        }
    }
}

/// No two of `cells` bear the same name.
pub open spec fn names_once(cells: Seq<(String, DataType)>) -> bool {
    forall|i: int, j: int| 0 <= i < j < cells.len() ==> (#[trigger] cells[i]).0@ != (#[trigger] cells[j]).0@
}

/// The values of one record, by column name. Every name has one value.
#[derive(Debug, PartialEq)]
pub struct Row {
    cells: Vec<(String, DataType)>,
}

impl View for Row {
    type V = Map<Seq<char>, Datum>;

    closed spec fn view(&self) -> Map<Seq<char>, Datum> {
        cells_map(self.cells@)
    }
}

impl Clone for Row {
    fn clone(&self) -> (copy: Self)
        ensures
            copy@ == self@,
    {
        proof {
            use_type_invariant(self);
        }
        let mut cells: Vec<(String, DataType)> = Vec::new();
        let mut i: usize = 0;
        while i < self.cells.len()
            invariant
                i <= self.cells@.len(),
                cells@ == self.cells@.subrange(0, i as int),
            decreases self.cells@.len() - i,
        {
            let name = self.cells[i].0.clone();
            let value = self.cells[i].1.clone();
            cells.push((name, value));
            proof {
                assert(cells@ =~= self.cells@.subrange(0, i + 1));
            }
            i += 1;
        }
        proof {
            assert(cells@ =~= self.cells@);
        }
        Row { cells }
    }
}

impl Default for Row {
    fn default() -> (row: Self)
        ensures
            row@ == Map::<Seq<char>, Datum>::empty(),
    {
        Row { cells: Vec::new() }
    }
}

impl Row {
    /// Every name has one value: no two cells bear the same name.
    #[verifier::type_invariant]
    spec fn wf(&self) -> bool {
        names_once(self.cells@)
    }

    /// A row without values.
    pub fn new() -> (row: Self)
        ensures
            row@ == Map::<Seq<char>, Datum>::empty(),
    {
        Row { cells: Vec::new() }
    }

    /// The position of the last of `cells` that bears `name`, if any does.
    fn position(cells: &Vec<(String, DataType)>, name: &str) -> (at: Option<usize>)
        ensures
            match at {
                Some(i) => i < cells@.len() && cells@[i as int].0@ == name@ && forall|j: int|
                    i < j < cells@.len() ==> (#[trigger] cells@[j]).0@ != name@,
                None => forall|j: int| 0 <= j < cells@.len() ==> (#[trigger] cells@[j]).0@ != name@,
            },
    {
        let mut i: usize = cells.len();
        while i > 0
            invariant
                i <= cells@.len(),
                forall|j: int| i <= j < cells@.len() ==> (#[trigger] cells@[j]).0@ != name@,
            decreases i,
        {
            i -= 1;
            if cells[i].0.as_str().eq(name) {
                return Some(i);
            }
        }
        None
    }

    /// Sets the value under `name`, in place of the one that was there, if
    /// any was.
    pub fn insert(&mut self, name: String, value: DataType)
        ensures
            final(self)@ == old(self)@.insert(name@, value@),
    {
        proof {
            use_type_invariant(&*self);
        }
        let mut cells: Vec<(String, DataType)> = Vec::new();
        std::mem::swap(&mut cells, &mut self.cells);
        match Self::position(&cells, name.as_str()) {
            Some(i) => {
                proof {
                    lemma_cells_map_update(cells@, i as int, (name, value));
                }
                cells[i] = (name, value);
            },
            None => {
                proof {
                    assert(cells@.push((name, value)).drop_last() =~= cells@);
                }
                cells.push((name, value));
            },
        }
        self.cells = cells;
    }

    /// The value under `name`, if there is one.
    pub fn get(&self, name: &str) -> (value: Option<&DataType>)
        ensures
            match value {
                Some(v) => self@.contains_key(name@) && self@[name@] == v@,
                None => !self@.contains_key(name@),
            },
    {
        match Self::position(&self.cells, name) {
            Some(i) => {
                proof {
                    lemma_cells_map_last(self.cells@, i as int);
                }
                Some(&self.cells[i].1)
            },
            None => {
                proof {
                    lemma_cells_map_absent(self.cells@, name@);
                }
                None
            },
        }
    }

    /// The part of the row under the names of `columns`.
    pub fn project(&self, columns: &Vec<String>) -> (part: Row)
        ensures
            part@ == projected(self@, columns@.map_values(|s: String| s@)),
    {
        let mut part = Row::new();
        let mut i: usize = 0;
        let ghost names = columns@.map_values(|s: String| s@);
        while i < columns.len()
            invariant
                i <= columns@.len(),
                names == columns@.map_values(|s: String| s@),
                part@ == projected(self@, names.subrange(0, i as int)),
            decreases columns@.len() - i,
        {
            proof {
                assert(names.subrange(0, i + 1).drop_last() =~= names.subrange(0, i as int));
                assert(names.subrange(0, i + 1).last() == columns@[i as int]@);
            }
            if let Some(value) = self.get(columns[i].as_str()) {
                part.insert(columns[i].clone(), value.clone());
            }
            i += 1;
        }
        proof {
            assert(names.subrange(0, names.len() as int) =~= names);
        }
        part
    }

    /// The names with their values, each name once, in the order in which
    /// the names first got a value.
    pub fn cells(&self) -> (cells: &Vec<(String, DataType)>)
        ensures
            cells_map(cells@) == self@,
            names_once(cells@),
    {
        proof {
            use_type_invariant(self);
        }
        &self.cells
    }
}

} // verus!
