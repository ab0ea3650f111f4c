//! Tables: column types, schemas, typed rows, and the engine that runs
//! queries against named tables.

use crate::engine::btree::BTree;
use crate::engine::inorder::values_cloned;
use crate::engine::row::{projected, Row};
use crate::engine::stored::{
    ascending, lemma_copies_stored, lemma_row_at, lemma_stored_ascending, lemma_with_row,
    lemma_without_row, place, row_at, stored, with_row, without_row,
};
use crate::engine::value::{
    DataType, Datum, lemma_data_type_exact_clone, lemma_data_type_total_order,
};
use crate::parser::lexer::{int_of, lex, Lexer, parse_int};
use crate::parser::parser::{
    column_views, ColumnView, CreateTableQuery, CreateTableView, debug_expr, DeleteQuery,
    DeleteView, Expr, expr_debug, expr_views, ExprView, InsertQuery, Parser, Query, query_step,
    QueryView, SelectQuery, SelectView, texts, WhereClause, WhereView,
};
use vstd::prelude::*;
use vstd::string::StrSliceExecFns;
use vstd::string::StringExecFns;

verus! {

/// The type of a column.
#[derive(Debug, Clone, Copy, Hash, PartialEq, Eq, Structural)]
pub enum ColumnType {
    Int,
    String,
    Date,
}

/// What a column can be declared to be.
#[derive(Debug, Clone, Copy, Hash, PartialEq, Eq, Structural)]
pub enum Constraints {
    Unique,
    NotNull,
    Null,
    PrimaryKey,
    ForeignKey,
}

/// What a column of a schema is: its name, its type, and its place among
/// the columns, counted from 1.
pub struct ColumnModel {
    pub name: Seq<char>,
    pub column_type: ColumnType,
    pub order: u8,
}

/// One column of a schema.
#[derive(Debug, PartialEq)]
pub struct Column {
    name: String,
    column_type: ColumnType,
    constraints: Vec<Constraints>,
    order: u8,
}

impl View for Column {
    type V = ColumnModel;

    closed spec fn view(&self) -> ColumnModel {
        ColumnModel { name: self.name@, column_type: self.column_type, order: self.order }
    }
}

impl Column {
    fn new(name: &str, column_type: ColumnType, constraints: Vec<Constraints>, order: u8) -> (column: Self)
        ensures
            column@ == (ColumnModel { name: name@, column_type, order }),
            column.constraints@ == constraints@,
    {
        Self { name: name.to_string(), column_type, constraints, order }
    }
}

/// The views of a run of columns.
pub open spec fn column_models(columns: Seq<Column>) -> Seq<ColumnModel> {
    columns.map_values(|c: Column| c@)
}

/// The first of `columns` that bears `name`, if any does.
pub open spec fn first_named(columns: Seq<ColumnModel>, name: Seq<char>) -> Option<ColumnModel>
    decreases columns.len(),
{
    if columns.len() == 0 {
        None
    } else if columns[0].name == name {
        Some(columns[0])
    } else {
        first_named(columns.drop_first(), name)
    }
}

/// The value that `value` is for a column of type `column_type`: a text
/// for a text column, a number for a number column, and none where the
/// two do not fit or the column is of another type.
pub open spec fn typed(column_type: ColumnType, value: ExprView) -> Option<Datum> {
    match (column_type, value) {
        (ColumnType::String, ExprView::Ident(s)) => Some(Datum::Text(s)),
        (ColumnType::Int, ExprView::Number(n)) => Some(Datum::Int(n)),
        _ => None,
    }
}

/// The name of a column type, as its `Debug` form reads.
pub open spec fn column_type_name(column_type: ColumnType) -> Seq<char> {
    match column_type {
        ColumnType::Int => "Int"@,
        ColumnType::String => "String"@,
        ColumnType::Date => "Date"@,
    }
}

/// The name of a column type.
pub fn column_type_text(column_type: ColumnType) -> (name: &'static str)
    ensures
        name@ == column_type_name(column_type),
{
    match column_type {
        ColumnType::Int => "Int",
        ColumnType::String => "String",
        ColumnType::Date => "Date",
    }
}

/// The message for a value that does not fit its column.
pub open spec fn invalid_type_message(name: Seq<char>, column_type: ColumnType, value: ExprView) -> Seq<char> {
    "Invalid type for column "@ + name + " expected "@ + column_type_name(column_type) + " got "@
        + expr_debug(
        value,
    )
}

/// The message for a column that the schema does not have.
pub open spec fn unknown_column_message(name: Seq<char>) -> Seq<char> {
    "Did you just create the column: "@ + name
}

/// The values of the first `n` of `columns`, each checked against the
/// schema's column of that name, or the message for the first that the
/// schema does not have or whose value does not fit.
pub open spec fn validated(
    schema: Seq<ColumnModel>,
    columns: Seq<Seq<char>>,
    values: Seq<ExprView>,
    n: int,
) -> Result<Seq<Datum>, Seq<char>>
    decreases n,
{
    if n <= 0 {
        Ok(Seq::empty())
    } else {
        match validated(schema, columns, values, n - 1) {
            Err(message) => Err(message),
            Ok(data) => match first_named(schema, columns[n - 1]) {
                None => Err(unknown_column_message(columns[n - 1])),
                Some(column) => match typed(column.column_type, values[n - 1]) {
                    Some(datum) => Ok(data.push(datum)),
                    None => Err(invalid_type_message(columns[n - 1], column.column_type, values[n - 1])),
                },
            },
        }
    }
}

/// Every column that validation comes to has a value: validation stops
/// at the first column that fails.
pub open spec fn values_suffice(schema: Seq<ColumnModel>, columns: Seq<Seq<char>>, values: Seq<ExprView>) -> bool {
    forall|i: int| 0 <= i < columns.len() && #[trigger] validated(schema, columns, values, i) is Ok
        ==> i < values.len()
}

/// The views of a run of values.
pub open spec fn data(values: Seq<DataType>) -> Seq<Datum> {
    values.map_values(|v: DataType| v@)
}

/// The columns of a table, in the order in which they were added.
#[derive(Debug)]
pub struct Schema {
    columns: Vec<Column>,
    curr_order: u8,
}

impl View for Schema {
    type V = Seq<ColumnModel>;

    closed spec fn view(&self) -> Seq<ColumnModel> {
        column_models(self.columns@)
    }
}

impl Schema {
    /// Every column has its place, counted from 1, as its order.
    pub closed spec fn wf(&self) -> bool {
        &&& self.curr_order == self.columns@.len() + 1
        &&& forall|i: int| 0 <= i < self.columns@.len() ==> (#[trigger] self.columns@[i]).order == i + 1
    }

    /// The columns of a schema are counted from 1 in the order in which
    /// they were added; so no two of them are the same, and there are
    /// fewer than 255.
    pub proof fn law_columns_counted(&self)
        requires
            self.wf(),
        ensures
            self@.len() < 255,
            forall|i: int| 0 <= i < self@.len() ==> (#[trigger] self@[i]).order == i + 1,
            forall|i: int, j: int| 0 <= i < j < self@.len() ==> #[trigger] self@[i] != #[trigger] self@[j],
    {
        assert forall|i: int| 0 <= i < self@.len() implies (#[trigger] self@[i]).order == i + 1 by {
            assert(self@[i] == self.columns@[i]@);
        }
    }

    /// A schema without columns.
    pub fn new() -> (schema: Self)
        ensures
            schema.wf(),
            schema@ == Seq::<ColumnModel>::empty(),
    {
        let schema = Self { columns: Vec::new(), curr_order: 1 };
        proof {
            assert(schema@ =~= Seq::<ColumnModel>::empty());
        }
        schema
    }

    /// Adds a column after those that are there.
    pub fn add_column(&mut self, name: String, column_type: ColumnType)
        requires
            old(self).wf(),
            old(self)@.len() < 254,
        ensures
            final(self).wf(),
            final(self)@ == old(self)@.push(
                ColumnModel { name: name@, column_type, order: (old(self)@.len() + 1) as u8 },
            ),
    {
        let new_column = Column::new(name.as_str(), column_type, Vec::new(), self.curr_order);
        self.columns.push(new_column);
        self.curr_order += 1;
        proof {
            assert(self@ =~= old(self)@.push(
                ColumnModel { name: name@, column_type, order: (old(self)@.len() + 1) as u8 },
            ));
        }
    }

    /// The first column that bears `name`, if any does.
    pub fn get_column(&self, name: &str) -> (column: Option<&Column>)
        ensures
            match column {
                Some(c) => first_named(self@, name@) == Some(c@),
                None => first_named(self@, name@) is None,
            },
    {
        let mut i: usize = 0;
        proof {
            assert(self@.subrange(0, self@.len() as int) =~= self@);
        }
        while i < self.columns.len()
            invariant
                i <= self.columns@.len(),
                first_named(self@.subrange(i as int, self@.len() as int), name@)
                    == first_named(self@, name@),
            decreases self.columns@.len() - i,
        {
            proof {
                let rest = self@.subrange(i as int, self@.len() as int);
                assert(rest[0] == self.columns@[i as int]@);
                assert(rest.drop_first() =~= self@.subrange(i + 1, self@.len() as int));
            }
            if self.columns[i].name.as_str().eq(name) {
                return Some(&self.columns[i]);
            }
            i += 1;
        }
        None
    }

    /// The value that `val` is for the column `schema_col`, if the two fit.
    pub fn validate_column(schema_col: &Column, val: &Expr) -> (value: Option<DataType>)
        ensures
            match value {
                Some(v) => typed(schema_col@.column_type, val@) == Some(v@),
                None => typed(schema_col@.column_type, val@) is None,
            },
    {
        match schema_col.column_type {
            ColumnType::String => match val {
                Expr::Ident(s) => Some(DataType::Text(s.clone())),
                _ => None,
            },
            ColumnType::Int => match val {
                Expr::Number(n) => Some(DataType::Int(*n)),
                _ => None,
            },
            _ => None,
        }
    }

    /// The values of a row to insert, each checked against the column it
    /// is for; the first column that the schema does not have, or whose
    /// value does not fit, fails the row.
    pub fn validate_insert_row(&self, columns: &Vec<String>, values: &Vec<Expr>) -> (result: Result<
        Vec<DataType>,
        String,
    >)
        requires
            values_suffice(self@, texts(columns@), crate::parser::parser::expr_views(values@)),
        ensures
            match result {
                Ok(row) => validated(
                    self@,
                    texts(columns@),
                    crate::parser::parser::expr_views(values@),
                    columns@.len() as int,
                ) == Ok::<Seq<Datum>, Seq<char>>(data(row@)),
                Err(message) => validated(
                    self@,
                    texts(columns@),
                    crate::parser::parser::expr_views(values@),
                    columns@.len() as int,
                ) == Err::<Seq<Datum>, Seq<char>>(message@),
            },
    {
        let mut result: Vec<DataType> = Vec::new();
        let mut i: usize = 0;
        proof {
            assert(data(result@) =~= Seq::<Datum>::empty());
        }
        while i < columns.len()
            invariant
                i <= columns@.len(),
                values_suffice(self@, texts(columns@), crate::parser::parser::expr_views(values@)),
                validated(self@, texts(columns@), crate::parser::parser::expr_views(values@), i as int)
                    == Ok::<
                    Seq<Datum>,
                    Seq<char>,
                >(data(result@)),
            decreases columns@.len() - i,
        {
            let col = &columns[i];
            let ghost before = result@;
            match self.get_column(col.as_str()) {
                Some(schema_col) => match Self::validate_column(schema_col, &values[i]) {
                    Some(datatype) => {
                        result.push(datatype);
                        proof {
                            assert(data(result@) =~= data(before).push(datatype@));
                        }
                    },
                    None => {
                        let mut message = "Invalid type for column ".to_string();
                        message.append(col.as_str());
                        message.append(" expected ");
                        message.append(column_type_text(schema_col.column_type));
                        message.append(" got ");
                        let got = debug_expr(&values[i]);
                        message.append(got.as_str());
                        proof {
                            Self::lemma_failed(
                                self@,
                                texts(columns@),
                                crate::parser::parser::expr_views(values@),
                                i + 1,
                                columns@.len() as int,
                            );
                        }
                        return Err(message);
                    },
                },
                None => {
                    let mut message = "Did you just create the column: ".to_string();
                    message.append(col.as_str());
                    proof {
                        Self::lemma_failed(
                            self@,
                            texts(columns@),
                            crate::parser::parser::expr_views(values@),
                            i + 1,
                            columns@.len() as int,
                        );
                    }
                    return Err(message);
                },
            }
            i += 1;
        }
        Ok(result)
    }

    /// Whether a row of texts has a value for every column: the first
    /// column without one fails the row. The value of every number column
    /// must write a number.
    pub fn validate_row(&self, values: &Vec<String>) -> (result: Result<(), String>)
        requires
            self.wf(),
            forall|i: int|
                0 <= i < self@.len() && i < values@.len() && (#[trigger] self@[i]).column_type
                    == ColumnType::Int ==> int_of(values@[i]@) is Some,
        ensures
            match result {
                Ok(_) => self@.len() <= values@.len(),
                Err(message) => values@.len() < self@.len() && message@ == "Missing column: "@
                    + self@[values@.len() as int].name,
            },
    {
        let mut i: usize = 0;
        while i < self.columns.len()
            invariant
                self.wf(),
                i <= self.columns@.len(),
                i <= values@.len(),
                forall|j: int|
                    0 <= j < self@.len() && j < values@.len() && (#[trigger] self@[j]).column_type
                        == ColumnType::Int ==> int_of(values@[j]@) is Some,
            decreases self.columns@.len() - i,
        {
            let col = &self.columns[i];
            proof {
                assert(self@[i as int] == col@);
            }
            let at: usize = (col.order - 1) as usize;
            if at < values.len() {
                let value = &values[at];
                match col.column_type {
                    ColumnType::Int => {
                        parse_int(value.as_str()).expect("invalid int value");
                    },
                    ColumnType::String => (),
                    ColumnType::Date => (),
                }
            } else {
                let mut message = "Missing column: ".to_string();
                message.append(col.name.as_str());
                return Err(message);
            }
            i += 1;
        }
        Ok(())
    }

    /// Once a column has failed, the row has failed, with that column's
    /// message.
    proof fn lemma_failed(
        schema: Seq<ColumnModel>,
        columns: Seq<Seq<char>>,
        values: Seq<ExprView>,
        n: int,
        m: int,
    )
        requires
            n <= m,
            validated(schema, columns, values, n) is Err,
        ensures
            validated(schema, columns, values, m) == validated(schema, columns, values, n),
        decreases m - n,
    {
        if n < m {
            Self::lemma_failed(schema, columns, values, n, m - 1);
        }
    }
}

/// The first position of `name` among `names`, if it is there.
pub open spec fn index_of(names: Seq<Seq<char>>, name: Seq<char>) -> Option<int>
    decreases names.len(),
{
    if names.len() == 0 {
        None
    } else if names[0] == name {
        Some(0)
    } else {
        match index_of(names.drop_first(), name) {
            Some(i) => Some(i + 1),
            None => None,
        }
    }
}

/// A name that has no position among `names` differs from each of them.
pub proof fn lemma_index_of_none(names: Seq<Seq<char>>, name: Seq<char>)
    requires
        index_of(names, name) is None,
    ensures
        forall|i: int| 0 <= i < names.len() ==> #[trigger] names[i] != name,
    decreases names.len(),
{
    if names.len() > 0 {
        lemma_index_of_none(names.drop_first(), name);
        assert forall|i: int| 0 <= i < names.len() implies #[trigger] names[i] != name by {
            if i > 0 {
                assert(names[i] == names.drop_first()[i - 1]);
            }
        }
    }
}

/// The row that the first `n` columns and their values make.
pub open spec fn row_of(columns: Seq<Seq<char>>, values: Seq<Datum>, n: int) -> Map<Seq<char>, Datum>
    decreases n,
{
    if n <= 0 {
        Map::empty()
    } else {
        row_of(columns, values, n - 1).insert(columns[n - 1], values[n - 1])
    }
}

/// What inserting a row does: the rows with the new row stored under the
/// value of its `id` column, or the message of what keeps it out: a column
/// that fails validation, no `id` among the columns, or a key that is
/// taken.
pub open spec fn insert_row_result(
    schema: Seq<ColumnModel>,
    rows: Seq<(Datum, Map<Seq<char>, Datum>)>,
    columns: Seq<Seq<char>>,
    values: Seq<ExprView>,
) -> Result<Seq<(Datum, Map<Seq<char>, Datum>)>, Seq<char>> {
    match validated(schema, columns, values, columns.len() as int) {
        Err(message) => Err(message),
        Ok(row) => match index_of(columns, "id"@) {
            None => Err("expected an 'id' column"@),
            Some(id) => if row_at(rows, row[id]) is Some {
                Err("Duplicate primary key"@)
            } else {
                Ok(with_row(rows, row[id], row_of(columns, row, columns.len() as int)))
            },
        },
    }
}

/// The condition names a column other than `id`.
pub open spec fn names_other_column(clause: WhereView) -> bool {
    match clause.left {
        ExprView::Ident(s) => s != "id"@,
        _ => false,
    }
}

/// What deleting by a query does: the rows without the row whose key is
/// the number on the right of the condition, or a message where there is
/// no condition, where it names another column than `id`, or where its
/// right side is no number.
pub open spec fn delete_row_result(rows: Seq<(Datum, Map<Seq<char>, Datum>)>, query: DeleteView) -> Result<
    Seq<(Datum, Map<Seq<char>, Datum>)>,
    Seq<char>,
> {
    match query.where_clause {
        None => Err("Expected a where clause , do you want me to delete the whole table??????"@),
        Some(clause) => if names_other_column(clause) {
            Err("Buddy you have high expecations"@)
        } else {
            match clause.right {
                ExprView::Number(n) => Ok(without_row(rows, Datum::Int(n))),
                _ => Err("man cmon , dont you know the id is a number??????"@),
            }
        },
    }
}

/// The key that the right side of a condition is.
pub open spec fn where_key(clause: WhereView) -> Datum {
    match clause.right {
        ExprView::Ident(s) => Datum::Text(s),
        ExprView::Number(n) => Datum::Int(n),
    }
}

/// The row that a condition picks, or the message of why it picks none.
pub open spec fn found_row(rows: Seq<(Datum, Map<Seq<char>, Datum>)>, clause: Option<WhereView>) -> Result<
    Map<Seq<char>, Datum>,
    Seq<char>,
> {
    match clause {
        None => Err("No Where Clause"@),
        Some(c) => if names_other_column(c) {
            Err("Buddy you have high expecations"@)
        } else {
            match row_at(rows, where_key(c)) {
                Some(row) => Ok(row),
                None => Err("Couldnt find a row"@),
            }
        },
    }
}

/// A row as a query shows it: whole where the first column asked for is
/// `*`, and else the part under the columns asked for.
pub open spec fn shown(row: Map<Seq<char>, Datum>, columns: Seq<Seq<char>>) -> Map<Seq<char>, Datum> {
    if columns[0] == "*"@ {
        row
    } else {
        projected(row, columns)
    }
}

/// The rows that a query selects: the one row that its condition picks;
/// all rows, in key order, where it has no condition; none where its
/// condition picks no row.
pub open spec fn selected(rows: Seq<(Datum, Map<Seq<char>, Datum>)>, query: SelectView) -> Option<
    Seq<Map<Seq<char>, Datum>>,
> {
    match found_row(rows, query.where_clause) {
        Ok(row) => Some(seq![shown(row, query.columns)]),
        Err(_) => if query.where_clause is None {
            Some(rows.map_values(|e: (Datum, Map<Seq<char>, Datum>)| shown(e.1, query.columns)))
        } else {
            None
        },
    }
}

/// `result` is the outcome that `expected` describes: on success the rows
/// are the new rows, and on failure the message is the expected one and
/// the rows are as they were.
pub open spec fn rows_outcome(
    result: Result<(), String>,
    expected: Result<Seq<(Datum, Map<Seq<char>, Datum>)>, Seq<char>>,
    before: Seq<(Datum, Map<Seq<char>, Datum>)>,
    after: Seq<(Datum, Map<Seq<char>, Datum>)>,
) -> bool {
    match result {
        Ok(_) => expected == Ok::<Seq<(Datum, Map<Seq<char>, Datum>)>, Seq<char>>(after),
        Err(message) => expected == Err::<Seq<(Datum, Map<Seq<char>, Datum>)>, Seq<char>>(message@) && after
            == before,
    }
}

/// The views of a run of rows.
pub open spec fn row_maps(rows: Seq<Row>) -> Seq<Map<Seq<char>, Datum>> {
    rows.map_values(|r: Row| r@)
}

/// Validation yields one value for each column.
pub proof fn lemma_validated_len(schema: Seq<ColumnModel>, columns: Seq<Seq<char>>, values: Seq<ExprView>, n: int)
    requires
        0 <= n,
        validated(schema, columns, values, n) is Ok,
    ensures
        validated(schema, columns, values, n)->Ok_0.len() == n,
    decreases n,
{
    if n > 0 {
        lemma_validated_len(schema, columns, values, n - 1);
    }
}

/// The first position of `name` among `names`, if it is there.
pub fn position_of(names: &Vec<String>, name: &str) -> (at: Option<usize>)
    ensures
        match at {
            Some(i) => index_of(texts(names@), name@) == Some(i as int) && i < names@.len(),
            None => index_of(texts(names@), name@) is None,
        },
{
    let ghost all = texts(names@);
    let mut i: usize = 0;
    proof {
        assert(all.subrange(0, all.len() as int) =~= all);
    }
    while i < names.len()
        invariant
            i <= names@.len(),
            all == texts(names@),
            index_of(all, name@) == match index_of(all.subrange(i as int, all.len() as int), name@) {
                Some(k) => Some(k + i),
                None => None,
            },
        decreases names@.len() - i,
    {
        proof {
            let rest = all.subrange(i as int, all.len() as int);
            assert(rest[0] == names@[i as int]@);
            assert(rest.drop_first() =~= all.subrange(i + 1, all.len() as int));
        }
        if names[i].as_str().eq(name) {
            return Some(i);
        }
        i += 1;
    }
    None
}

/// A table: its columns, and its rows by the value of their `id` column.
#[derive(Debug)]
pub struct Table {
    schema: Schema,
    rows: BTree<DataType, Row>,
}

impl Table {
    /// The columns of the table.
    pub closed spec fn columns(&self) -> Seq<ColumnModel> {
        self.schema@
    }

    /// The keys and rows of the table, in key order.
    pub closed spec fn rows(&self) -> Seq<(Datum, Map<Seq<char>, Datum>)> {
        stored(self.rows@)
    }

    /// The schema and the tree of rows are well formed.
    pub closed spec fn wf(&self) -> bool {
        self.schema.wf() && self.rows.wf()
    }

    /// The rows of a table stand in strictly ascending order of their keys.
    pub proof fn law_rows_ascend(&self)
        requires
            self.wf(),
        ensures
            ascending(self.rows()),
    {
        crate::engine::laws::law_tree_sorted(&self.rows);
        lemma_stored_ascending(self.rows@);
    }

    /// A table without columns and rows.
    pub fn new() -> (table: Self)
        ensures
            table.wf(),
            table.columns() == Seq::<ColumnModel>::empty(),
            table.rows() == Seq::<(Datum, Map<Seq<char>, Datum>)>::empty(),
    {
        let table = Self { schema: Schema::new(), rows: BTree::new(2) };
        proof {
            assert(table.rows() =~= Seq::<(Datum, Map<Seq<char>, Datum>)>::empty());
        }
        table
    }

    /// The row that columns and their values make.
    fn make_row(columns: &Vec<String>, values: &Vec<DataType>) -> (row: Row)
        requires
            columns@.len() == values@.len(),
        ensures
            row@ == row_of(texts(columns@), data(values@), columns@.len() as int),
    {
        let mut row = Row::new();
        let mut i: usize = 0;
        while i < columns.len()
            invariant
                i <= columns@.len() == values@.len(),
                row@ == row_of(texts(columns@), data(values@), i as int),
            decreases columns@.len() - i,
        {
            row.insert(columns[i].clone(), values[i].clone());
            i += 1;
        }
        row
    }

    /// Stores a row under the value of its `id` column, after checking its
    /// values against the schema; a row without `id`, or with a key that
    /// is taken, is refused.
    pub fn insert_row(&mut self, columns: Vec<String>, values_: Vec<Expr>) -> (result: Result<(), String>)
        requires
            old(self).wf(),
            values_suffice(old(self).columns(), texts(columns@), expr_views(values_@)),
        ensures
            final(self).wf(),
            final(self).columns() == old(self).columns(),
            rows_outcome(
                result,
                insert_row_result(old(self).columns(), old(self).rows(), texts(columns@), expr_views(values_@)),
                old(self).rows(),
                final(self).rows(),
            ),
    {
        let values = match self.schema.validate_insert_row(&columns, &values_) {
            Ok(values) => values,
            Err(message) => {
                return Err(message);
            },
        };
        proof {
            lemma_validated_len(self.schema@, texts(columns@), expr_views(values_@), columns@.len() as int);
            lemma_data_type_total_order();
        }
        let id = match position_of(&columns, "id") {
            Some(id) => id,
            None => {
                return Err("expected an 'id' column".to_string());
            },
        };
        proof {
            lemma_row_at(self.rows@, values@[id as int]);
        }
        if self.rows.search(&values[id]).is_some() {
            return Err("Duplicate primary key".to_string());
        }
        let row = Self::make_row(&columns, &values);
        let key = values[id].clone();
        proof {
            lemma_with_row(self.rows@, key, row);
        }
        self.rows.insert(key, row);
        Ok(())
    }

    /// Deletes the row whose key is the number on the right of the
    /// query's condition, which must be a condition on `id`.
    pub fn delete_row(&mut self, query: DeleteQuery) -> (result: Result<(), String>)
        requires
            old(self).wf(),
        ensures
            final(self).wf(),
            final(self).columns() == old(self).columns(),
            rows_outcome(
                result,
                delete_row_result(old(self).rows(), query@),
                old(self).rows(),
                final(self).rows(),
            ),
    {
        if let Some(c) = query.where_clause {
            match &c.left {
                Expr::Ident(s) => {
                    if !s.as_str().eq("id") {
                        return Err("Buddy you have high expecations".to_string());
                    }
                },
                _ => {},
            }
            let right_value = match c.right {
                Expr::Number(s) => DataType::Int(s),
                _ => {
                    return Err("man cmon , dont you know the id is a number??????".to_string());
                },
            };
            proof {
                lemma_data_type_total_order();
                lemma_data_type_exact_clone();
                lemma_without_row(self.rows@, right_value);
            }
            let ghost before = self.rows@;
            self.rows.delete(&right_value);
            proof {
                lemma_copies_stored(crate::engine::inorder::without(before, right_value), self.rows@);
            }
        } else {
            return Err("Expected a where clause , do you want me to delete the whole table??????".to_string());
        }
        Ok(())
    }

    /// The row that a condition on `id` picks.
    pub fn get_row_from_where_clause(&self, clause: &Option<WhereClause>) -> (result: Result<Row, String>)
        requires
            self.wf(),
        ensures
            match result {
                Ok(row) => found_row(self.rows(), crate::parser::parser::where_view(*clause)) == Ok::<
                    Map<Seq<char>, Datum>,
                    Seq<char>,
                >(row@),
                Err(message) => found_row(self.rows(), crate::parser::parser::where_view(*clause)) == Err::<
                    Map<Seq<char>, Datum>,
                    Seq<char>,
                >(message@),
            },
    {
        if let Some(c) = clause {
            match &c.left {
                Expr::Ident(s) => {
                    if !s.as_str().eq("id") {
                        return Err("Buddy you have high expecations".to_string());
                    }
                },
                _ => {},
            }
            let right_value = match &c.right {
                Expr::Ident(s) => DataType::Text(s.clone()),
                Expr::Number(s) => DataType::Int(*s),
            };
            proof {
                lemma_data_type_total_order();
                lemma_row_at(self.rows@, right_value);
            }
            match self.rows.search(&right_value) {
                Some(row) => Ok(row.clone()),
                None => Err("Couldnt find a row".to_string()),
            }
        } else {
            Err("No Where Clause".to_string())
        }
    }

    /// Whether a query selects nothing: it has a condition, and the
    /// condition picks no row.
    pub fn selects_nothing(&self, query: &SelectQuery) -> (nothing: bool)
        requires
            self.wf(),
        ensures
            nothing == selected(self.rows(), query@) is None,
    {
        query.where_clause.is_some() && self.get_row_from_where_clause(&query.where_clause).is_err()
    }

    /// A row as a query for `columns` shows it.
    fn show(row: &Row, columns: &Vec<String>) -> (part: Row)
        requires
            columns@.len() >= 1,
        ensures
            part@ == shown(row@, texts(columns@)),
    {
        if !columns[0].as_str().eq("*") {
            row.project(columns)
        } else {
            row.clone()
        }
    }

    /// The rows that a query selects: the one that its condition picks, or
    /// all rows in key order where it has no condition; of each, the
    /// columns asked for.
    pub fn select_rows(&self, query: &SelectQuery) -> (result: Option<Vec<Row>>)
        requires
            self.wf(),
            query.columns@.len() >= 1 || selected(self.rows(), query@) is None,
        ensures
            match result {
                Some(rows) => selected(self.rows(), query@) == Some(row_maps(rows@)),
                None => selected(self.rows(), query@) is None,
            },
    {
        match self.get_row_from_where_clause(&query.where_clause) {
            Ok(row) => {
                let result = Self::show(&row, &query.columns);
                let mut rows: Vec<Row> = Vec::new();
                rows.push(result);
                proof {
                    assert(row_maps(rows@) =~= seq![shown(row@, texts(query.columns@))]);
                }
                Some(rows)
            },
            Err(_) => {
                if query.where_clause.is_none() {
                    let all = self.rows.values_in_order();
                    let mut rows: Vec<Row> = Vec::new();
                    let mut i: usize = 0;
                    let ghost columns = texts(query.columns@);
                    let ghost expected = self.rows().map_values(
                        |e: (Datum, Map<Seq<char>, Datum>)| shown(e.1, columns),
                    );
                    while i < all.len()
                        invariant
                            i <= all@.len(),
                            query.columns@.len() >= 1,
                            columns == texts(query.columns@),
                            values_cloned(self.rows@, all@),
                            expected == self.rows().map_values(
                                |e: (Datum, Map<Seq<char>, Datum>)| shown(e.1, columns),
                            ),
                            row_maps(rows@) == expected.subrange(0, i as int),
                        decreases all@.len() - i,
                    {
                        let part = Self::show(&all[i], &query.columns);
                        let ghost before = rows@;
                        let ghost shown_part = part@;
                        rows.push(part);
                        proof {
                            assert(self.rows()[i as int].1 == all@[i as int]@);
                            assert(expected[i as int] == shown_part);
                            assert(row_maps(rows@) =~= row_maps(before).push(shown_part));
                            assert(expected.subrange(0, i
                                + 1) =~= expected.subrange(0, i as int).push(shown_part));
                        }
                        i += 1;
                    }
                    proof {
                        assert(expected.subrange(0, expected.len() as int) =~= expected);
                    }
                    Some(rows)
                } else {
                    None
                }
            },
        }
    }
}

/// What a line that opens with a dot asks for.
#[derive(Debug, Clone, Copy, PartialEq, Eq, Structural)]
pub enum MetaCommand {
    /// `.exit`: leave the program.
    Exit,
    /// `.bt`: show every table.
    Tables,
    /// Anything else.
    Unknown,
}

/// What the line `input` asks for.
pub fn meta_command(input: &str) -> (command: MetaCommand)
    ensures
        command == (if input@ == ".exit"@ {
            MetaCommand::Exit
        } else if input@ == ".bt"@ {
            MetaCommand::Tables
        } else {
            MetaCommand::Unknown
        }),
{
    if input.eq(".exit") {
        MetaCommand::Exit
    } else if input.eq(".bt") {
        MetaCommand::Tables
    } else {
        MetaCommand::Unknown
    }
}

/// The first position among `tables` of one named `name`, if any is.
pub open spec fn table_index(names: Seq<Seq<char>>, name: Seq<char>) -> Option<int> {
    index_of(names, name)
}

/// The columns that a schema has after the declared columns were added to
/// an empty one.
pub open spec fn declared(columns: Seq<ColumnView>) -> Seq<ColumnModel> {
    Seq::new(
        columns.len(),
        |i: int| ColumnModel { name: columns[i].name, column_type: columns[i].column_type, order: (i
            + 1) as u8 },
    )
}

/// Whether the first `n` declared columns have one named `id`, or the
/// message for an `id` column that is no number.
pub open spec fn has_id(columns: Seq<ColumnView>, n: int) -> Result<bool, Seq<char>>
    decreases n,
{
    if n <= 0 {
        Ok(false)
    } else {
        match has_id(columns, n - 1) {
            Err(message) => Err(message),
            Ok(seen) => if columns[n - 1].name == "id"@ {
                if columns[n - 1].column_type != ColumnType::Int {
                    Err("Expected 'id' to be an int"@)
                } else {
                    Ok(true)
                }
            } else {
                Ok(seen)
            },
        }
    }
}

/// What creating a table comes to: the columns of the new table, or the
/// message of what keeps it out: a table of that name, an `id` column that
/// is no number, or no `id` column.
pub open spec fn create_table_result(names: Seq<Seq<char>>, query: CreateTableView) -> Result<
    Seq<ColumnModel>,
    Seq<char>,
> {
    if table_index(names, query.table) is Some {
        Err("A Table with name '"@ + query.table + "' exists"@)
    } else {
        match has_id(query.columns, query.columns.len() as int) {
            Err(message) => Err(message),
            Ok(seen) => if seen {
                Ok(declared(query.columns))
            } else {
                Err("Expected an 'id' column"@)
            },
        }
    }
}

/// The outcome of a step without an answer, with its message as plain text.
pub open spec fn done(result: Result<(), String>) -> Result<(), Seq<char>> {
    match result {
        Ok(_) => Ok(()),
        Err(message) => Err(message@),
    }
}

/// The answer of a query, with rows and message as plain values.
pub open spec fn answer(result: Result<Vec<Row>, String>) -> Result<Seq<Map<Seq<char>, Datum>>, Seq<char>> {
    match result {
        Ok(rows) => Ok(row_maps(rows@)),
        Err(message) => Err(message@),
    }
}

/// An answer as the outcome of a step without one.
pub open spec fn no_rows(result: Result<Seq<Map<Seq<char>, Datum>>, Seq<char>>) -> Result<(), Seq<char>> {
    match result {
        Ok(_) => Ok(()),
        Err(message) => Err(message),
    }
}

/// The line opens with a dot: it is a command to the program, not a
/// statement.
pub open spec fn is_meta(input: Seq<char>) -> bool {
    input.len() > 0 && input[0] == '.'
}

/// The query that a statement is, or the message of why it is none.
pub open spec fn statement(input: Seq<char>) -> Result<QueryView, Seq<char>> {
    query_step(lex(input, 0), 0).out
}

/// The engine: named tables, and a switch for showing parsed queries.
#[derive(Debug)]
pub struct Neoqlite {
    tables: Vec<(String, Table)>,
    debug: bool,
}

impl Neoqlite {
    /// The names of the tables, in the order in which they were created.
    pub closed spec fn names(&self) -> Seq<Seq<char>> {
        self.tables@.map_values(|t: (String, Table)| t.0@)
    }

    /// The table at position `i`.
    pub closed spec fn table(&self, i: int) -> Table {
        self.tables@[i].1
    }

    /// Whether parsed queries are to be shown.
    pub closed spec fn shows_queries(&self) -> bool {
        self.debug
    }

    /// Every table is well formed, and no two tables bear the same name.
    pub closed spec fn wf(&self) -> bool {
        &&& forall|i: int| 0 <= i < self.tables@.len() ==> (#[trigger] self.tables@[i]).1.wf()
        &&& forall|i: int, j: int|
            0 <= i < j < self.tables@.len() ==> (#[trigger] self.tables@[i]).0@ != (#[trigger] self.tables@[j]).0@
    }

    /// Every table of a well-formed engine is well formed, and no two of
    /// them bear the same name.
    pub proof fn law_tables_wf(&self)
        requires
            self.wf(),
        ensures
            forall|i: int| 0 <= i < self.names().len() ==> (#[trigger] self.table(i)).wf(),
            forall|i: int, j: int|
                0 <= i < j < self.names().len() ==> #[trigger] self.names()[i] != #[trigger] self.names()[j],
    {
        assert forall|i: int| 0 <= i < self.names().len() implies (#[trigger] self.table(i)).wf() by {
            assert(self.tables@[i].1.wf());
        }
        assert forall|i: int, j: int| 0 <= i < j < self.names().len() implies #[trigger] self.names()[i]
            != #[trigger] self.names()[j] by {
            assert(self.tables@[i].0@ != self.tables@[j].0@);
        }
    }

    /// A `SELECT` can be run: it asks for a column, or it selects nothing.
    pub open spec fn can_select(&self, query: SelectView) -> bool {
        match table_index(self.names(), query.table) {
            None => true,
            Some(t) => query.columns.len() >= 1 || selected(self.table(t).rows(), query) is None,
        }
    }

    /// A `CREATE TABLE` can be run: no more than 254 columns come to be
    /// added, for the count of the columns is kept in a byte.
    pub open spec fn can_create(&self, query: CreateTableView) -> bool {
        query.columns.len() <= 254 || table_index(self.names(), query.table) is Some
            || has_id(query.columns, 255) is Err
    }

    /// A query can be run.
    pub open spec fn can_exec(&self, query: QueryView) -> bool {
        match query {
            QueryView::Select(q) => self.can_select(q),
            QueryView::CreateTable(q) => self.can_create(q),
            _ => true,
        }
    }

    /// A line can be run: it is a command to the program, or it has a
    /// token and, where it is a statement, its query can be run.
    pub open spec fn runs(&self, input: Seq<char>) -> bool {
        is_meta(input) || (lex(input, 0).len() > 0 && match statement(input) {
            Ok(query) => self.can_exec(query),
            Err(_) => true,
        })
    }

    /// `after` is this engine but for the table at `t`, whose columns it
    /// still has.
    pub open spec fn same_but(&self, after: &Self, t: int) -> bool {
        &&& after.names() == self.names()
        &&& after.shows_queries() == self.shows_queries()
        &&& forall|i: int| 0 <= i < self.names().len() && i != t ==> after.table(i) == self.table(i)
        &&& 0 <= t < self.names().len() ==> after.table(t).columns() == self.table(t).columns()
    }

    /// What an `INSERT` does to the engine: nothing where no table bears
    /// the name or the columns and values differ in number, and else what
    /// inserting the row does to the table.
    pub open spec fn insert_effect(&self, after: &Self, query: crate::parser::parser::InsertView, result: Result<
        (),
        Seq<char>,
    >) -> bool {
        match table_index(self.names(), query.table) {
            None => result == Err::<(), Seq<char>>("Table not found"@) && self.same_but(after, -1),
            Some(t) => self.same_but(after, t) && if query.columns.len() != query.values.len() {
                result == Err::<(), Seq<char>>("columns and values are not the same length"@)
                    && after.table(t).rows() == self.table(t).rows()
            } else {
                match insert_row_result(self.table(t).columns(), self.table(t).rows(), query.columns, query.values) {
                    Ok(rows) => result is Ok && after.table(t).rows() == rows,
                    Err(message) => result == Err::<(), Seq<char>>(message) && after.table(t).rows()
                        == self.table(
                        t,
                    ).rows(),
                }
            },
        }
    }

    /// What a `DELETE` does to the engine: nothing where no table bears
    /// the name, and else what deleting the row does to the table.
    pub open spec fn delete_effect(&self, after: &Self, query: DeleteView, result: Result<(), Seq<char>>) -> bool {
        match table_index(self.names(), query.table) {
            None => result == Err::<(), Seq<char>>("Table not found"@) && self.same_but(after, -1),
            Some(t) => self.same_but(after, t) && match delete_row_result(self.table(t).rows(), query) {
                Ok(rows) => result is Ok && after.table(t).rows() == rows,
                Err(message) => result == Err::<(), Seq<char>>(message) && after.table(t).rows()
                    == self.table(
                    t,
                ).rows(),
            },
        }
    }

    /// What a `CREATE TABLE` does to the engine: a new, empty table after
    /// the others, or nothing where the table is refused.
    pub open spec fn create_effect(&self, after: &Self, query: CreateTableView, result: Result<(), Seq<char>>) -> bool {
        &&& after.shows_queries() == self.shows_queries()
        &&& forall|i: int| 0 <= i < self.names().len() ==> after.table(i) == self.table(i)
        &&& match create_table_result(self.names(), query) {
            Ok(columns) => {
                &&& result is Ok
                &&& after.names() == self.names().push(query.table)
                &&& after.table(self.names().len() as int).columns() == columns
                &&& after.table(self.names().len() as int).rows().len() == 0
            },
            Err(message) => result == Err::<(), Seq<char>>(message) && after.names() == self.names(),
        }
    }

    /// What a `SELECT` answers: the rows selected from the table named, or
    /// a message where no table bears the name or nothing is selected.
    pub open spec fn select_answer(&self, query: SelectView, result: Result<
        Seq<Map<Seq<char>, Datum>>,
        Seq<char>,
    >) -> bool {
        match table_index(self.names(), query.table) {
            None => result == Err::<Seq<Map<Seq<char>, Datum>>, Seq<char>>("Table not found"@),
            Some(t) => match selected(self.table(t).rows(), query) {
                Some(rows) => result == Ok::<Seq<Map<Seq<char>, Datum>>, Seq<char>>(rows),
                None => result == Err::<Seq<Map<Seq<char>, Datum>>, Seq<char>>("None"@),
            },
        }
    }

    /// What running a query does to the engine and answers.
    pub open spec fn query_effect(&self, after: &Self, query: QueryView, result: Result<
        Seq<Map<Seq<char>, Datum>>,
        Seq<char>,
    >) -> bool {
        match query {
            QueryView::Insert(q) => self.insert_effect(after, q, no_rows(result))
                && (result matches Ok(rows) ==> rows.len() == 0),
            QueryView::Select(q) => *after == *self && self.select_answer(q, result),
            QueryView::Delete(q) => self.delete_effect(after, q, no_rows(result))
                && (result matches Ok(rows) ==> rows.len() == 0),
            QueryView::CreateTable(q) => self.create_effect(after, q, no_rows(result))
                && (result matches Ok(rows) ==> rows.len() == 0),
        }
    }

    /// An engine with the tables `users` and `dummy`, both empty.
    pub fn new() -> (db: Self)
        ensures
            db.wf(),
            !db.shows_queries(),
            db.names() == seq!["users"@, "dummy"@],
            db.table(0).rows().len() == 0,
            db.table(1).rows().len() == 0,
            db.table(0).columns() == seq![
                ColumnModel { name: "id"@, column_type: ColumnType::Int, order: 1 },
                ColumnModel { name: "username"@, column_type: ColumnType::String, order: 2 },
                ColumnModel { name: "email"@, column_type: ColumnType::String, order: 3 },
                ColumnModel { name: "otp"@, column_type: ColumnType::Int, order: 4 },
            ],
            db.table(1).columns() == seq![
                ColumnModel { name: "id"@, column_type: ColumnType::Int, order: 1 },
                ColumnModel { name: "username"@, column_type: ColumnType::String, order: 2 },
                ColumnModel { name: "email"@, column_type: ColumnType::String, order: 3 },
            ],
    {
        let mut tables: Vec<(String, Table)> = Vec::new();
        let mut user_table = Table::new();
        user_table.schema.add_column("id".to_string(), ColumnType::Int);
        user_table.schema.add_column("username".to_string(), ColumnType::String);
        user_table.schema.add_column("email".to_string(), ColumnType::String);
        user_table.schema.add_column("otp".to_string(), ColumnType::Int);
        let mut dummy_table = Table::new();
        dummy_table.schema.add_column("id".to_string(), ColumnType::Int);
        dummy_table.schema.add_column("username".to_string(), ColumnType::String);
        dummy_table.schema.add_column("email".to_string(), ColumnType::String);
        proof {
            assert(user_table.columns() =~= seq![
                ColumnModel { name: "id"@, column_type: ColumnType::Int, order: 1 },
                ColumnModel { name: "username"@, column_type: ColumnType::String, order: 2 },
                ColumnModel { name: "email"@, column_type: ColumnType::String, order: 3 },
                ColumnModel { name: "otp"@, column_type: ColumnType::Int, order: 4 },
            ]);
            assert(dummy_table.columns() =~= seq![
                ColumnModel { name: "id"@, column_type: ColumnType::Int, order: 1 },
                ColumnModel { name: "username"@, column_type: ColumnType::String, order: 2 },
                ColumnModel { name: "email"@, column_type: ColumnType::String, order: 3 },
            ]);
        }
        tables.push(("users".to_string(), user_table));
        tables.push(("dummy".to_string(), dummy_table));
        let debug = false;
        let db = Self { tables, debug };
        proof {
            assert(db.names() =~= seq!["users"@, "dummy"@]);
            reveal_strlit("users");
            reveal_strlit("dummy");
            assert("users"@[0] != "dummy"@[0]);
        }
        db
    }

    /// Switches the showing of parsed queries on or off.
    pub fn set_debug(&mut self, value: bool)
        ensures
            final(self).shows_queries() == value,
            final(self).names() == old(self).names(),
            forall|i: int| 0 <= i < old(self).names().len() ==> final(self).table(i) == old(self).table(i),
            old(self).wf() ==> final(self).wf(),
    {
        self.debug = value;
    }

    /// Whether parsed queries are to be shown.
    pub fn debug(&self) -> (on: bool)
        ensures
            on == self.shows_queries(),
    {
        self.debug
    }

    /// The tables with their names, in the order in which they were created.
    pub fn tables(&self) -> (tables: &Vec<(String, Table)>)
        ensures
            tables@.len() == self.names().len(),
            forall|i: int| 0 <= i < tables@.len() ==> (#[trigger] tables@[i]).0@ == self.names()[i]
                && tables@[i].1 == self.table(i),
    {
        &self.tables
    }

    /// The position of the first table named `name`, if any is.
    fn find_table(&self, name: &str) -> (at: Option<usize>)
        ensures
            match at {
                Some(i) => table_index(self.names(), name@) == Some(i as int) && i < self.tables@.len(),
                None => table_index(self.names(), name@) is None,
            },
    {
        let ghost all = self.names();
        let mut i: usize = 0;
        proof {
            assert(all.subrange(0, all.len() as int) =~= all);
        }
        while i < self.tables.len()
            invariant
                i <= self.tables@.len(),
                all == self.names(),
                index_of(all, name@) == match index_of(all.subrange(i as int, all.len() as int), name@) {
                    Some(k) => Some(k + i),
                    None => None,
                },
            decreases self.tables@.len() - i,
        {
            proof {
                let rest = all.subrange(i as int, all.len() as int);
                assert(rest[0] == self.tables@[i as int].0@);
                assert(rest.drop_first() =~= all.subrange(i + 1, all.len() as int));
            }
            if self.tables[i].0.as_str().eq(name) {
                return Some(i);
            }
            i += 1;
        }
        None
    }

    /// Inserts the row of an `INSERT` query into the table that it names.
    pub fn exec_insert(&mut self, query: InsertQuery) -> (result: Result<(), String>)
        requires
            old(self).wf(),
        ensures
            final(self).wf(),
            old(self).insert_effect(final(self), query@, done(result)),
    {
        let t = match self.find_table(query.table.as_str()) {
            Some(t) => t,
            None => {
                return Err("Table not found".to_string());
            },
        };
        if query.columns.len() != query.values.len() {
            return Err("columns and values are not the same length".to_string());
        }
        let result = self.tables[t].1.insert_row(query.columns, query.values);
        proof {
            assert(self.names() =~= old(self).names());
        }
        result
    }

    /// The rows that a `SELECT` query selects from the table that it names.
    pub fn exec_select(&self, query: SelectQuery) -> (result: Result<Vec<Row>, String>)
        requires
            self.wf(),
            self.can_select(query@),
        ensures
            self.select_answer(query@, answer(result)),
    {
        let t = match self.find_table(query.table.as_str()) {
            Some(t) => t,
            None => {
                return Err("Table not found".to_string());
            },
        };
        match self.tables[t].1.select_rows(&query) {
            Some(rows) => Ok(rows),
            None => Err("None".to_string()),
        }
    }

    /// Deletes the row that a `DELETE` query names from its table.
    pub fn exec_delete(&mut self, query: DeleteQuery) -> (result: Result<(), String>)
        requires
            old(self).wf(),
        ensures
            final(self).wf(),
            old(self).delete_effect(final(self), query@, done(result)),
    {
        let t = match self.find_table(query.table.as_str()) {
            Some(t) => t,
            None => {
                return Err("Table not found".to_string());
            },
        };
        let result = self.tables[t].1.delete_row(query);
        proof {
            assert(self.names() =~= old(self).names());
        }
        result
    }

    /// Creates the table of a `CREATE TABLE` query, empty, after those
    /// that are there.
    pub fn exec_create_table(&mut self, query: CreateTableQuery) -> (result: Result<(), String>)
        requires
            old(self).wf(),
            old(self).can_create(query@),
        ensures
            final(self).wf(),
            old(self).create_effect(final(self), query@, done(result)),
    {
        if self.find_table(query.table.as_str()).is_some() {
            let mut message = "A Table with name '".to_string();
            message.append(query.table.as_str());
            message.append("' exists");
            return Err(message);
        }
        let mut did_have_id = false;
        let mut new_table = Table::new();
        let ghost columns = column_views(query.columns@);
        let mut i: usize = 0;
        proof {
            assert(new_table.columns() =~= declared(columns).subrange(0, 0));
        }
        while i < query.columns.len()
            invariant
                i <= query.columns@.len(),
                i <= 254,
                columns == column_views(query.columns@),
                *self == *old(self),
                self.can_create(query@),
                self.wf(),
                table_index(self.names(), query.table@) is None,
                new_table.wf(),
                new_table.rows().len() == 0,
                new_table.columns() == declared(columns).subrange(0, i as int),
                has_id(columns, i as int) == Ok::<bool, Seq<char>>(did_have_id),
            decreases query.columns@.len() - i,
        {
            let col = &query.columns[i].0;
            let col_type = query.columns[i].1;
            proof {
                assert(columns[i as int] == crate::parser::parser::column_view(query.columns@[i as int]));
            }
            if col.as_str().eq("id") {
                if col_type != ColumnType::Int {
                    proof {
                        Self::lemma_id_failed(columns, i + 1, columns.len() as int);
                    }
                    return Err("Expected 'id' to be an int".to_string());
                } else {
                    did_have_id = true;
                }
            }
            proof {
                if i == 254 {
                    assert(has_id(columns, 255) is Ok);
                }
            }
            new_table.schema.add_column(col.clone(), col_type);
            proof {
                assert(new_table.columns() =~= declared(columns).subrange(0, i + 1));
            }
            i += 1;
        }
        proof {
            assert(declared(columns).subrange(0, columns.len() as int) =~= declared(columns));
        }
        if !did_have_id {
            return Err("Expected an 'id' column".to_string());
        }
        proof {
            lemma_index_of_none(self.names(), query.table@);
            assert forall|i: int| 0 <= i < self.tables@.len() implies (#[trigger] self.tables@[i]).0@
                != query.table@ by {
                assert(self.names()[i] == self.tables@[i].0@);
            }
        }
        self.tables.push((query.table, new_table));
        proof {
            assert(self.names() =~= old(self).names().push(query.table@));
        }
        Ok(())
    }

    /// Once an `id` column has failed, the columns have failed.
    proof fn lemma_id_failed(columns: Seq<ColumnView>, n: int, m: int)
        requires
            n <= m,
            has_id(columns, n) is Err,
        ensures
            has_id(columns, m) == has_id(columns, n),
        decreases m - n,
    {
        if n < m {
            Self::lemma_id_failed(columns, n, m - 1);
        }
    }

    /// Runs a query: the rows to show for a `SELECT`, and no rows for the
    /// others.
    pub fn exec(&mut self, query: Query) -> (result: Result<Vec<Row>, String>)
        requires
            old(self).wf(),
            old(self).can_exec(query@),
        ensures
            final(self).wf(),
            old(self).query_effect(final(self), query@, answer(result)),
    {
        match query {
            Query::Insert(query) => match self.exec_insert(query) {
                Ok(_) => {
                    let rows: Vec<Row> = Vec::new();
                    Ok(rows)
                },
                Err(message) => Err(message),
            },
            Query::Select(query) => self.exec_select(query),
            Query::Delete(query) => match self.exec_delete(query) {
                Ok(_) => {
                    let rows: Vec<Row> = Vec::new();
                    Ok(rows)
                },
                Err(message) => Err(message),
            },
            Query::CreateTable(query) => match self.exec_create_table(query) {
                Ok(_) => {
                    let rows: Vec<Row> = Vec::new();
                    Ok(rows)
                },
                Err(message) => Err(message),
            },
        }
    }

    /// What running a line does to the engine and answers: nothing and no
    /// rows for a command to the program, the message for a line that is
    /// no statement, and else what running the query does.
    pub open spec fn stmt_effect(&self, after: &Self, input: Seq<char>, result: Result<
        Seq<Map<Seq<char>, Datum>>,
        Seq<char>,
    >) -> bool {
        if is_meta(input) {
            *after == *self && result == Ok::<Seq<Map<Seq<char>, Datum>>, Seq<char>>(Seq::empty())
        } else {
            match statement(input) {
                Err(message) => *after == *self && result
                    == Err::<Seq<Map<Seq<char>, Datum>>, Seq<char>>(message),
                Ok(query) => self.query_effect(after, query, result),
            }
        }
    }

    /// Whether the line opens with a dot.
    pub fn opens_with_dot(input: &str) -> (meta: bool)
        ensures
            meta == is_meta(input@),
    {
        input.unicode_len() > 0 && input.get_char(0) == '.'
    }

    /// Runs one line: parses it as a statement and runs the query. A line
    /// that opens with a dot is left to the program.
    pub fn exec_stmt(&mut self, input: &str) -> (result: Result<Vec<Row>, String>)
        requires
            old(self).wf(),
            old(self).runs(input@),
        ensures
            final(self).wf(),
            old(self).stmt_effect(final(self), input@, answer(result)),
    {
        if Self::opens_with_dot(input) {
            let rows: Vec<Row> = Vec::new();
            proof {
                assert(row_maps(rows@) =~= Seq::empty());
            }
            Ok(rows)
        } else {
            let tokens = Lexer::new(input).tokenize();
            let mut parser = Parser::new(tokens);
            match parser.parse() {
                Ok(query) => self.exec(query),
                Err(message) => Err(message),
            }
        }
    }

    /// Whether the first `n` declared columns have an `id` column that is
    /// no number.
    fn id_fails(columns: &Vec<(String, ColumnType, Vec<Constraints>)>, n: usize) -> (fails: bool)
        requires
            n <= columns@.len(),
        ensures
            fails == has_id(column_views(columns@), n as int) is Err,
    {
        let mut i: usize = 0;
        while i < n
            invariant
                i <= n <= columns@.len(),
                has_id(column_views(columns@), i as int) is Ok,
            decreases n - i,
        {
            proof {
                assert(column_views(columns@)[i as int]
                    == crate::parser::parser::column_view(columns@[i as int]));
            }
            if columns[i].0.as_str().eq("id") && columns[i].1 != ColumnType::Int {
                proof {
                    Self::lemma_id_failed(column_views(columns@), i + 1, n as int);
                }
                return true;
            }
            i += 1;
        }
        false
    }

    /// Whether a query can be run.
    pub fn query_runs(&self, query: &Query) -> (can: bool)
        requires
            self.wf(),
        ensures
            can == self.can_exec(query@),
    {
        match query {
            Query::Select(q) => {
                if q.columns.len() >= 1 {
                    true
                } else {
                    match self.find_table(q.table.as_str()) {
                        None => true,
                        Some(t) => self.tables[t].1.selects_nothing(q),
                    }
                }
            },
            Query::CreateTable(q) => {
                proof {
                    assert(column_views(q.columns@).len() == q.columns@.len());
                }
                q.columns.len() <= 254 || self.find_table(q.table.as_str()).is_some() || Self::id_fails(
                    &q.columns,
                    255,
                )
            },
            _ => true,
        }
    }

    /// Runs one line, if it can be run; a line that cannot is left alone.
    pub fn try_exec_stmt(&mut self, input: &str) -> (result: Option<Result<Vec<Row>, String>>)
        requires
            old(self).wf(),
        ensures
            final(self).wf(),
            result is Some <==> old(self).runs(input@),
            match result {
                Some(outcome) => old(self).stmt_effect(final(self), input@, answer(outcome)),
                None => *final(self) == *old(self),
            },
    {
        if !Self::opens_with_dot(input) {
            let tokens = Lexer::new(input).tokenize();
            if tokens.len() == 0 {
                return None;
            }
            let mut parser = Parser::new(tokens);
            if let Ok(query) = parser.parse() {
                if !self.query_runs(&query) {
                    return None;
                }
            }
        }
        Some(self.exec_stmt(input))
    }
}

} // verus!
