//! The parser: a run of tokens as one typed query, by recursive descent.

use crate::engine::db::{ColumnType, Constraints};
use crate::engine::value::{display_int, int_display};
use crate::parser::lexer::{Keyword, Lexeme, lexemes, Token, uppercased};
use vstd::prelude::*;
use vstd::string::StringExecFns;

verus! {

/// A value in a statement: a name or text, or a number.
#[derive(Debug, Clone, PartialEq)]
pub enum Expr {
    Ident(String),
    Number(i64),
}

/// The condition of a statement: two values and the operator between them.
#[derive(Debug, Clone, PartialEq)]
pub struct WhereClause {
    pub left: Expr,
    pub operator: String,
    pub right: Expr,
}

/// `SELECT columns FROM table`, with an optional condition.
#[derive(Debug, Clone, PartialEq)]
pub struct SelectQuery {
    pub columns: Vec<String>,
    pub table: String,
    pub where_clause: Option<WhereClause>,
}

/// `DELETE FROM table`, with an optional condition.
#[derive(Debug, Clone, PartialEq)]
pub struct DeleteQuery {
    pub table: String,
    pub where_clause: Option<WhereClause>,
}

/// `INSERT INTO table (columns) VALUES (values)`.
#[derive(Debug, Clone, PartialEq)]
pub struct InsertQuery {
    pub columns: Vec<String>,
    pub table: String,
    pub values: Vec<Expr>,
}

/// `CREATE TABLE table (columns)`: each column with its name, its type
/// and its constraints.
#[derive(Debug, Clone, PartialEq)]
pub struct CreateTableQuery {
    pub table: String,
    pub columns: Vec<(String, ColumnType, Vec<Constraints>)>,
}

/// A statement, parsed.
#[derive(Debug, Clone, PartialEq)]
pub enum Query {
    Insert(InsertQuery),
    Select(SelectQuery),
    Delete(DeleteQuery),
    CreateTable(CreateTableQuery),
}

/// A value of a statement, with its text as a sequence of characters.
pub enum ExprView {
    Ident(Seq<char>),
    Number(i64),
}

/// A condition, with its texts as sequences of characters.
pub struct WhereView {
    pub left: ExprView,
    pub operator: Seq<char>,
    pub right: ExprView,
}

/// A `SELECT`, with its texts as sequences of characters.
pub struct SelectView {
    pub columns: Seq<Seq<char>>,
    pub table: Seq<char>,
    pub where_clause: Option<WhereView>,
}

/// A `DELETE`, with its texts as sequences of characters.
pub struct DeleteView {
    pub table: Seq<char>,
    pub where_clause: Option<WhereView>,
}

/// An `INSERT`, with its texts as sequences of characters.
pub struct InsertView {
    pub columns: Seq<Seq<char>>,
    pub table: Seq<char>,
    pub values: Seq<ExprView>,
}

/// A declared column, with its name as a sequence of characters.
pub struct ColumnView {
    pub name: Seq<char>,
    pub column_type: ColumnType,
    pub constraints: Seq<Constraints>,
}

/// A `CREATE TABLE`, with its texts as sequences of characters.
pub struct CreateTableView {
    pub table: Seq<char>,
    pub columns: Seq<ColumnView>,
}

/// A statement, with its texts as sequences of characters.
pub enum QueryView {
    Insert(InsertView),
    Select(SelectView),
    Delete(DeleteView),
    CreateTable(CreateTableView),
}

/// The texts of a run of strings.
pub open spec fn texts(strings: Seq<String>) -> Seq<Seq<char>> {
    strings.map_values(|s: String| s@)
}

/// The views of a run of values.
pub open spec fn expr_views(exprs: Seq<Expr>) -> Seq<ExprView> {
    exprs.map_values(|e: Expr| e@)
}

/// The view of a declared column.
pub open spec fn column_view(column: (String, ColumnType, Vec<Constraints>)) -> ColumnView {
    ColumnView { name: column.0@, column_type: column.1, constraints: column.2@ }
}

/// The views of a run of declared columns.
pub open spec fn column_views(columns: Seq<(String, ColumnType, Vec<Constraints>)>) -> Seq<ColumnView> {
    columns.map_values(|c: (String, ColumnType, Vec<Constraints>)| column_view(c))
}

/// The view of an optional condition.
pub open spec fn where_view(clause: Option<WhereClause>) -> Option<WhereView> {
    match clause {
        Some(c) => Some(c@),
        None => None,
    }
}

impl View for Expr {
    type V = ExprView;

    open spec fn view(&self) -> ExprView {
        match self {
            Expr::Ident(s) => ExprView::Ident(s@),
            Expr::Number(n) => ExprView::Number(*n),
        }
    }
}

impl View for WhereClause {
    type V = WhereView;

    open spec fn view(&self) -> WhereView {
        WhereView { left: self.left@, operator: self.operator@, right: self.right@ }
    }
}

impl View for SelectQuery {
    type V = SelectView;

    open spec fn view(&self) -> SelectView {
        SelectView {
            columns: texts(self.columns@),
            table: self.table@,
            where_clause: where_view(self.where_clause),
        }
    }
}

impl View for DeleteQuery {
    type V = DeleteView;

    open spec fn view(&self) -> DeleteView {
        DeleteView { table: self.table@, where_clause: where_view(self.where_clause) }
    }
}

impl View for InsertQuery {
    type V = InsertView;

    open spec fn view(&self) -> InsertView {
        InsertView { columns: texts(self.columns@), table: self.table@, values: expr_views(self.values@) }
    }
}

impl View for CreateTableQuery {
    type V = CreateTableView;

    open spec fn view(&self) -> CreateTableView {
        CreateTableView { table: self.table@, columns: column_views(self.columns@) }
    }
}

impl View for Query {
    type V = QueryView;

    open spec fn view(&self) -> QueryView {
        match self {
            Query::Insert(q) => QueryView::Insert(q@),
            Query::Select(q) => QueryView::Select(q@),
            Query::Delete(q) => QueryView::Delete(q@),
            Query::CreateTable(q) => QueryView::CreateTable(q@),
        }
    }
}

/// How the `Debug` form of a text reads: the text between double quotes,
/// with the characters that need it escaped.
pub uninterp spec fn text_debug(text: Seq<char>) -> Seq<char>;

/// The `Debug` form of a text, as `format!` renders it with `{:?}`: it
/// depends on the text alone and is named `text_debug`.
#[verifier::external_body]
pub(crate) fn debug_text(text: &str) -> (form: String)
    ensures
        form@ == text_debug(text@),
{
    format!("{:?}", text)
}

/// A name and, between brackets, what stands under it.
pub open spec fn in_brackets(name: Seq<char>, inner: Seq<char>) -> Seq<char> {
    name + "("@ + inner + ")"@
}

/// How the `Debug` form of a token reads: the name of its kind, and
/// between brackets what it holds, if it holds anything.
pub open spec fn token_debug(token: Lexeme) -> Seq<char> {
    match token {
        Lexeme::Ident(text) => in_brackets("Ident"@, text_debug(text)),
        Lexeme::Keyword(keyword) => in_brackets("Keyword"@, keyword_name(keyword)),
        Lexeme::Operator(text) => in_brackets("Operator"@, text_debug(text)),
        Lexeme::Number(n) => in_brackets("Number"@, int_display(n as int)),
        Lexeme::StringLiteral(text) => in_brackets("StringLiteral"@, text_debug(text)),
        Lexeme::Comma => "Comma"@,
        Lexeme::Semicolon => "Semicolon"@,
        Lexeme::LParen => "LParen"@,
        Lexeme::RParen => "RParen"@,
        Lexeme::Whitespace => "Whitespace"@,
        Lexeme::EOF => "EOF"@,
    }
}

/// What stands between brackets after the name `name`.
fn bracketed(name: &str, inner: &str) -> (text: String)
    ensures
        text@ == in_brackets(name@, inner@),
{
    let mut text = name.to_string();
    text.append("(");
    text.append(inner);
    text.append(")");
    text
}

/// The `Debug` form of a token.
pub fn debug_token(token: &Token) -> (text: String)
    ensures
        text@ == token_debug(token@),
{
    match token {
        Token::Ident(s) => bracketed("Ident", debug_text(s.as_str()).as_str()),
        Token::Keyword(keyword) => bracketed("Keyword", keyword_text(*keyword)),
        Token::Operator(s) => bracketed("Operator", debug_text(s.as_str()).as_str()),
        Token::Number(n) => bracketed("Number", display_int(*n).as_str()),
        Token::StringLiteral(s) => bracketed("StringLiteral", debug_text(s.as_str()).as_str()),
        Token::Comma => "Comma".to_string(),
        Token::Semicolon => "Semicolon".to_string(),
        Token::LParen => "LParen".to_string(),
        Token::RParen => "RParen".to_string(),
        Token::Whitespace => "Whitespace".to_string(),
        Token::EOF => "EOF".to_string(),
    }
}

/// How the `Debug` form of a value of a statement reads.
pub open spec fn expr_debug(value: ExprView) -> Seq<char> {
    match value {
        ExprView::Ident(text) => in_brackets("Ident"@, text_debug(text)),
        ExprView::Number(n) => in_brackets("Number"@, int_display(n as int)),
    }
}

/// The `Debug` form of a value of a statement.
pub fn debug_expr(value: &Expr) -> (text: String)
    ensures
        text@ == expr_debug(value@),
{
    match value {
        Expr::Ident(s) => bracketed("Ident", debug_text(s.as_str()).as_str()),
        Expr::Number(n) => bracketed("Number", display_int(*n).as_str()),
    }
}

/// The name of a keyword, as its `Debug` form reads.
pub open spec fn keyword_name(keyword: Keyword) -> Seq<char> {
    match keyword {
        Keyword::Select => "Select"@,
        Keyword::From => "From"@,
        Keyword::Where => "Where"@,
        Keyword::Insert => "Insert"@,
        Keyword::Table => "Table"@,
        Keyword::Into => "Into"@,
        Keyword::Values => "Values"@,
        Keyword::Update => "Update"@,
        Keyword::Create => "Create"@,
        Keyword::SetTo => "SetTo"@,
        Keyword::Delete => "Delete"@,
        Keyword::And => "And"@,
        Keyword::Or => "Or"@,
        Keyword::Not => "Not"@,
        Keyword::In => "In"@,
        Keyword::Like => "Like"@,
        Keyword::Join => "Join"@,
        Keyword::On => "On"@,
        Keyword::As => "As"@,
        Keyword::GroupBy => "GroupBy"@,
        Keyword::OrderBy => "OrderBy"@,
        Keyword::Limit => "Limit"@,
    }
}

/// The name of a keyword.
pub fn keyword_text(keyword: Keyword) -> (name: &'static str)
    ensures
        name@ == keyword_name(keyword),
{
    match keyword {
        Keyword::Select => "Select",
        Keyword::From => "From",
        Keyword::Where => "Where",
        Keyword::Insert => "Insert",
        Keyword::Table => "Table",
        Keyword::Into => "Into",
        Keyword::Values => "Values",
        Keyword::Update => "Update",
        Keyword::Create => "Create",
        Keyword::SetTo => "SetTo",
        Keyword::Delete => "Delete",
        Keyword::And => "And",
        Keyword::Or => "Or",
        Keyword::Not => "Not",
        Keyword::In => "In",
        Keyword::Like => "Like",
        Keyword::Join => "Join",
        Keyword::On => "On",
        Keyword::As => "As",
        Keyword::GroupBy => "GroupBy",
        Keyword::OrderBy => "OrderBy",
        Keyword::Limit => "Limit",
    }
}

/// How a token that may be missing reads in a message.
pub open spec fn found_text(found: Option<Lexeme>) -> Seq<char> {
    match found {
        Some(token) => "Some("@ + token_debug(token) + ")"@,
        None => "None"@,
    }
}

/// The message for a token that was expected and not found.
pub open spec fn expected_message(expected: Seq<char>, found: Seq<char>) -> Seq<char> {
    "Expected "@ + expected + ", but found "@ + found
}

/// What one step of the parser yields: its result or the message of its
/// failure, and the position at which it leaves the parser.
pub struct Step<T> {
    pub out: Result<T, Seq<char>>,
    pub at: int,
}

/// The token at `pos`, if there is one.
pub open spec fn token_in(tokens: Seq<Lexeme>, pos: int) -> Option<Lexeme> {
    if 0 <= pos < tokens.len() {
        Some(tokens[pos])
    } else {
        None
    }
}

/// Passing over the token `expected`.
pub open spec fn token_step(tokens: Seq<Lexeme>, pos: int, expected: Lexeme) -> Step<()> {
    match token_in(tokens, pos) {
        Some(found) => if found == expected {
            Step { out: Ok(()), at: pos + 1 }
        } else {
            Step { out: Err(expected_message(token_debug(expected), token_debug(found))), at: pos }
        },
        None => Step { out: Err(expected_message(token_debug(expected), "None"@)), at: pos },
    }
}

/// Passing over the keyword `expected`.
pub open spec fn keyword_step(tokens: Seq<Lexeme>, pos: int, expected: Keyword) -> Step<()> {
    match token_in(tokens, pos) {
        Some(Lexeme::Keyword(found)) => if found == expected {
            Step { out: Ok(()), at: pos + 1 }
        } else {
            Step { out: Err(expected_message(keyword_name(expected), keyword_name(found))), at: pos }
        },
        other => Step { out: Err(expected_message(keyword_name(expected), found_text(other))), at: pos },
    }
}

/// Reading an identifier.
pub open spec fn identifier_step(tokens: Seq<Lexeme>, pos: int) -> Step<Seq<char>> {
    match token_in(tokens, pos) {
        Some(Lexeme::Ident(name)) => Step { out: Ok(name), at: pos + 1 },
        other => Step { out: Err("Expected identifier, but found "@ + found_text(other)), at: pos },
    }
}

/// Reading a value.
pub open spec fn expr_step(tokens: Seq<Lexeme>, pos: int) -> Step<ExprView> {
    match token_in(tokens, pos) {
        Some(Lexeme::Ident(name)) => Step { out: Ok(ExprView::Ident(name)), at: pos + 1 },
        Some(Lexeme::Number(n)) => Step { out: Ok(ExprView::Number(n)), at: pos + 1 },
        other => Step { out: Err("Expected expression, but found "@ + found_text(other)), at: pos },
    }
}

/// Reading identifiers parted by commas, at least one.
pub open spec fn identifiers_step(tokens: Seq<Lexeme>, pos: int) -> Step<Seq<Seq<char>>>
    decreases tokens.len() - pos,
{
    let first = identifier_step(tokens, pos);
    match first.out {
        Err(message) => Step { out: Err(message), at: first.at },
        Ok(name) => if token_in(tokens, first.at) == Some(Lexeme::Comma) && pos >= 0 {
            let rest = identifiers_step(tokens, first.at + 1);
            match rest.out {
                Err(message) => Step { out: Err(message), at: rest.at },
                Ok(names) => Step { out: Ok(seq![name] + names), at: rest.at },
            }
        } else {
            Step { out: Ok(seq![name]), at: first.at }
        },
    }
}

/// Reading values parted by commas, at least one.
pub open spec fn exprs_step(tokens: Seq<Lexeme>, pos: int) -> Step<Seq<ExprView>>
    decreases tokens.len() - pos,
{
    let first = expr_step(tokens, pos);
    match first.out {
        Err(message) => Step { out: Err(message), at: first.at },
        Ok(value) => if token_in(tokens, first.at) == Some(Lexeme::Comma) && pos >= 0 {
            let rest = exprs_step(tokens, first.at + 1);
            match rest.out {
                Err(message) => Step { out: Err(message), at: rest.at },
                Ok(values) => Step { out: Ok(seq![value] + values), at: rest.at },
            }
        } else {
            Step { out: Ok(seq![value]), at: first.at }
        },
    }
}

/// Carrying on after a step without a value: with `next` from where the
/// step ended, or with the step's failure.
pub open spec fn after<T>(step: Step<()>, next: spec_fn(int) -> Step<T>) -> Step<T> {
    match step.out {
        Ok(_) => next(step.at),
        Err(message) => Step { out: Err(message), at: step.at },
    }
}

/// Carrying on after a step with a value.
pub open spec fn after_value<A, T>(step: Step<A>, next: spec_fn(A, int) -> Step<T>) -> Step<T> {
    match step.out {
        Ok(value) => next(value, step.at),
        Err(message) => Step { out: Err(message), at: step.at },
    }
}

/// Reading `INSERT INTO table (columns) VALUES (values);`.
pub open spec fn insert_step(tokens: Seq<Lexeme>, pos: int) -> Step<InsertView> {
    after(keyword_step(tokens, pos, Keyword::Insert), |pos1: int|
        after(keyword_step(tokens, pos1, Keyword::Into), |pos2: int|
            after_value(identifier_step(tokens, pos2), |table: Seq<char>, pos3: int|
                after(token_step(tokens, pos3, Lexeme::LParen), |pos4: int|
                    after_value(identifiers_step(tokens, pos4), |columns: Seq<Seq<char>>, pos5: int|
                        after(token_step(tokens, pos5, Lexeme::RParen), |pos6: int|
                            after(keyword_step(tokens, pos6, Keyword::Values), |pos7: int|
                                after(token_step(tokens, pos7, Lexeme::LParen), |pos8: int|
                                    after_value(exprs_step(tokens, pos8), |values: Seq<ExprView>, pos9: int|
                                        after(token_step(tokens, pos9, Lexeme::RParen), |pos10: int|
                                            after(token_step(tokens, pos10, Lexeme::Semicolon), |pos11: int|
                                                Step {
                                                    out: Ok(InsertView { columns, table, values }),
                                                    at: pos11,
                                                })))))))))))
}

/// A step that yields `front` and then what `step` yields.
pub open spec fn prepended<T>(front: Seq<T>, step: Step<Seq<T>>) -> Step<Seq<T>> {
    match step.out {
        Ok(items) => Step { out: Ok(front + items), at: step.at },
        Err(message) => Step { out: Err(message), at: step.at },
    }
}

/// The column type that a word names, given its uppercase form.
pub open spec fn column_type_named(upper: Seq<char>, word: Seq<char>) -> Result<ColumnType, Seq<char>> {
    if upper == "INT"@ {
        Ok(ColumnType::Int)
    } else if upper == "TEXT"@ {
        Ok(ColumnType::String)
    } else {
        Err("Invalid Column type , got "@ + word)
    }
}

/// The constraint that a word names, given its uppercase form.
pub open spec fn constraint_named(upper: Seq<char>, word: Seq<char>) -> Result<Constraints, Seq<char>> {
    if upper == "NOTNULL"@ {
        Ok(Constraints::NotNull)
    } else if upper == "NULL"@ {
        Ok(Constraints::Null)
    } else {
        Err("Invalid constraint got "@ + word)
    }
}

/// Reading the constraints of one column: words up to a comma or a
/// closing bracket, or up to the word before a closing bracket.
pub open spec fn constraints_step(tokens: Seq<Lexeme>, pos: int) -> Step<Seq<Constraints>>
    decreases tokens.len() - pos,
{
    if token_in(tokens, pos) == Some(Lexeme::Comma) || token_in(tokens, pos) == Some(Lexeme::RParen)
        || token_in(
        tokens,
        pos + 1,
    ) == Some(Lexeme::RParen) {
        Step { out: Ok(Seq::empty()), at: pos }
    } else {
        let word = identifier_step(tokens, pos);
        match word.out {
            Err(message) => Step { out: Err(message), at: word.at },
            Ok(text) => match constraint_named(uppercased(text), text) {
                Err(message) => Step { out: Err(message), at: word.at },
                Ok(constraint) => prepended(seq![constraint], constraints_step(tokens, pos + 1)),
            },
        }
    }
}

/// Reading one column: its name, its type and its constraints.
pub open spec fn column_step(tokens: Seq<Lexeme>, pos: int) -> Step<ColumnView> {
    after_value(
        identifier_step(tokens, pos),
        |name: Seq<char>, pos1: int|
            after_value(
                identifier_step(tokens, pos1),
                |word: Seq<char>, pos2: int|
                    match column_type_named(uppercased(word), word) {
                        Err(message) => Step { out: Err(message), at: pos2 },
                        Ok(column_type) => after_value(
                            constraints_step(tokens, pos2),
                            |constraints: Seq<Constraints>, pos3: int|
                                Step { out: Ok(ColumnView { name, column_type, constraints }), at: pos3 },
                        ),
                    },
            ),
    )
}

/// Reading columns parted by commas, at least one; a comma right before
/// a closing bracket ends the columns and is left standing.
pub open spec fn columns_step(tokens: Seq<Lexeme>, pos: int) -> Step<Seq<ColumnView>>
    decreases tokens.len() - pos,
{
    let first = column_step(tokens, pos);
    match first.out {
        Err(message) => Step { out: Err(message), at: first.at },
        Ok(column) => if token_in(tokens, first.at) == Some(Lexeme::Comma)
            && token_in(tokens, first.at + 1) != Some(
            Lexeme::RParen,
        ) && first.at >= pos {
            prepended(seq![column], columns_step(tokens, first.at + 1))
        } else {
            Step { out: Ok(seq![column]), at: first.at }
        },
    }
}

/// Reading `CREATE TABLE table (columns);`.
pub open spec fn create_table_step(tokens: Seq<Lexeme>, pos: int) -> Step<CreateTableView> {
    after(
        keyword_step(tokens, pos, Keyword::Create),
        |pos1: int|
            after(
                keyword_step(tokens, pos1, Keyword::Table),
                |pos2: int|
                    after_value(
                        identifier_step(tokens, pos2),
                        |table: Seq<char>, pos3: int|
                            after(
                                token_step(tokens, pos3, Lexeme::LParen),
                                |pos4: int|
                                    after_value(
                                        columns_step(tokens, pos4),
                                        |columns: Seq<ColumnView>, pos5: int|
                                            after(
                                                token_step(tokens, pos5, Lexeme::RParen),
                                                |pos6: int|
                                                    after(
                                                        token_step(tokens, pos6, Lexeme::Semicolon),
                                                        |pos7: int|
                                                            Step {
                                                                out: Ok(CreateTableView { table, columns }),
                                                                at: pos7,
                                                            },
                                                    ),
                                            ),
                                    ),
                            ),
                    ),
            ),
    )
}

/// Reading an optional condition `WHERE left = right`: the condition, if
/// all of it is there, and where the reading stopped.
pub open spec fn where_step(tokens: Seq<Lexeme>, pos: int) -> (Option<WhereView>, int) {
    let keyword = keyword_step(tokens, pos, Keyword::Where);
    if keyword.out is Err {
        (None, keyword.at)
    } else {
        let left = expr_step(tokens, keyword.at);
        if left.out is Err {
            (None, left.at)
        } else {
            let operator = token_step(tokens, left.at, Lexeme::Operator("="@));
            if operator.out is Err {
                (None, operator.at)
            } else {
                let right = expr_step(tokens, operator.at);
                if right.out is Err {
                    (None, right.at)
                } else {
                    (
                        Some(
                            WhereView { left: left.out->Ok_0, operator: "="@, right: right.out->Ok_0 },
                        ),
                        right.at,
                    )
                }
            }
        }
    }
}

/// Reading `DELETE FROM table` and an optional condition.
pub open spec fn delete_step(tokens: Seq<Lexeme>, pos: int) -> Step<DeleteView> {
    after(
        keyword_step(tokens, pos, Keyword::Delete),
        |pos1: int|
            after(
                keyword_step(tokens, pos1, Keyword::From),
                |pos2: int|
                    after_value(
                        identifier_step(tokens, pos2),
                        |table: Seq<char>, pos3: int|
                            Step {
                                out: Ok(DeleteView { table, where_clause: where_step(tokens, pos3).0 }),
                                at: where_step(tokens, pos3).1,
                            },
                    ),
            ),
    )
}

/// Reading `SELECT columns FROM table`, an optional condition and an
/// optional semicolon.
pub open spec fn select_step(tokens: Seq<Lexeme>, pos: int) -> Step<SelectView> {
    after(
        keyword_step(tokens, pos, Keyword::Select),
        |pos1: int|
            after_value(
                identifiers_step(tokens, pos1),
                |columns: Seq<Seq<char>>, pos2: int|
                    after(
                        keyword_step(tokens, pos2, Keyword::From),
                        |pos3: int|
                            after_value(
                                identifier_step(tokens, pos3),
                                |table: Seq<char>, pos4: int|
                                    {
                                        let end = where_step(tokens, pos4).1;
                                        Step {
                                            out: Ok(
                                                SelectView { columns, table, where_clause: where_step(tokens, pos4).0 },
                                            ),
                                            at: if token_in(tokens, end) == Some(Lexeme::Semicolon) {
                                                end + 1
                                            } else {
                                                end
                                            },
                                        }
                                    },
                            ),
                    ),
            ),
    )
}

/// The step of one kind of query, as a step that yields a query.
pub open spec fn as_query<T>(step: Step<T>, wrap: spec_fn(T) -> QueryView) -> Step<QueryView> {
    match step.out {
        Ok(value) => Step { out: Ok(wrap(value)), at: step.at },
        Err(message) => Step { out: Err(message), at: step.at },
    }
}

/// Reading one query, of the kind that the first of all tokens opens.
pub open spec fn query_step(tokens: Seq<Lexeme>, pos: int) -> Step<QueryView> {
    match tokens[0] {
        Lexeme::Keyword(Keyword::Select) => as_query(select_step(tokens, pos), |q: SelectView| QueryView::Select(q)),
        Lexeme::Keyword(Keyword::Insert) => as_query(insert_step(tokens, pos), |q: InsertView| QueryView::Insert(q)),
        Lexeme::Keyword(Keyword::Delete) => as_query(delete_step(tokens, pos), |q: DeleteView| QueryView::Delete(q)),
        Lexeme::Keyword(Keyword::Create) => as_query(
            create_table_step(tokens, pos),
            |q: CreateTableView| QueryView::CreateTable(q),
        ),
        other => Step { out: Err("Invalid Query got "@ + found_text(Some(other))), at: pos },
    }
}

/// A step leaves the parser at or after where it started, within the tokens.
pub open spec fn moves_on<T>(tokens: Seq<Lexeme>, pos: int, step: Step<T>) -> bool {
    pos <= step.at <= tokens.len()
}

/// Reading constraints leaves the parser at or after where it started.
pub proof fn lemma_constraints_move_on(tokens: Seq<Lexeme>, pos: int)
    requires
        0 <= pos <= tokens.len(),
    ensures
        moves_on(tokens, pos, constraints_step(tokens, pos)),
    decreases tokens.len() - pos,
{
    if !(token_in(tokens, pos) == Some(Lexeme::Comma) || token_in(tokens, pos) == Some(Lexeme::RParen)
        || token_in(
        tokens,
        pos + 1,
    ) == Some(Lexeme::RParen)) {
        let word = identifier_step(tokens, pos);
        if let Ok(text) = word.out {
            if constraint_named(uppercased(text), text) is Ok {
                lemma_constraints_move_on(tokens, pos + 1);
            }
        }
    }
}

/// Reading a column leaves the parser at or after where it started.
pub proof fn lemma_column_moves_on(tokens: Seq<Lexeme>, pos: int)
    requires
        0 <= pos <= tokens.len(),
    ensures
        moves_on(tokens, pos, column_step(tokens, pos)),
{
    let name = identifier_step(tokens, pos);
    if name.out is Ok {
        let word = identifier_step(tokens, name.at);
        if word.out is Ok {
            lemma_constraints_move_on(tokens, word.at);
        }
    }
}

/// Reads one query from a run of tokens.
pub struct Parser {
    tokens: Vec<Token>,
    position: usize,
}

impl Parser {
    /// The tokens that the parser reads.
    pub closed spec fn input(&self) -> Seq<Lexeme> {
        lexemes(self.tokens@)
    }

    /// How many tokens the parser has passed.
    pub closed spec fn at(&self) -> int {
        self.position as int
    }

    /// The parser has not run past the end of its tokens.
    pub closed spec fn wf(&self) -> bool {
        self.position <= self.tokens@.len()
    }

    /// A parser at the start of `tokens`.
    pub fn new(tokens: Vec<Token>) -> (parser: Self)
        ensures
            parser.wf(),
            parser.input() == lexemes(tokens@),
            parser.at() == 0,
    {
        Self { tokens, position: 0 }
    }

    /// The token at the parser's position, if any is left.
    fn current_token(&self) -> (token: Option<&Token>)
        requires
            self.wf(),
        ensures
            match token {
                Some(t) => token_in(self.input(), self.at()) == Some(t@),
                None => token_in(self.input(), self.at()) is None,
            },
            token is Some <==> self.position < self.tokens@.len(),
    {
        if self.position < self.tokens.len() {
            Some(&self.tokens[self.position])
        } else {
            None
        }
    }

    /// The token after the one at the parser's position, if there is one.
    fn peek_token(&self) -> (token: Option<&Token>)
        requires
            self.wf(),
        ensures
            match token {
                Some(t) => token_in(self.input(), self.at() + 1) == Some(t@),
                None => token_in(self.input(), self.at() + 1) is None,
            },
    {
        if self.position < self.tokens.len() && self.position + 1 < self.tokens.len() {
            Some(&self.tokens[self.position + 1])
        } else {
            None
        }
    }

    /// Moves past the token at the parser's position.
    fn advance(&mut self)
        requires
            old(self).position < old(self).tokens@.len(),
        ensures
            final(self).wf(),
            final(self).input() == old(self).input(),
            final(self).at() == old(self).at() + 1,
    {
        assert(self.position < self.tokens.len());
        self.position += 1;
    }

    /// How a token that may be missing reads in a message.
    fn found(token: Option<&Token>) -> (text: String)
        ensures
            text@ == found_text(
                match token {
                    Some(t) => Some(t@),
                    None => None,
                },
            ),
    {
        match token {
            Some(t) => {
                let mut text = "Some(".to_string();
                let inner = debug_token(t);
                text.append(inner.as_str());
                text.append(")");
                text
            },
            None => "None".to_string(),
        }
    }

    /// The message for something expected and something else found.
    fn expected(expected: &str, found: &str) -> (text: String)
        ensures
            text@ == expected_message(expected@, found@),
    {
        let mut text = "Expected ".to_string();
        text.append(expected);
        text.append(", but found ");
        text.append(found);
        text
    }

    /// Whether the token after the one at the parser's position is `token`.
    fn expect_peek_token(&mut self, token: Token) -> (result: Result<(), String>)
        requires
            old(self).wf(),
        ensures
            *final(self) == *old(self),
            match result {
                Ok(_) => token_in(old(self).input(), old(self).at() + 1) == Some(token@),
                Err(message) => match token_in(old(self).input(), old(self).at() + 1) {
                    Some(found) => found != token@ && message@ == expected_message(
                        token_debug(token@),
                        token_debug(found),
                    ),
                    None => message@ == expected_message(
                        token_debug(token@),
                        found_text(token_in(old(self).input(), old(self).at())),
                    ),
                },
            },
    {
        if let Some(curr_token) = self.peek_token() {
            if *curr_token == token {
                Ok(())
            } else {
                let expected = debug_token(&token);
                let found = debug_token(curr_token);
                Err(Self::expected(expected.as_str(), found.as_str()))
            }
        } else {
            let expected = debug_token(&token);
            let found = Self::found(self.current_token());
            Err(Self::expected(expected.as_str(), found.as_str()))
        }
    }

    /// Passes over `token`, or fails where another token or none stands.
    fn expect_token(&mut self, token: Token) -> (result: Result<(), String>)
        requires
            old(self).wf(),
        ensures
            final(self).wf(),
            final(self).input() == old(self).input(),
            final(self).at() == token_step(old(self).input(), old(self).at(), token@).at,
            match result {
                Ok(_) => token_step(old(self).input(), old(self).at(), token@).out is Ok,
                Err(message) => token_step(old(self).input(), old(self).at(), token@).out
                    == Err::<(), Seq<char>>(
                    message@,
                ),
            },
    {
        if let Some(curr_token) = self.current_token() {
            if *curr_token == token {
                self.advance();
                Ok(())
            } else {
                let expected = debug_token(&token);
                let found = debug_token(curr_token);
                Err(Self::expected(expected.as_str(), found.as_str()))
            }
        } else {
            let expected = debug_token(&token);
            let found = Self::found(self.current_token());
            Err(Self::expected(expected.as_str(), found.as_str()))
        }
    }

    /// Passes over `keyword`, or fails where another token or none stands.
    fn expect_keyword(&mut self, keyword: Keyword) -> (result: Result<(), String>)
        requires
            old(self).wf(),
        ensures
            final(self).wf(),
            final(self).input() == old(self).input(),
            final(self).at() == keyword_step(old(self).input(), old(self).at(), keyword).at,
            match result {
                Ok(_) => keyword_step(old(self).input(), old(self).at(), keyword).out is Ok,
                Err(message) => keyword_step(old(self).input(), old(self).at(), keyword).out == Err::<
                    (),
                    Seq<char>,
                >(message@),
            },
    {
        if let Some(Token::Keyword(kw)) = self.current_token() {
            if *kw == keyword {
                self.advance();
                Ok(())
            } else {
                Err(Self::expected(keyword_text(keyword), keyword_text(*kw)))
            }
        } else {
            let found = Self::found(self.current_token());
            Err(Self::expected(keyword_text(keyword), found.as_str()))
        }
    }

    /// Reads an identifier, or fails where another token or none stands.
    fn expect_identifier(&mut self) -> (result: Result<String, String>)
        requires
            old(self).wf(),
        ensures
            final(self).wf(),
            final(self).input() == old(self).input(),
            final(self).at() == identifier_step(old(self).input(), old(self).at()).at,
            match result {
                Ok(name) => identifier_step(old(self).input(), old(self).at()).out
                    == Ok::<Seq<char>, Seq<char>>(
                    name@,
                ),
                Err(message) => identifier_step(old(self).input(), old(self).at()).out == Err::<
                    Seq<char>,
                    Seq<char>,
                >(message@),
            },
    {
        if let Some(Token::Ident(id)) = self.current_token() {
            let identifier = id.clone();
            self.advance();
            Ok(identifier)
        } else {
            let mut message = "Expected identifier, but found ".to_string();
            let found = Self::found(self.current_token());
            message.append(found.as_str());
            Err(message)
        }
    }

    /// Reads a value: an identifier or a number.
    fn parse_expr(&mut self) -> (result: Result<Expr, String>)
        requires
            old(self).wf(),
        ensures
            final(self).wf(),
            final(self).input() == old(self).input(),
            final(self).at() == expr_step(old(self).input(), old(self).at()).at,
            match result {
                Ok(value) => expr_step(old(self).input(), old(self).at()).out
                    == Ok::<ExprView, Seq<char>>(value@),
                Err(message) => expr_step(old(self).input(), old(self).at()).out
                    == Err::<ExprView, Seq<char>>(
                    message@,
                ),
            },
    {
        match self.current_token() {
            Some(Token::Ident(id)) => {
                let name = id.clone();
                self.advance();
                Ok(Expr::Ident(name))
            },
            Some(Token::Number(num)) => {
                let n = *num;
                self.advance();
                Ok(Expr::Number(n))
            },
            _ => {
                let mut message = "Expected expression, but found ".to_string();
                let found = Self::found(self.current_token());
                message.append(found.as_str());
                Err(message)
            },
        }
    }

    /// Reads identifiers parted by commas, at least one.
    fn parse_identifiers(&mut self) -> (result: Result<Vec<String>, String>)
        requires
            old(self).wf(),
        ensures
            final(self).wf(),
            final(self).input() == old(self).input(),
            final(self).at() == identifiers_step(old(self).input(), old(self).at()).at,
            match result {
                Ok(names) => identifiers_step(old(self).input(), old(self).at()).out == Ok::<
                    Seq<Seq<char>>,
                    Seq<char>,
                >(texts(names@)),
                Err(message) => identifiers_step(old(self).input(), old(self).at()).out == Err::<
                    Seq<Seq<char>>,
                    Seq<char>,
                >(message@),
            },
    {
        let mut names: Vec<String> = Vec::new();
        let ghost start = self.at();
        let ghost tokens = self.input();
        proof {
            assert(texts(names@) =~= Seq::<Seq<char>>::empty());
            assert(prepended(texts(names@), identifiers_step(tokens, start))
                == identifiers_step(tokens, start)) by {
                let step = identifiers_step(tokens, start);
                if let Ok(items) = step.out {
                    assert(texts(names@) + items =~= items);
                }
            }
        }
        loop
            invariant
                self.wf(),
                self.input() == tokens,
                tokens == old(self).input(),
                start == old(self).at(),
                prepended(texts(names@), identifiers_step(tokens, self.at()))
                    == identifiers_step(tokens, start),
            decreases tokens.len() - self.at(),
        {
            let ghost here = self.at();
            let ghost before = names@;
            match self.expect_identifier() {
                Ok(name) => {
                    names.push(name);
                },
                Err(message) => {
                    return Err(message);
                },
            }
            proof {
                assert(texts(names@) =~= texts(before) + seq![names@.last()@]);
            }
            if let Some(Token::Comma) = self.current_token() {
                self.advance();
                proof {
                    let rest = identifiers_step(tokens, here + 2);
                    if let Ok(items) = rest.out {
                        assert(texts(names@) + items =~= texts(before) + (seq![names@.last()@] + items));
                    }
                }
            } else {
                return Ok(names);
            }
        }
    }

    /// Reads values parted by commas, at least one.
    fn parse_exprs(&mut self) -> (result: Result<Vec<Expr>, String>)
        requires
            old(self).wf(),
        ensures
            final(self).wf(),
            final(self).input() == old(self).input(),
            final(self).at() == exprs_step(old(self).input(), old(self).at()).at,
            match result {
                Ok(values) => exprs_step(old(self).input(), old(self).at()).out
                    == Ok::<Seq<ExprView>, Seq<char>>(
                    expr_views(values@),
                ),
                Err(message) => exprs_step(old(self).input(), old(self).at()).out == Err::<
                    Seq<ExprView>,
                    Seq<char>,
                >(message@),
            },
    {
        let mut values: Vec<Expr> = Vec::new();
        let ghost start = self.at();
        let ghost tokens = self.input();
        proof {
            assert(expr_views(values@) =~= Seq::<ExprView>::empty());
            assert(prepended(expr_views(values@), exprs_step(tokens, start))
                == exprs_step(tokens, start)) by {
                let step = exprs_step(tokens, start);
                if let Ok(items) = step.out {
                    assert(expr_views(values@) + items =~= items);
                }
            }
        }
        loop
            invariant
                self.wf(),
                self.input() == tokens,
                tokens == old(self).input(),
                start == old(self).at(),
                prepended(expr_views(values@), exprs_step(tokens, self.at())) == exprs_step(tokens, start),
            decreases tokens.len() - self.at(),
        {
            let ghost here = self.at();
            let ghost before = values@;
            match self.parse_expr() {
                Ok(value) => {
                    values.push(value);
                },
                Err(message) => {
                    return Err(message);
                },
            }
            proof {
                assert(expr_views(values@) =~= expr_views(before) + seq![values@.last()@]);
            }
            if let Some(Token::Comma) = self.current_token() {
                self.advance();
                proof {
                    let rest = exprs_step(tokens, here + 2);
                    if let Ok(items) = rest.out {
                        assert(expr_views(values@) + items =~= expr_views(before)
                            + (seq![values@.last()@] + items));
                    }
                }
            } else {
                return Ok(values);
            }
        }
    }

    /// Reads `INSERT INTO table (columns) VALUES (values);`.
    fn parse_insert(&mut self) -> (result: Result<InsertQuery, String>)
        requires
            old(self).wf(),
        ensures
            final(self).wf(),
            final(self).input() == old(self).input(),
            final(self).at() == insert_step(old(self).input(), old(self).at()).at,
            match result {
                Ok(query) => insert_step(old(self).input(), old(self).at()).out
                    == Ok::<InsertView, Seq<char>>(
                    query@,
                ),
                Err(message) => insert_step(old(self).input(), old(self).at()).out
                    == Err::<InsertView, Seq<char>>(
                    message@,
                ),
            },
    {
        match self.expect_keyword(Keyword::Insert) {
            Ok(_) => {},
            Err(message) => {
                return Err(message);
            },
        }
        match self.expect_keyword(Keyword::Into) {
            Ok(_) => {},
            Err(message) => {
                return Err(message);
            },
        }
        let table = match self.expect_identifier() {
            Ok(name) => name,
            Err(message) => {
                return Err(message);
            },
        };
        match self.expect_token(Token::LParen) {
            Ok(_) => {},
            Err(message) => {
                return Err(message);
            },
        }
        let columns = match self.parse_identifiers() {
            Ok(names) => names,
            Err(message) => {
                return Err(message);
            },
        };
        match self.expect_token(Token::RParen) {
            Ok(_) => {},
            Err(message) => {
                return Err(message);
            },
        }
        match self.expect_keyword(Keyword::Values) {
            Ok(_) => {},
            Err(message) => {
                return Err(message);
            },
        }
        match self.expect_token(Token::LParen) {
            Ok(_) => {},
            Err(message) => {
                return Err(message);
            },
        }
        let values = match self.parse_exprs() {
            Ok(values) => values,
            Err(message) => {
                return Err(message);
            },
        };
        match self.expect_token(Token::RParen) {
            Ok(_) => {},
            Err(message) => {
                return Err(message);
            },
        }
        match self.expect_token(Token::Semicolon) {
            Ok(_) => {},
            Err(message) => {
                return Err(message);
            },
        }
        Ok(InsertQuery { columns, values, table })
    }

    /// The column type that a word names, given its uppercase form.
    pub fn column_type_from(upper: &str, input: &str) -> (result: Result<ColumnType, String>)
        ensures
            match result {
                Ok(column_type) => column_type_named(upper@, input@)
                    == Ok::<ColumnType, Seq<char>>(column_type),
                Err(message) => column_type_named(upper@, input@) == Err::<ColumnType, Seq<char>>(message@),
            },
    {
        if upper.eq("INT") {
            Ok(ColumnType::Int)
        } else if upper.eq("TEXT") {
            Ok(ColumnType::String)
        } else {
            let mut message = "Invalid Column type , got ".to_string();
            message.append(input);
            Err(message)
        }
    }

    /// The column type that a word names, whatever its case.
    pub fn to_column_type(input: &str) -> (result: Result<ColumnType, String>)
        ensures
            match result {
                Ok(column_type) => column_type_named(uppercased(input@), input@)
                    == Ok::<ColumnType, Seq<char>>(
                    column_type,
                ),
                Err(message) => column_type_named(uppercased(input@), input@)
                    == Err::<ColumnType, Seq<char>>(
                    message@,
                ),
            },
    {
        let upper = input.to_uppercase();
        Self::column_type_from(upper.as_str(), input)
    }

    /// The constraint that a word names, given its uppercase form.
    pub fn constraint_from(upper: &str, input: &str) -> (result: Result<Constraints, String>)
        ensures
            match result {
                Ok(constraint) => constraint_named(upper@, input@)
                    == Ok::<Constraints, Seq<char>>(constraint),
                Err(message) => constraint_named(upper@, input@) == Err::<Constraints, Seq<char>>(message@),
            },
    {
        if upper.eq("NOTNULL") {
            Ok(Constraints::NotNull)
        } else if upper.eq("NULL") {
            Ok(Constraints::Null)
        } else {
            let mut message = "Invalid constraint got ".to_string();
            message.append(input);
            Err(message)
        }
    }

    /// The constraint that a word names, whatever its case.
    pub fn parse_constraint(input: &str) -> (result: Result<Constraints, String>)
        ensures
            match result {
                Ok(constraint) => constraint_named(uppercased(input@), input@)
                    == Ok::<Constraints, Seq<char>>(
                    constraint,
                ),
                Err(message) => constraint_named(uppercased(input@), input@)
                    == Err::<Constraints, Seq<char>>(
                    message@,
                ),
            },
    {
        let upper = input.to_uppercase();
        Self::constraint_from(upper.as_str(), input)
    }

    /// Reads the constraints of one column.
    fn parse_constraints(&mut self) -> (result: Result<Vec<Constraints>, String>)
        requires
            old(self).wf(),
        ensures
            final(self).wf(),
            final(self).input() == old(self).input(),
            final(self).at() == constraints_step(old(self).input(), old(self).at()).at,
            match result {
                Ok(constraints) => constraints_step(old(self).input(), old(self).at()).out == Ok::<
                    Seq<Constraints>,
                    Seq<char>,
                >(constraints@),
                Err(message) => constraints_step(old(self).input(), old(self).at()).out == Err::<
                    Seq<Constraints>,
                    Seq<char>,
                >(message@),
            },
    {
        let mut constraints: Vec<Constraints> = Vec::new();
        let ghost start = self.at();
        let ghost tokens = self.input();
        proof {
            let step = constraints_step(tokens, start);
            if let Ok(items) = step.out {
                assert(constraints@ + items =~= items);
            }
        }
        loop
            invariant
                self.wf(),
                self.input() == tokens,
                tokens == old(self).input(),
                start == old(self).at(),
                prepended(constraints@, constraints_step(tokens, self.at()))
                    == constraints_step(tokens, start),
            decreases tokens.len() - self.at(),
        {
            let ghost here = self.at();
            let ghost before = constraints@;
            let at_comma = matches!(self.current_token(), Some(Token::Comma));
            let at_bracket = matches!(self.current_token(), Some(Token::RParen));
            if at_comma || at_bracket || self.expect_peek_token(Token::RParen).is_ok() {
                proof {
                    assert(constraints@ + Seq::<Constraints>::empty() =~= constraints@);
                }
                return Ok(constraints);
            } else {
                let word = match self.expect_identifier() {
                    Ok(word) => word,
                    Err(message) => {
                        return Err(message);
                    },
                };
                let constraint = match Self::parse_constraint(word.as_str()) {
                    Ok(constraint) => constraint,
                    Err(message) => {
                        return Err(message);
                    },
                };
                constraints.push(constraint);
                proof {
                    let rest = constraints_step(tokens, here + 1);
                    if let Ok(items) = rest.out {
                        assert(constraints@ + items =~= before + (seq![constraint] + items));
                    }
                }
            }
        }
    }

    /// Reads one column: its name, its type and its constraints.
    fn parse_column(&mut self) -> (result: Result<(String, ColumnType, Vec<Constraints>), String>)
        requires
            old(self).wf(),
        ensures
            final(self).wf(),
            final(self).input() == old(self).input(),
            final(self).at() == column_step(old(self).input(), old(self).at()).at,
            match result {
                Ok(column) => column_step(old(self).input(), old(self).at()).out
                    == Ok::<ColumnView, Seq<char>>(
                    column_view(column),
                ),
                Err(message) => column_step(old(self).input(), old(self).at()).out
                    == Err::<ColumnView, Seq<char>>(
                    message@,
                ),
            },
    {
        let column_name = match self.expect_identifier() {
            Ok(name) => name,
            Err(message) => {
                return Err(message);
            },
        };
        let type_word = match self.expect_identifier() {
            Ok(word) => word,
            Err(message) => {
                return Err(message);
            },
        };
        let column_type = match Self::to_column_type(type_word.as_str()) {
            Ok(column_type) => column_type,
            Err(message) => {
                return Err(message);
            },
        };
        let constraints = match self.parse_constraints() {
            Ok(constraints) => constraints,
            Err(message) => {
                return Err(message);
            },
        };
        Ok((column_name, column_type, constraints))
    }

    /// Reads `CREATE TABLE table (columns);`.
    fn parse_create_table(&mut self) -> (result: Result<CreateTableQuery, String>)
        requires
            old(self).wf(),
        ensures
            final(self).wf(),
            final(self).input() == old(self).input(),
            final(self).at() == create_table_step(old(self).input(), old(self).at()).at,
            match result {
                Ok(query) => create_table_step(old(self).input(), old(self).at()).out == Ok::<
                    CreateTableView,
                    Seq<char>,
                >(query@),
                Err(message) => create_table_step(old(self).input(), old(self).at()).out == Err::<
                    CreateTableView,
                    Seq<char>,
                >(message@),
            },
    {
        match self.expect_keyword(Keyword::Create) {
            Ok(_) => {},
            Err(message) => {
                return Err(message);
            },
        }
        match self.expect_keyword(Keyword::Table) {
            Ok(_) => {},
            Err(message) => {
                return Err(message);
            },
        }
        let table = match self.expect_identifier() {
            Ok(name) => name,
            Err(message) => {
                return Err(message);
            },
        };
        match self.expect_token(Token::LParen) {
            Ok(_) => {},
            Err(message) => {
                return Err(message);
            },
        }
        let columns = match self.parse_columns() {
            Ok(columns) => columns,
            Err(message) => {
                return Err(message);
            },
        };
        match self.expect_token(Token::RParen) {
            Ok(_) => {},
            Err(message) => {
                return Err(message);
            },
        }
        match self.expect_token(Token::Semicolon) {
            Ok(_) => {},
            Err(message) => {
                return Err(message);
            },
        }
        Ok(CreateTableQuery { table, columns })
    }

    /// Reads columns parted by commas, at least one.
    fn parse_columns(&mut self) -> (result: Result<Vec<(String, ColumnType, Vec<Constraints>)>, String>)
        requires
            old(self).wf(),
        ensures
            final(self).wf(),
            final(self).input() == old(self).input(),
            final(self).at() == columns_step(old(self).input(), old(self).at()).at,
            match result {
                Ok(columns) => columns_step(old(self).input(), old(self).at()).out == Ok::<
                    Seq<ColumnView>,
                    Seq<char>,
                >(column_views(columns@)),
                Err(message) => columns_step(old(self).input(), old(self).at()).out == Err::<
                    Seq<ColumnView>,
                    Seq<char>,
                >(message@),
            },
    {
        let mut columns: Vec<(String, ColumnType, Vec<Constraints>)> = Vec::new();
        let ghost start = self.at();
        let ghost tokens = self.input();
        proof {
            assert(column_views(columns@) =~= Seq::<ColumnView>::empty());
            let step = columns_step(tokens, start);
            if let Ok(items) = step.out {
                assert(column_views(columns@) + items =~= items);
            }
        }
        loop
            invariant
                self.wf(),
                self.input() == tokens,
                tokens == old(self).input(),
                start == old(self).at(),
                prepended(column_views(columns@), columns_step(tokens, self.at()))
                    == columns_step(tokens, start),
            decreases tokens.len() - self.at(),
        {
            let ghost here = self.at();
            let ghost before = columns@;
            proof {
                lemma_column_moves_on(tokens, here);
            }
            match self.parse_column() {
                Ok(column) => {
                    columns.push(column);
                },
                Err(message) => {
                    return Err(message);
                },
            }
            let ghost after_column = self.at();
            proof {
                assert(column_views(columns@) =~= column_views(before)
                    + seq![column_view(columns@.last())]);
            }
            if let Some(Token::Comma) = self.current_token() {
                if let Some(Token::RParen) = self.peek_token() {
                    return Ok(columns);
                }
                self.advance();
                proof {
                    let rest = columns_step(tokens, after_column + 1);
                    if let Ok(items) = rest.out {
                        assert(column_views(columns@) + items =~= column_views(before) + (seq![
                            column_view(columns@.last()),
                        ] + items));
                    }
                }
            } else {
                return Ok(columns);
            }
        }
    }

    /// Reads one query, of the kind that the first of all tokens opens.
    pub fn parse(&mut self) -> (result: Result<Query, String>)
        requires
            old(self).wf(),
            old(self).input().len() > 0,
        ensures
            final(self).wf(),
            final(self).input() == old(self).input(),
            final(self).at() == query_step(old(self).input(), old(self).at()).at,
            match result {
                Ok(query) => query_step(old(self).input(), old(self).at()).out
                    == Ok::<QueryView, Seq<char>>(query@),
                Err(message) => query_step(old(self).input(), old(self).at()).out
                    == Err::<QueryView, Seq<char>>(
                    message@,
                ),
            },
    {
        let opening = match &self.tokens[0] {
            Token::Keyword(keyword) => Some(*keyword),
            _ => None,
        };
        match opening {
            Some(Keyword::Select) => match self.parse_select() {
                Ok(query) => Ok(Query::Select(query)),
                Err(message) => Err(message),
            },
            Some(Keyword::Insert) => match self.parse_insert() {
                Ok(query) => Ok(Query::Insert(query)),
                Err(message) => Err(message),
            },
            Some(Keyword::Delete) => match self.parse_delete() {
                Ok(query) => Ok(Query::Delete(query)),
                Err(message) => Err(message),
            },
            Some(Keyword::Create) => match self.parse_create_table() {
                Ok(query) => Ok(Query::CreateTable(query)),
                Err(message) => Err(message),
            },
            _ => {
                let mut message = "Invalid Query got ".to_string();
                let found = Self::found(Some(&self.tokens[0]));
                message.append(found.as_str());
                Err(message)
            },
        }
    }

    /// Reads an optional condition `WHERE left = right`. Where part of it
    /// is missing there is no condition, and the parser stays where the
    /// reading stopped.
    pub fn parse_where_clause(&mut self) -> (clause: Option<WhereClause>)
        requires
            old(self).wf(),
        ensures
            final(self).wf(),
            final(self).input() == old(self).input(),
            final(self).at() == where_step(old(self).input(), old(self).at()).1,
            where_view(clause) == where_step(old(self).input(), old(self).at()).0,
    {
        let does_have_where = self.expect_keyword(Keyword::Where);
        if does_have_where.is_ok() {
            let left = match self.parse_expr() {
                Ok(left) => left,
                Err(_) => {
                    return None;
                },
            };
            match self.expect_token(Token::Operator("=".to_string())) {
                Ok(_) => {},
                Err(_) => {
                    return None;
                },
            }
            let right = match self.parse_expr() {
                Ok(right) => right,
                Err(_) => {
                    return None;
                },
            };
            Some(WhereClause { left, operator: "=".to_string(), right })
        } else {
            None
        }
    }

    /// Reads `DELETE FROM table` and an optional condition.
    pub fn parse_delete(&mut self) -> (result: Result<DeleteQuery, String>)
        requires
            old(self).wf(),
        ensures
            final(self).wf(),
            final(self).input() == old(self).input(),
            final(self).at() == delete_step(old(self).input(), old(self).at()).at,
            match result {
                Ok(query) => delete_step(old(self).input(), old(self).at()).out
                    == Ok::<DeleteView, Seq<char>>(
                    query@,
                ),
                Err(message) => delete_step(old(self).input(), old(self).at()).out
                    == Err::<DeleteView, Seq<char>>(
                    message@,
                ),
            },
    {
        match self.expect_keyword(Keyword::Delete) {
            Ok(_) => {},
            Err(message) => {
                return Err(message);
            },
        }
        match self.expect_keyword(Keyword::From) {
            Ok(_) => {},
            Err(message) => {
                return Err(message);
            },
        }
        let table = match self.expect_identifier() {
            Ok(name) => name,
            Err(message) => {
                return Err(message);
            },
        };
        let where_clause = self.parse_where_clause();
        Ok(DeleteQuery { table, where_clause })
    }

    /// Reads `SELECT columns FROM table`, an optional condition and an
    /// optional semicolon.
    pub fn parse_select(&mut self) -> (result: Result<SelectQuery, String>)
        requires
            old(self).wf(),
        ensures
            final(self).wf(),
            final(self).input() == old(self).input(),
            final(self).at() == select_step(old(self).input(), old(self).at()).at,
            match result {
                Ok(query) => select_step(old(self).input(), old(self).at()).out
                    == Ok::<SelectView, Seq<char>>(
                    query@,
                ),
                Err(message) => select_step(old(self).input(), old(self).at()).out
                    == Err::<SelectView, Seq<char>>(
                    message@,
                ),
            },
    {
        match self.expect_keyword(Keyword::Select) {
            Ok(_) => {},
            Err(message) => {
                return Err(message);
            },
        }
        let columns = match self.parse_identifiers() {
            Ok(names) => names,
            Err(message) => {
                return Err(message);
            },
        };
        match self.expect_keyword(Keyword::From) {
            Ok(_) => {},
            Err(message) => {
                return Err(message);
            },
        }
        let table = match self.expect_identifier() {
            Ok(name) => name,
            Err(message) => {
                return Err(message);
            },
        };
        let where_clause = self.parse_where_clause();
        if let Some(Token::Semicolon) = self.current_token() {
            self.advance();
        }
        Ok(SelectQuery { columns, table, where_clause })
    }
}

} // verus!
