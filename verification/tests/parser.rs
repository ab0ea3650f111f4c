use neoqlite::engine::db::{ColumnType, Constraints};
use neoqlite::parser::lexer::{Keyword, Lexer, Token};
use neoqlite::parser::parser::{
    debug_expr, debug_token, keyword_text, CreateTableQuery, DeleteQuery, Expr, InsertQuery, Parser, Query, SelectQuery,
    WhereClause,
};

fn parse(text: &str) -> Result<Query, String> {
    Parser::new(Lexer::new(text).tokenize()).parse()
}

fn names(list: &[&str]) -> Vec<String> {
    list.iter().map(|s| s.to_string()).collect()
}

fn id_is(right: Expr) -> WhereClause {
    WhereClause { left: Expr::Ident("id".to_string()), operator: "=".to_string(), right }
}

#[test]
fn select_all() {
    assert_eq!(
        parse("select * from users;"),
        Ok(Query::Select(SelectQuery {
            columns: names(&["*"]),
            table: "users".to_string(),
            where_clause: None,
        }))
    );
}

#[test]
fn select_columns_with_condition() {
    assert_eq!(
        parse("SELECT id, email FROM users WHERE id = 5"),
        Ok(Query::Select(SelectQuery {
            columns: names(&["id", "email"]),
            table: "users".to_string(),
            where_clause: Some(id_is(Expr::Number(5))),
        }))
    );
    assert_eq!(
        parse("select id from users where id = 'x';"),
        Ok(Query::Select(SelectQuery {
            columns: names(&["id"]),
            table: "users".to_string(),
            where_clause: Some(id_is(Expr::Ident("x".to_string()))),
        }))
    );
}

#[test]
fn select_with_broken_condition_has_none() {
    assert_eq!(
        parse("select id from users where id > 5;"),
        Ok(Query::Select(SelectQuery {
            columns: names(&["id"]),
            table: "users".to_string(),
            where_clause: None,
        }))
    );
    let mut parser = Parser::new(Lexer::new("where id =").tokenize());
    assert_eq!(parser.parse_where_clause(), None);
    let mut parser = Parser::new(Lexer::new("where id = 3").tokenize());
    assert_eq!(parser.parse_where_clause(), Some(id_is(Expr::Number(3))));
    let mut parser = Parser::new(Lexer::new("id = 3").tokenize());
    assert_eq!(parser.parse_where_clause(), None);
}

#[test]
fn select_errors() {
    assert_eq!(
        parse("select from users"),
        Err("Expected identifier, but found Some(Keyword(From))".to_string())
    );
    assert_eq!(
        parse("select id users"),
        Err("Expected From, but found Some(Ident(\"users\"))".to_string())
    );
    assert_eq!(parse("select id,"), Err("Expected identifier, but found None".to_string()));
    assert_eq!(parse("select id from"), Err("Expected identifier, but found None".to_string()));
    assert_eq!(parse("select id"), Err("Expected From, but found None".to_string()));
}

#[test]
fn parse_select_from_the_start() {
    let mut parser = Parser::new(Lexer::new("select a, b from t").tokenize());
    assert_eq!(
        parser.parse_select(),
        Ok(SelectQuery { columns: names(&["a", "b"]), table: "t".to_string(), where_clause: None })
    );
    let mut parser = Parser::new(Lexer::new("delete from t").tokenize());
    assert_eq!(parser.parse_select(), Err("Expected Select, but found Delete".to_string()));
}

#[test]
fn delete_with_and_without_condition() {
    assert_eq!(
        parse("delete from users where id = 5;"),
        Ok(Query::Delete(DeleteQuery {
            table: "users".to_string(),
            where_clause: Some(id_is(Expr::Number(5))),
        }))
    );
    assert_eq!(
        parse("delete from users"),
        Ok(Query::Delete(DeleteQuery { table: "users".to_string(), where_clause: None }))
    );
    assert_eq!(parse("delete users"), Err("Expected From, but found Some(Ident(\"users\"))".to_string()));
    let mut parser = Parser::new(Lexer::new("delete from t where id = 1").tokenize());
    assert_eq!(
        parser.parse_delete(),
        Ok(DeleteQuery { table: "t".to_string(), where_clause: Some(id_is(Expr::Number(1))) })
    );
}

#[test]
fn insert_with_columns_and_values() {
    assert_eq!(
        parse("insert into users(id,email,username) values(1,'masoom','masoom@email.com');"),
        Ok(Query::Insert(InsertQuery {
            columns: names(&["id", "email", "username"]),
            table: "users".to_string(),
            values: vec![
                Expr::Number(1),
                Expr::Ident("masoom".to_string()),
                Expr::Ident("masoom@email.com".to_string()),
            ],
        }))
    );
}

#[test]
fn insert_errors() {
    assert_eq!(
        parse("insert users"),
        Err("Expected Into, but found Some(Ident(\"users\"))".to_string())
    );
    assert_eq!(
        parse("insert into users id"),
        Err("Expected LParen, but found Ident(\"id\")".to_string())
    );
    assert_eq!(
        parse("insert into users(id) values(1)"),
        Err("Expected Semicolon, but found None".to_string())
    );
    assert_eq!(
        parse("insert into users(id) values(;"),
        Err("Expected expression, but found Some(Semicolon)".to_string())
    );
    assert_eq!(
        parse("insert into users(id) select"),
        Err("Expected Values, but found Select".to_string())
    );
    assert_eq!(
        parse("insert into users(id values(1);"),
        Err("Expected RParen, but found Keyword(Values)".to_string())
    );
}

#[test]
fn create_table_with_columns() {
    assert_eq!(
        parse("CREATE TABLE otp (\n id int,\n otp text,\n is_valid int\n);"),
        Ok(Query::CreateTable(CreateTableQuery {
            table: "otp".to_string(),
            columns: vec![
                ("id".to_string(), ColumnType::Int, vec![]),
                ("otp".to_string(), ColumnType::String, vec![]),
                ("is_valid".to_string(), ColumnType::Int, vec![]),
            ],
        }))
    );
}

#[test]
fn create_table_with_constraints() {
    assert_eq!(
        parse("create table t (id int notnull, name text null notnull, age int);"),
        Ok(Query::CreateTable(CreateTableQuery {
            table: "t".to_string(),
            columns: vec![
                ("id".to_string(), ColumnType::Int, vec![Constraints::NotNull]),
                ("name".to_string(), ColumnType::String, vec![Constraints::Null, Constraints::NotNull]),
                ("age".to_string(), ColumnType::Int, vec![]),
            ],
        }))
    );
}

#[test]
fn create_table_errors() {
    assert_eq!(
        parse("create table t (id float);"),
        Err("Invalid Column type , got float".to_string())
    );
    assert_eq!(
        parse("create table t (id int unique, x int);"),
        Err("Invalid constraint got unique".to_string())
    );
    // a word right before the closing bracket is left standing
    assert_eq!(
        parse("create table t (id int notnull);"),
        Err("Expected RParen, but found Ident(\"notnull\")".to_string())
    );
    // so is a comma right before the closing bracket
    assert_eq!(
        parse("create table t (id int,);"),
        Err("Expected RParen, but found Comma".to_string())
    );
    assert_eq!(parse("create t"), Err("Expected Table, but found Some(Ident(\"t\"))".to_string()));
    assert_eq!(parse("create table t (id int)"), Err("Expected Semicolon, but found None".to_string()));
}

#[test]
fn other_statements_are_no_query() {
    assert_eq!(parse("users"), Err("Invalid Query got Some(Ident(\"users\"))".to_string()));
    assert_eq!(parse("update t"), Err("Invalid Query got Some(Keyword(Update))".to_string()));
    assert_eq!(parse("42"), Err("Invalid Query got Some(Number(42))".to_string()));
    assert_eq!(parse("= 1"), Err("Invalid Query got Some(Operator(\"=\"))".to_string()));
}

#[test]
fn column_types_and_constraints_by_name() {
    assert_eq!(Parser::to_column_type("int"), Ok(ColumnType::Int));
    assert_eq!(Parser::to_column_type("Text"), Ok(ColumnType::String));
    assert_eq!(Parser::to_column_type("date"), Err("Invalid Column type , got date".to_string()));
    assert_eq!(Parser::column_type_from("INT", "x"), Ok(ColumnType::Int));
    assert_eq!(Parser::column_type_from("int", "INT"), Err("Invalid Column type , got INT".to_string()));
    assert_eq!(Parser::parse_constraint("notNull"), Ok(Constraints::NotNull));
    assert_eq!(Parser::parse_constraint("NULL"), Ok(Constraints::Null));
    assert_eq!(Parser::parse_constraint("unique"), Err("Invalid constraint got unique".to_string()));
    assert_eq!(Parser::constraint_from("NULL", "x"), Ok(Constraints::Null));
    assert_eq!(Parser::constraint_from("null", "x"), Err("Invalid constraint got x".to_string()));
}

#[test]
fn keyword_names() {
    assert_eq!(keyword_text(Keyword::Select), "Select");
    assert_eq!(keyword_text(Keyword::GroupBy), "GroupBy");
    assert_eq!(keyword_text(Keyword::SetTo), "SetTo");
    for keyword in [Keyword::From, Keyword::Where, Keyword::Limit, Keyword::As, Keyword::SetTo] {
        assert_eq!(keyword_text(keyword), format!("{:?}", keyword));
    }
}

#[test]
fn parser_of_given_tokens() {
    let tokens = vec![
        Token::Keyword(Keyword::Delete),
        Token::Keyword(Keyword::From),
        Token::Ident("t".to_string()),
    ];
    assert_eq!(
        Parser::new(tokens).parse(),
        Ok(Query::Delete(DeleteQuery { table: "t".to_string(), where_clause: None }))
    );
}

#[test]
fn tokens_read_as_their_debug_form() {
    let texts = ["", "id", "a b", "quote\"d", "it's", "back\\slash", "tab\there", "line\nbreak", "é ü", "\u{7f}\u{0}"];
    let mut tokens = vec![
        Token::Comma,
        Token::Semicolon,
        Token::LParen,
        Token::RParen,
        Token::Whitespace,
        Token::EOF,
        Token::Number(0),
        Token::Number(42),
        Token::Number(-7),
        Token::Number(i64::MAX),
        Token::Number(i64::MIN),
        Token::Keyword(Keyword::Select),
        Token::Keyword(Keyword::GroupBy),
        Token::Keyword(Keyword::SetTo),
        Token::Keyword(Keyword::As),
    ];
    for text in texts {
        tokens.push(Token::Ident(text.to_string()));
        tokens.push(Token::Operator(text.to_string()));
        tokens.push(Token::StringLiteral(text.to_string()));
    }
    for token in &tokens {
        assert_eq!(debug_token(token), format!("{:?}", token));
    }
    assert_eq!(debug_token(&Token::Ident("x".to_string())), "Ident(\"x\")");
    assert_eq!(debug_token(&Token::Number(5)), "Number(5)");
    assert_eq!(debug_token(&Token::Keyword(Keyword::From)), "Keyword(From)");
    assert_eq!(debug_token(&Token::RParen), "RParen");
}

#[test]
fn values_read_as_their_debug_form() {
    for text in ["", "x", "a \"b\"", "new\nline"] {
        let value = Expr::Ident(text.to_string());
        assert_eq!(debug_expr(&value), format!("{:?}", value));
    }
    for n in [0, 1, -1, 645, i64::MAX, i64::MIN] {
        let value = Expr::Number(n);
        assert_eq!(debug_expr(&value), format!("{:?}", value));
    }
    assert_eq!(debug_expr(&Expr::Number(2)), "Number(2)");
    assert_eq!(debug_expr(&Expr::Ident("x".to_string())), "Ident(\"x\")");
}
