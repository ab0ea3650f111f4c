use neoqlite::engine::db::{meta_command, position_of, ColumnType, MetaCommand, Neoqlite, Schema, Table};
use neoqlite::engine::row::Row;
use neoqlite::engine::value::{display_int, DataType};
use neoqlite::parser::parser::{DeleteQuery, Expr, InsertQuery, SelectQuery, WhereClause};

fn text(s: &str) -> DataType {
    DataType::Text(s.to_string())
}

fn names(list: &[&str]) -> Vec<String> {
    list.iter().map(|s| s.to_string()).collect()
}

fn ids(rows: &[Row]) -> Vec<DataType> {
    rows.iter().map(|r| r.get("id").unwrap().clone()).collect()
}

fn filled() -> Neoqlite {
    let mut db = Neoqlite::new();
    for (id, name) in [(3, "c"), (1, "a"), (2, "b"), (5, "e"), (4, "d")] {
        let stmt = format!(
            "insert into users(id,username,email) values({},'{}','{}@mail');",
            id, name, name
        );
        assert_eq!(db.exec_stmt(&stmt), Ok(vec![]));
    }
    db
}

#[test]
fn values_are_ordered_numbers_first() {
    assert!(DataType::Int(1) < DataType::Int(2));
    assert!(DataType::Int(-5) < DataType::Int(0));
    assert!(DataType::Int(i64::MAX) < text(""));
    assert!(text("") < text("a"));
    assert!(text("a") < text("ab"));
    assert!(text("ab") < text("b"));
    assert!(text("Z") < text("a"));
    assert!(text("z") < text("é"));
    assert!(!(text("b") < text("ab")));
    assert!(!(text("a") < text("a")));
    assert_eq!(text("a"), text("a"));
    assert_ne!(text("a"), DataType::Int(0));
    assert_eq!(DataType::Int(3).partial_cmp(&DataType::Int(3)), Some(std::cmp::Ordering::Equal));
    assert_eq!(text("b").partial_cmp(&text("a")), Some(std::cmp::Ordering::Greater));
    let samples = [DataType::Int(-1), DataType::Int(7), text(""), text("a"), text("ab"), text("b")];
    for a in &samples {
        for b in &samples {
            assert_eq!(a.partial_cmp(b), Some(a.cmp(b)));
        }
    }
}

#[test]
fn values_default_clone_and_show() {
    assert_eq!(DataType::default(), DataType::Int(0));
    assert_eq!(text("x").clone(), text("x"));
    assert_eq!(DataType::Int(-12).get_value(), "-12");
    assert_eq!(DataType::Int(0).get_value(), "0");
    assert_eq!(text("hello").get_value(), "hello");
}

#[test]
fn rows_hold_one_value_for_each_name() {
    let mut row = Row::new();
    assert_eq!(row.get("a"), None);
    row.insert("a".to_string(), DataType::Int(1));
    row.insert("b".to_string(), text("x"));
    row.insert("a".to_string(), DataType::Int(2));
    assert_eq!(row.get("a"), Some(&DataType::Int(2)));
    assert_eq!(row.get("b"), Some(&text("x")));
    assert_eq!(row.get("c"), None);
    assert_eq!(row.cells().len(), 2);
    assert_eq!(row.clone(), row);
    assert_eq!(Row::default(), Row::new());
    let part = row.project(&names(&["b", "zz"]));
    assert_eq!(part.get("b"), Some(&text("x")));
    assert_eq!(part.get("a"), None);
    assert_eq!(part.cells().len(), 1);
}

#[test]
fn schema_finds_the_first_column_of_a_name() {
    let mut schema = Schema::new();
    assert!(schema.get_column("id").is_none());
    schema.add_column("id".to_string(), ColumnType::Int);
    schema.add_column("name".to_string(), ColumnType::String);
    schema.add_column("id".to_string(), ColumnType::String);
    let id = schema.get_column("id").unwrap();
    assert_eq!(Schema::validate_column(id, &Expr::Number(4)), Some(DataType::Int(4)));
    assert_eq!(Schema::validate_column(id, &Expr::Ident("x".to_string())), None);
    let name = schema.get_column("name").unwrap();
    assert_eq!(Schema::validate_column(name, &Expr::Ident("x".to_string())), Some(text("x")));
    assert_eq!(Schema::validate_column(name, &Expr::Number(4)), None);
    assert!(schema.get_column("age").is_none());
}

#[test]
fn date_columns_take_no_value() {
    let mut schema = Schema::new();
    schema.add_column("day".to_string(), ColumnType::Date);
    let day = schema.get_column("day").unwrap();
    assert_eq!(Schema::validate_column(day, &Expr::Number(4)), None);
    assert_eq!(Schema::validate_column(day, &Expr::Ident("x".to_string())), None);
}

#[test]
fn schema_validates_rows_to_insert() {
    let mut schema = Schema::new();
    schema.add_column("id".to_string(), ColumnType::Int);
    schema.add_column("name".to_string(), ColumnType::String);
    assert_eq!(
        schema.validate_insert_row(
            &names(&["name", "id"]),
            &vec![Expr::Ident("x".to_string()), Expr::Number(1)]
        ),
        Ok(vec![text("x"), DataType::Int(1)])
    );
    assert_eq!(schema.validate_insert_row(&vec![], &vec![]), Ok(vec![]));
    assert_eq!(
        schema.validate_insert_row(&names(&["id", "age"]), &vec![Expr::Number(1), Expr::Number(2)]),
        Err("Did you just create the column: age".to_string())
    );
    assert_eq!(
        schema.validate_insert_row(
            &names(&["id", "name"]),
            &vec![Expr::Ident("x".to_string()), Expr::Number(2)]
        ),
        Err("Invalid type for column id expected Int got Ident(\"x\")".to_string())
    );
    assert_eq!(
        schema.validate_insert_row(&names(&["name"]), &vec![Expr::Number(2)]),
        Err("Invalid type for column name expected String got Number(2)".to_string())
    );
}

#[test]
fn schema_validates_rows_of_texts() {
    let mut schema = Schema::new();
    schema.add_column("id".to_string(), ColumnType::Int);
    schema.add_column("name".to_string(), ColumnType::String);
    schema.add_column("day".to_string(), ColumnType::Date);
    assert_eq!(schema.validate_row(&names(&["1", "x", "y"])), Ok(()));
    assert_eq!(schema.validate_row(&names(&["-7", "x", "y", "more"])), Ok(()));
    assert_eq!(schema.validate_row(&names(&["1", "x"])), Err("Missing column: day".to_string()));
    assert_eq!(schema.validate_row(&names(&["1"])), Err("Missing column: name".to_string()));
    assert_eq!(schema.validate_row(&vec![]), Err("Missing column: id".to_string()));
    assert_eq!(Schema::new().validate_row(&vec![]), Ok(()));
}

#[test]
fn position_of_a_name() {
    assert_eq!(position_of(&names(&["a", "id", "b", "id"]), "id"), Some(1));
    assert_eq!(position_of(&names(&["a"]), "id"), None);
    assert_eq!(position_of(&vec![], "id"), None);
}

#[test]
fn empty_table_refuses_rows() {
    let mut table = Table::new();
    assert_eq!(
        table.insert_row(names(&["id"]), vec![Expr::Number(1)]),
        Err("Did you just create the column: id".to_string())
    );
    assert_eq!(table.insert_row(vec![], vec![]), Err("expected an 'id' column".to_string()));
    let all = SelectQuery { columns: names(&["*"]), table: "t".to_string(), where_clause: None };
    assert_eq!(table.select_rows(&all), Some(vec![]));
}

#[test]
fn new_engine_has_two_tables() {
    let db = Neoqlite::new();
    assert!(!db.debug());
    let tables = db.tables();
    assert_eq!(tables.len(), 2);
    assert_eq!(tables[0].0, "users");
    assert_eq!(tables[1].0, "dummy");
    let mut db = db;
    db.set_debug(true);
    assert!(db.debug());
    db.set_debug(false);
    assert!(!db.debug());
    assert_eq!(db.tables().len(), 2);
}

#[test]
fn the_opening_session() {
    let mut db = Neoqlite::new();
    assert_eq!(
        db.exec_stmt("CREATE TABLE otp (\n id int,\n otp text,\n is_valid int\n);"),
        Ok(vec![])
    );
    assert_eq!(
        db.exec_stmt("insert into users(id,email,username) values(1,'masoom','masoom@email.com');"),
        Ok(vec![])
    );
    assert_eq!(
        db.exec_stmt("insert into users(id,email,username) values(2,'notmasoom','notmasoom@email.com');"),
        Ok(vec![])
    );
    for id in [3, 4, 5] {
        let stmt = format!("insert into users(id,email,username) values({},'nani','nani@email.com');", id);
        assert_eq!(db.exec_stmt(&stmt), Ok(vec![]));
    }
    assert_eq!(
        db.exec_stmt("insert into users(id,email,username,otp) values(6,'mehdi','mehdi@email.com',645);"),
        Ok(vec![])
    );
    db.set_debug(true);
    assert_eq!(db.exec_stmt("delete from users where id = 5;"), Ok(vec![]));
    let rows = db.exec_stmt("select * from users;").unwrap();
    assert_eq!(
        ids(&rows),
        vec![DataType::Int(1), DataType::Int(2), DataType::Int(3), DataType::Int(4), DataType::Int(6)]
    );
    assert_eq!(rows[0].get("email"), Some(&text("masoom")));
    assert_eq!(rows[0].get("username"), Some(&text("masoom@email.com")));
    assert_eq!(rows[0].get("otp"), None);
    assert_eq!(rows[4].get("otp"), Some(&DataType::Int(645)));
    assert_eq!(db.tables().len(), 3);
    assert_eq!(db.tables()[2].0, "otp");
}

#[test]
fn select_one_row_and_some_columns() {
    let db_rows = filled();
    let mut db = db_rows;
    let rows = db.exec_stmt("select * from users where id = 2;").unwrap();
    assert_eq!(rows.len(), 1);
    assert_eq!(rows[0].get("id"), Some(&DataType::Int(2)));
    assert_eq!(rows[0].get("username"), Some(&text("b")));
    assert_eq!(rows[0].get("email"), Some(&text("b@mail")));
    let rows = db.exec_stmt("select username from users where id = 4").unwrap();
    assert_eq!(rows.len(), 1);
    assert_eq!(rows[0].get("username"), Some(&text("d")));
    assert_eq!(rows[0].get("id"), None);
    assert_eq!(rows[0].cells().len(), 1);
    let rows = db.exec_stmt("select username, nothing from users;").unwrap();
    assert_eq!(rows.len(), 5);
    let shown: Vec<DataType> = rows.iter().map(|r| r.get("username").unwrap().clone()).collect();
    assert_eq!(shown, vec![text("a"), text("b"), text("c"), text("d"), text("e")]);
    assert!(rows.iter().all(|r| r.cells().len() == 1));
}

#[test]
fn select_that_finds_nothing() {
    let mut db = filled();
    assert_eq!(db.exec_stmt("select * from users where id = 9;"), Err("None".to_string()));
    assert_eq!(db.exec_stmt("select * from users where id = 'two';"), Err("None".to_string()));
    assert_eq!(db.exec_stmt("select * from users where email = 2;"), Err("None".to_string()));
    assert_eq!(db.exec_stmt("select * from nowhere;"), Err("Table not found".to_string()));
    assert_eq!(db.exec_stmt("select * from dummy;"), Ok(vec![]));
}

#[test]
fn select_by_a_number_as_the_left_side() {
    // only a name other than id on the left is refused
    let mut db = filled();
    let rows = db.exec_stmt("select * from users where 7 = 3;").unwrap();
    assert_eq!(ids(&rows), vec![DataType::Int(3)]);
}

#[test]
fn insert_refusals() {
    let mut db = filled();
    assert_eq!(
        db.exec_stmt("insert into users(id,username) values(1,'again');"),
        Err("Duplicate primary key".to_string())
    );
    assert_eq!(
        db.exec_stmt("insert into users(username) values('nobody');"),
        Err("expected an 'id' column".to_string())
    );
    assert_eq!(
        db.exec_stmt("insert into users(id,username) values(7);"),
        Err("columns and values are not the same length".to_string())
    );
    assert_eq!(
        db.exec_stmt("insert into users(id,age) values(7,30);"),
        Err("Did you just create the column: age".to_string())
    );
    assert_eq!(
        db.exec_stmt("insert into users(id,username) values('x','y');"),
        Err("Invalid type for column id expected Int got Ident(\"x\")".to_string())
    );
    assert_eq!(
        db.exec_stmt("insert into nowhere(id) values(1);"),
        Err("Table not found".to_string())
    );
    let rows = db.exec_stmt("select * from users;").unwrap();
    assert_eq!(rows.len(), 5);
    assert_eq!(rows[0].get("username"), Some(&text("a")));
}

#[test]
fn insert_with_a_column_twice_keeps_the_last_value() {
    let mut db = Neoqlite::new();
    assert_eq!(db.exec_stmt("insert into users(id,username,username) values(1,'a','b');"), Ok(vec![]));
    let rows = db.exec_stmt("select * from users;").unwrap();
    assert_eq!(rows[0].get("username"), Some(&text("b")));
    assert_eq!(rows[0].cells().len(), 2);
}

#[test]
fn delete_refusals_and_absent_keys() {
    let mut db = filled();
    assert_eq!(
        db.exec_stmt("delete from users;"),
        Err("Expected a where clause , do you want me to delete the whole table??????".to_string())
    );
    assert_eq!(
        db.exec_stmt("delete from users where email = 1;"),
        Err("Buddy you have high expecations".to_string())
    );
    assert_eq!(
        db.exec_stmt("delete from users where id = 'one';"),
        Err("man cmon , dont you know the id is a number??????".to_string())
    );
    assert_eq!(db.exec_stmt("delete from nowhere where id = 1;"), Err("Table not found".to_string()));
    assert_eq!(db.exec_stmt("delete from users where id = 99;"), Ok(vec![]));
    assert_eq!(db.exec_stmt("select * from users;").unwrap().len(), 5);
    assert_eq!(db.exec_stmt("delete from users where id = 3;"), Ok(vec![]));
    assert_eq!(db.exec_stmt("delete from users where id = 3;"), Ok(vec![]));
    let rows = db.exec_stmt("select * from users;").unwrap();
    assert_eq!(ids(&rows), vec![DataType::Int(1), DataType::Int(2), DataType::Int(4), DataType::Int(5)]);
}

#[test]
fn deleting_all_rows_empties_the_table() {
    let mut db = filled();
    for id in [2, 5, 1, 4, 3] {
        assert_eq!(db.exec_stmt(&format!("delete from users where id = {};", id)), Ok(vec![]));
    }
    assert_eq!(db.exec_stmt("select * from users;"), Ok(vec![]));
}

#[test]
fn many_rows_stay_in_key_order() {
    let mut db = Neoqlite::new();
    for i in 0..40 {
        let id = (i * 17) % 41;
        assert_eq!(db.exec_stmt(&format!("insert into dummy(id) values({});", id)), Ok(vec![]));
    }
    for id in [0, 40, 20, 7] {
        assert_eq!(db.exec_stmt(&format!("delete from dummy where id = {};", id)), Ok(vec![]));
    }
    let rows = db.exec_stmt("select id from dummy;").unwrap();
    let mut expected: Vec<DataType> = (0..40).map(|i| (i * 17) % 41).filter(|id| ![0, 40, 20, 7].contains(id)).map(DataType::Int).collect();
    expected.sort();
    assert_eq!(ids(&rows), expected);
}

#[test]
fn create_table_refusals() {
    let mut db = Neoqlite::new();
    assert_eq!(
        db.exec_stmt("create table users (id int);"),
        Err("A Table with name 'users' exists".to_string())
    );
    assert_eq!(
        db.exec_stmt("create table t (id text);"),
        Err("Expected 'id' to be an int".to_string())
    );
    assert_eq!(
        db.exec_stmt("create table t (name text);"),
        Err("Expected an 'id' column".to_string())
    );
    assert_eq!(db.tables().len(), 2);
    assert_eq!(db.exec_stmt("create table t (name text, id int);"), Ok(vec![]));
    assert_eq!(db.tables().len(), 3);
    assert_eq!(db.exec_stmt("insert into t(id,name) values(1,'x');"), Ok(vec![]));
    assert_eq!(db.exec_stmt("select name from t where id = 1;").unwrap()[0].get("name"), Some(&text("x")));
}

#[test]
fn statements_that_do_not_parse() {
    let mut db = Neoqlite::new();
    assert_eq!(db.exec_stmt("hello"), Err("Invalid Query got Some(Ident(\"hello\"))".to_string()));
    assert_eq!(db.exec_stmt("select"), Err("Expected identifier, but found None".to_string()));
    assert_eq!(db.exec_stmt(".bt"), Ok(vec![]));
    assert_eq!(db.exec_stmt(".anything at all"), Ok(vec![]));
}

#[test]
fn lines_that_cannot_be_run() {
    let mut db = Neoqlite::new();
    assert_eq!(db.try_exec_stmt(""), None);
    assert_eq!(db.try_exec_stmt("   "), None);
    assert_eq!(db.try_exec_stmt("#"), None);
    assert_eq!(db.try_exec_stmt(".exit"), Some(Ok(vec![])));
    assert_eq!(db.try_exec_stmt("select * from dummy"), Some(Ok(vec![])));
    assert_eq!(db.try_exec_stmt("nonsense"), Some(Err("Invalid Query got Some(Ident(\"nonsense\"))".to_string())));
    let columns: Vec<String> = (0..254).map(|i| format!("c{} int", i)).collect();
    let wide = format!("create table wide (id int, {});", columns.join(", "));
    assert_eq!(db.try_exec_stmt(&wide), None);
    assert_eq!(db.tables().len(), 2);
    let columns: Vec<String> = (0..253).map(|i| format!("c{} int", i)).collect();
    let fits = format!("create table fits (id int, {});", columns.join(", "));
    assert_eq!(db.try_exec_stmt(&fits), Some(Ok(vec![])));
    assert_eq!(db.tables().len(), 3);
    // a table too wide is still refused for what comes first
    let taken = format!("create table users (id int, {});", vec!["c int"; 300].join(", "));
    assert_eq!(db.try_exec_stmt(&taken), Some(Err("A Table with name 'users' exists".to_string())));
    let bad_id = format!("create table bad (a int, id text, {});", vec!["c int"; 300].join(", "));
    assert_eq!(db.try_exec_stmt(&bad_id), Some(Err("Expected 'id' to be an int".to_string())));
    let late_id = format!("create table late ({}, id text);", vec!["c int"; 255].join(", "));
    assert_eq!(db.try_exec_stmt(&late_id), None);
    let at_the_edge = format!("create table edge ({}, id text);", vec!["c int"; 254].join(", "));
    assert_eq!(db.try_exec_stmt(&at_the_edge), Some(Err("Expected 'id' to be an int".to_string())));
    assert_eq!(db.tables().len(), 3);
}

#[test]
fn select_without_columns() {
    let db = filled();
    let nothing = SelectQuery {
        columns: vec![],
        table: "users".to_string(),
        where_clause: Some(WhereClause {
            left: Expr::Ident("id".to_string()),
            operator: "=".to_string(),
            right: Expr::Number(99),
        }),
    };
    assert!(db.query_runs(&neoqlite::parser::parser::Query::Select(nothing.clone())));
    assert_eq!(db.exec_select(nothing), Err("None".to_string()));
    let something = SelectQuery {
        columns: vec![],
        table: "users".to_string(),
        where_clause: None,
    };
    assert!(!db.query_runs(&neoqlite::parser::parser::Query::Select(something)));
    let elsewhere = SelectQuery { columns: vec![], table: "nowhere".to_string(), where_clause: None };
    assert!(db.query_runs(&neoqlite::parser::parser::Query::Select(elsewhere.clone())));
    assert_eq!(db.exec_select(elsewhere), Err("Table not found".to_string()));
}

#[test]
fn rows_with_fewer_values_than_columns() {
    let mut table = Table::new();
    assert_eq!(
        table.insert_row(names(&["x", "id"]), vec![Expr::Number(1)]),
        Err("Did you just create the column: x".to_string())
    );
    let mut schema = Schema::new();
    schema.add_column("id".to_string(), ColumnType::Int);
    assert_eq!(
        schema.validate_insert_row(&names(&["id", "name", "more"]), &vec![Expr::Number(1), Expr::Number(2)]),
        Err("Did you just create the column: name".to_string())
    );
}

#[test]
fn queries_run_directly() {
    let mut db = filled();
    let insert = InsertQuery {
        columns: names(&["id", "username"]),
        table: "users".to_string(),
        values: vec![Expr::Number(9), Expr::Ident("i".to_string())],
    };
    assert_eq!(db.exec_insert(insert), Ok(()));
    let select = SelectQuery {
        columns: names(&["username"]),
        table: "users".to_string(),
        where_clause: Some(WhereClause {
            left: Expr::Ident("id".to_string()),
            operator: "=".to_string(),
            right: Expr::Number(9),
        }),
    };
    let rows = db.exec_select(select).unwrap();
    assert_eq!(rows.len(), 1);
    assert_eq!(rows[0].get("username"), Some(&text("i")));
    let delete = DeleteQuery {
        table: "users".to_string(),
        where_clause: Some(WhereClause {
            left: Expr::Number(0),
            operator: "=".to_string(),
            right: Expr::Number(9),
        }),
    };
    assert_eq!(db.exec_delete(delete), Ok(()));
    assert_eq!(db.exec_stmt("select * from users where id = 9"), Err("None".to_string()));
}

#[test]
fn meta_commands() {
    assert_eq!(meta_command(".exit"), MetaCommand::Exit);
    assert_eq!(meta_command(".bt"), MetaCommand::Tables);
    assert_eq!(meta_command(".q"), MetaCommand::Unknown);
    assert_eq!(meta_command(".exit "), MetaCommand::Unknown);
    assert_eq!(meta_command(""), MetaCommand::Unknown);
    assert!(Neoqlite::opens_with_dot(".x"));
    assert!(!Neoqlite::opens_with_dot("x."));
    assert!(!Neoqlite::opens_with_dot(""));
}

#[test]
fn numbers_read_in_base_ten() {
    assert_eq!(display_int(0), "0");
    assert_eq!(display_int(7), "7");
    assert_eq!(display_int(10), "10");
    assert_eq!(display_int(-1), "-1");
    assert_eq!(display_int(1005), "1005");
    assert_eq!(display_int(i64::MAX), "9223372036854775807");
    assert_eq!(display_int(i64::MIN), "-9223372036854775808");
    let mut n: i64 = 1;
    for _ in 0..60 {
        assert_eq!(display_int(n), n.to_string());
        assert_eq!(display_int(-n), (-n).to_string());
        assert_eq!(display_int(n - 1), (n - 1).to_string());
        n = n.wrapping_mul(3).wrapping_add(1) % 1_000_000_000_000;
    }
}
