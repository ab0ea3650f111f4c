use neoqlite::parser::lexer::{chars_of, parse_int, text_of, Keyword, Lexer, Token};

fn ident(text: &str) -> Token {
    Token::Ident(text.to_string())
}

#[test]
fn tokens_of_a_select() {
    let tokens = Lexer::new("select * from users;").tokenize();
    assert_eq!(
        tokens,
        vec![
            Token::Keyword(Keyword::Select),
            ident("*"),
            Token::Keyword(Keyword::From),
            ident("users"),
            Token::Semicolon,
        ]
    );
}

#[test]
fn tokens_of_an_insert() {
    let tokens =
        Lexer::new("insert into users(id,email) values(1,'masoom@email.com');").tokenize();
    assert_eq!(
        tokens,
        vec![
            Token::Keyword(Keyword::Insert),
            Token::Keyword(Keyword::Into),
            ident("users"),
            Token::LParen,
            ident("id"),
            Token::Comma,
            ident("email"),
            Token::RParen,
            Token::Keyword(Keyword::Values),
            Token::LParen,
            Token::Number(1),
            Token::Comma,
            ident("masoom@email.com"),
            Token::RParen,
            Token::Semicolon,
        ]
    );
}

#[test]
fn keywords_in_any_case() {
    let tokens = Lexer::new("SeLeCt FROM where Group order LIMIT table Create").tokenize();
    assert_eq!(
        tokens,
        vec![
            Token::Keyword(Keyword::Select),
            Token::Keyword(Keyword::From),
            Token::Keyword(Keyword::Where),
            Token::Keyword(Keyword::GroupBy),
            Token::Keyword(Keyword::OrderBy),
            Token::Keyword(Keyword::Limit),
            Token::Keyword(Keyword::Table),
            Token::Keyword(Keyword::Create),
        ]
    );
}

#[test]
fn every_keyword_is_classified() {
    let words = [
        ("select", Keyword::Select),
        ("from", Keyword::From),
        ("where", Keyword::Where),
        ("insert", Keyword::Insert),
        ("update", Keyword::Update),
        ("delete", Keyword::Delete),
        ("create", Keyword::Create),
        ("and", Keyword::And),
        ("or", Keyword::Or),
        ("not", Keyword::Not),
        ("in", Keyword::In),
        ("like", Keyword::Like),
        ("join", Keyword::Join),
        ("on", Keyword::On),
        ("as", Keyword::As),
        ("into", Keyword::Into),
        ("group", Keyword::GroupBy),
        ("order", Keyword::OrderBy),
        ("limit", Keyword::Limit),
        ("values", Keyword::Values),
        ("table", Keyword::Table),
    ];
    for (word, keyword) in words {
        assert_eq!(Lexer::classify_token(word), Token::Keyword(keyword));
    }
    assert_eq!(Lexer::classify_token("set"), ident("set"));
    assert_eq!(Lexer::classify_token("Users"), ident("Users"));
}

#[test]
fn classify_upper_keeps_the_word_as_written() {
    assert_eq!(Lexer::classify_upper("NAME", "Name"), ident("Name"));
    assert_eq!(Lexer::classify_upper("SELECT", "name"), Token::Keyword(Keyword::Select));
}

#[test]
fn words_run_on_with_letters_digits_and_underscores() {
    let tokens = Lexer::new("user_1 _x é1 a-b").tokenize();
    assert_eq!(tokens, vec![ident("user_1"), ident("_x"), Token::Number(1), ident("a"), ident("b")]);
    let tokens = Lexer::new("aé9_ b").tokenize();
    assert_eq!(tokens, vec![ident("aé9_"), ident("b")]);
}

#[test]
fn numbers_and_numbers_too_large() {
    let tokens = Lexer::new("0 007 9223372036854775807 9223372036854775808 12a").tokenize();
    assert_eq!(
        tokens,
        vec![
            Token::Number(0),
            Token::Number(7),
            Token::Number(9223372036854775807),
            Token::Number(12),
            ident("a"),
        ]
    );
}

#[test]
fn quoted_text_is_an_identifier() {
    let tokens = Lexer::new("'a b' \"c;d\" 'open").tokenize();
    assert_eq!(tokens, vec![ident("a b"), ident("c;d"), ident("open")]);
    let tokens = Lexer::new("'mixed\" x").tokenize();
    assert_eq!(tokens, vec![ident("mixed"), ident("x")]);
    let tokens = Lexer::new("''").tokenize();
    assert_eq!(tokens, vec![ident("")]);
}

#[test]
fn operators_take_one_equals_sign_along() {
    let tokens = Lexer::new("= == >= <= != < > ! =>").tokenize();
    let op = |s: &str| Token::Operator(s.to_string());
    assert_eq!(
        tokens,
        vec![op("="), op("=="), op(">="), op("<="), op("!="), op("<"), op(">"), op("!"), op("="), op(">")]
    );
}

#[test]
fn whitespace_and_stray_characters_give_no_token() {
    assert!(Lexer::new("").tokenize().is_empty());
    assert!(Lexer::new(" \t\r\n ").tokenize().is_empty());
    assert_eq!(Lexer::new("a \u{a0}\u{2003}b").tokenize(), vec![ident("a"), ident("b")]);
    assert_eq!(Lexer::new("a\u{a0}b").tokenize(), vec![ident("a"), ident("b")]);
    assert_eq!(Lexer::new("# $ a % .").tokenize(), vec![ident("a")]);
    assert_eq!(Lexer::new("(,);").tokenize(), vec![Token::LParen, Token::Comma, Token::RParen, Token::Semicolon]);
}

#[test]
fn characters_and_texts() {
    assert_eq!(chars_of("aé b"), vec!['a', 'é', ' ', 'b']);
    assert_eq!(chars_of(""), Vec::<char>::new());
    let chars = chars_of("hello");
    assert_eq!(text_of(&chars, 1, 4), "ell");
    assert_eq!(text_of(&chars, 2, 2), "");
}

#[test]
fn texts_as_integers() {
    assert_eq!(parse_int("0"), Some(0));
    assert_eq!(parse_int("42"), Some(42));
    assert_eq!(parse_int("+42"), Some(42));
    assert_eq!(parse_int("-42"), Some(-42));
    assert_eq!(parse_int("-0"), Some(0));
    assert_eq!(parse_int("0012"), Some(12));
    assert_eq!(parse_int("9223372036854775807"), Some(i64::MAX));
    assert_eq!(parse_int("-9223372036854775808"), Some(i64::MIN));
    assert_eq!(parse_int("9223372036854775808"), None);
    assert_eq!(parse_int("-9223372036854775809"), None);
    assert_eq!(parse_int(""), None);
    assert_eq!(parse_int("+"), None);
    assert_eq!(parse_int("-"), None);
    assert_eq!(parse_int("1 "), None);
    assert_eq!(parse_int("--1"), None);
    assert_eq!(parse_int("12a"), None);
    assert_eq!(parse_int("١٢"), None);
    for text in ["7", "-7", "+7", "x", "", "99999999999999999999", "1-"] {
        assert_eq!(parse_int(text), text.parse::<i64>().ok());
    }
}

#[test]
fn characters_that_belong_to_no_token() {
    assert_eq!(Lexer::new("select * from t;").rejected(), Vec::<char>::new());
    assert_eq!(Lexer::new("a # b $% 'x#y' .").rejected(), vec!['#', '$', '%', '.']);
    assert_eq!(Lexer::new("a\u{a0}b é1 99999999999999999999").rejected(), vec!['\u{a0}', 'é']);
    assert_eq!(Lexer::new("").rejected(), Vec::<char>::new());
}
