//! The tokenizer: a statement's characters, read from left to right, as a
//! sequence of tokens.

use vstd::prelude::*;

verus! {

/// One token of a statement.
#[derive(Debug, Clone)]
pub enum Token {
    Ident(String),
    Keyword(Keyword),
    Operator(String),
    Number(i64),
    StringLiteral(String),
    Comma,
    Semicolon,
    LParen,
    RParen,
    Whitespace,
    EOF,
}

/// The reserved words.
#[derive(Debug, Clone, Copy, PartialEq, Eq, Structural)]
pub enum Keyword {
    Select,
    From,
    Where,
    Insert,
    Table,
    Into,
    Values,
    Update,
    Create,
    SetTo,
    Delete,
    And,
    Or,
    Not,
    In,
    Like,
    Join,
    On,
    As,
    GroupBy,
    OrderBy,
    Limit,
}

/// What a token is, with its text as a sequence of characters.
pub enum Lexeme {
    Ident(Seq<char>),
    Keyword(Keyword),
    Operator(Seq<char>),
    Number(i64),
    StringLiteral(Seq<char>),
    Comma,
    Semicolon,
    LParen,
    RParen,
    Whitespace,
    EOF,
}

impl View for Token {
    type V = Lexeme;

    open spec fn view(&self) -> Lexeme {
        match self {
            Token::Ident(s) => Lexeme::Ident(s@),
            Token::Keyword(k) => Lexeme::Keyword(*k),
            Token::Operator(s) => Lexeme::Operator(s@),
            Token::Number(n) => Lexeme::Number(*n),
            Token::StringLiteral(s) => Lexeme::StringLiteral(s@),
            Token::Comma => Lexeme::Comma,
            Token::Semicolon => Lexeme::Semicolon,
            Token::LParen => Lexeme::LParen,
            Token::RParen => Lexeme::RParen,
            Token::Whitespace => Lexeme::Whitespace,
            Token::EOF => Lexeme::EOF,
        }
    }
}

impl PartialEq for Token {
    fn eq(&self, other: &Self) -> (same: bool) {
        match (self, other) {
            (Token::Ident(a), Token::Ident(b)) => *a == *b,
            (Token::Keyword(a), Token::Keyword(b)) => *a == *b,
            (Token::Operator(a), Token::Operator(b)) => *a == *b,
            (Token::Number(a), Token::Number(b)) => *a == *b,
            (Token::StringLiteral(a), Token::StringLiteral(b)) => *a == *b,
            (Token::Comma, Token::Comma) => true,
            (Token::Semicolon, Token::Semicolon) => true,
            (Token::LParen, Token::LParen) => true,
            (Token::RParen, Token::RParen) => true,
            (Token::Whitespace, Token::Whitespace) => true,
            (Token::EOF, Token::EOF) => true,
            _ => false,
        }
    }
}

impl vstd::std_specs::cmp::PartialEqSpecImpl for Token {
    open spec fn obeys_eq_spec() -> bool {
        true
    }

    open spec fn eq_spec(&self, other: &Self) -> bool {
        self@ == other@
    }
}

/// The views of a run of tokens.
pub open spec fn lexemes(tokens: Seq<Token>) -> Seq<Lexeme> {
    tokens.map_values(|t: Token| t@)
}

/// Whether `char::is_whitespace` holds of a character: whether Unicode
/// counts it as white space.
pub uninterp spec fn whitespace(c: char) -> bool;

/// Whether `char::is_alphanumeric` holds of a character: whether it is a
/// letter or a number in Unicode's sense.
pub uninterp spec fn alphanumeric(c: char) -> bool;

/// What `str::to_uppercase` makes of a text: its uppercase form by
/// Unicode's rules.
pub uninterp spec fn uppercased(text: Seq<char>) -> Seq<char>;

/// `char::is_whitespace` of std: the result depends on the character
/// alone and is named `whitespace`.
pub assume_specification[ char::is_whitespace ](c: char) -> (space: bool)
    ensures
        space == whitespace(c),
;

/// `char::is_alphanumeric` of std: the result depends on the character
/// alone and is named `alphanumeric`.
pub assume_specification[ char::is_alphanumeric ](c: char) -> (alnum: bool)
    ensures
        alnum == alphanumeric(c),
;

/// `str::to_uppercase` of std: the result depends on the text alone and is
/// named `uppercased`.
pub assume_specification[ str::to_uppercase ](text: &str) -> (upper: std::string::String)
    ensures
        upper@ == uppercased(text@),
;

/// `String::push` of std appends one character.
pub assume_specification[ std::string::String::push ](text: &mut std::string::String, c: char)
    ensures
        final(text)@ == old(text)@.push(c),
;

/// `==` on `str` of std holds of two texts with the same characters.
pub assume_specification[ <str as PartialEq>::eq ](a: &str, b: &str) -> (same: bool)
    ensures
        same == (a@ == b@),
;

/// The kinds of character that a token can run on with.
#[derive(Debug, Clone, Copy, PartialEq, Eq, Structural)]
pub enum CharClass {
    /// Whitespace, in Unicode's sense.
    Space,
    /// A letter or number, in Unicode's sense, or an underscore.
    Word,
    /// An ASCII digit.
    Digit,
    /// Anything but a quote.
    Quoted,
}

/// `c` can open a run of whitespace.
pub open spec fn opens_space(c: char) -> bool {
    c == ' ' || c == '\t' || c == '\n' || c == '\r'
}

/// `c` can open a word: an ASCII letter, an underscore or a star.
pub open spec fn opens_word(c: char) -> bool {
    ('a' <= c && c <= 'z') || ('A' <= c && c <= 'Z') || c == '_' || c == '*'
}

/// `c` is an ASCII digit.
pub open spec fn is_digit(c: char) -> bool {
    '0' <= c && c <= '9'
}

/// `c` is a single or a double quote.
pub open spec fn is_quote(c: char) -> bool {
    c == '\'' || c == '"'
}

/// `c` can open an operator.
pub open spec fn opens_operator(c: char) -> bool {
    c == '=' || c == '>' || c == '<' || c == '!'
}

/// `c` belongs to `class`.
pub open spec fn in_class(class: CharClass, c: char) -> bool {
    match class {
        CharClass::Space => whitespace(c),
        CharClass::Word => alphanumeric(c) || c == '_',
        CharClass::Digit => is_digit(c),
        CharClass::Quoted => !is_quote(c),
    }
}

/// Where the run of characters of `class` that starts at `from` ends: the
/// first position at or after `from` whose character is not of the class,
/// or the end of the text.
pub open spec fn run_end(text: Seq<char>, from: int, class: CharClass) -> int
    decreases text.len() - from,
{
    if 0 <= from < text.len() && in_class(class, text[from]) {
        run_end(text, from + 1, class)
    } else {
        from
    }
}

/// The number that a run of ASCII digits writes in base ten.
pub open spec fn decimal(digits: Seq<char>) -> int
    decreases digits.len(),
{
    if digits.len() == 0 {
        0
    } else {
        decimal(digits.drop_last()) * 10 + (digits.last() as int - '0' as int)
    }
}

/// The keyword that an uppercase word spells, if any.
pub open spec fn keyword_of(upper: Seq<char>) -> Option<Keyword> {
    if upper == "SELECT"@ {
        Some(Keyword::Select)
    } else if upper == "FROM"@ {
        Some(Keyword::From)
    } else if upper == "WHERE"@ {
        Some(Keyword::Where)
    } else if upper == "INSERT"@ {
        Some(Keyword::Insert)
    } else if upper == "UPDATE"@ {
        Some(Keyword::Update)
    } else if upper == "DELETE"@ {
        Some(Keyword::Delete)
    } else if upper == "CREATE"@ {
        Some(Keyword::Create)
    } else if upper == "AND"@ {
        Some(Keyword::And)
    } else if upper == "OR"@ {
        Some(Keyword::Or)
    } else if upper == "NOT"@ {
        Some(Keyword::Not)
    } else if upper == "IN"@ {
        Some(Keyword::In)
    } else if upper == "LIKE"@ {
        Some(Keyword::Like)
    } else if upper == "JOIN"@ {
        Some(Keyword::Join)
    } else if upper == "ON"@ {
        Some(Keyword::On)
    } else if upper == "AS"@ {
        Some(Keyword::As)
    } else if upper == "INTO"@ {
        Some(Keyword::Into)
    } else if upper == "GROUP"@ {
        Some(Keyword::GroupBy)
    } else if upper == "ORDER"@ {
        Some(Keyword::OrderBy)
    } else if upper == "LIMIT"@ {
        Some(Keyword::Limit)
    } else if upper == "VALUES"@ {
        Some(Keyword::Values)
    } else if upper == "TABLE"@ {
        Some(Keyword::Table)
    } else {
        None
    }
}

/// The token that a word is, given its uppercase form: a keyword where
/// the uppercase form spells one, and else an identifier with the word as
/// it was written.
pub open spec fn classified(upper: Seq<char>, word: Seq<char>) -> Lexeme {
    match keyword_of(upper) {
        Some(keyword) => Lexeme::Keyword(keyword),
        None => Lexeme::Ident(word),
    }
}

/// The token, if any, that starts at `from`, and where the scan goes on
/// after it. Whitespace and characters that open no token give none; so
/// does a number too large for an `i64`.
pub open spec fn token_at(text: Seq<char>, from: int) -> (Option<Lexeme>, int) {
    let c = text[from];
    if opens_space(c) {
        (None, run_end(text, from + 1, CharClass::Space))
    } else if opens_word(c) {
        let end = run_end(text, from + 1, CharClass::Word);
        let word = text.subrange(from, end);
        (Some(classified(uppercased(word), word)), end)
    } else if is_digit(c) {
        let end = run_end(text, from + 1, CharClass::Digit);
        let value = decimal(text.subrange(from, end));
        (
            if value <= i64::MAX {
                Some(Lexeme::Number(value as i64))
            } else {
                None
            },
            end,
        )
    } else if is_quote(c) {
        let end = run_end(text, from + 1, CharClass::Quoted);
        (
            Some(Lexeme::Ident(text.subrange(from + 1, end))),
            if end < text.len() {
                end + 1
            } else {
                end
            },
        )
    } else if opens_operator(c) {
        let end = if from + 1 < text.len() && text[from + 1] == '=' {
            from + 2
        } else {
            from + 1
        };
        (Some(Lexeme::Operator(text.subrange(from, end))), end)
    } else if c == ',' {
        (Some(Lexeme::Comma), from + 1)
    } else if c == ';' {
        (Some(Lexeme::Semicolon), from + 1)
    } else if c == '(' {
        (Some(Lexeme::LParen), from + 1)
    } else if c == ')' {
        (Some(Lexeme::RParen), from + 1)
    } else {
        (None, from + 1)
    }
}

/// The tokens of `text` from position `from` on.
pub open spec fn lex(text: Seq<char>, from: int) -> Seq<Lexeme>
    decreases text.len() - from,
{
    if 0 <= from < text.len() {
        let next = token_at(text, from).1;
        let rest = if from < next <= text.len() {
            lex(text, next)
        } else {
            Seq::empty()
        };
        match token_at(text, from).0 {
            Some(t) => seq![t] + rest,
            None => rest,
        }
    } else {
        Seq::empty()
    }
}

/// `c` opens a token or a run of whitespace.
pub open spec fn opens_token(c: char) -> bool {
    opens_space(c) || opens_word(c) || is_digit(c) || is_quote(c) || opens_operator(c) || c == ',' || c
        == ';' || c == '(' || c == ')'
}

/// The characters of `text` from position `from` on that stand outside
/// every token and every run of whitespace.
pub open spec fn strays(text: Seq<char>, from: int) -> Seq<char>
    decreases text.len() - from,
{
    if 0 <= from < text.len() {
        let next = token_at(text, from).1;
        let rest = if from < next <= text.len() {
            strays(text, next)
        } else {
            Seq::empty()
        };
        if opens_token(text[from]) {
            rest
        } else {
            seq![text[from]] + rest
        }
    } else {
        Seq::empty()
    }
}

/// A run ends at or after its start and within the text.
pub proof fn lemma_run_end_bounds(text: Seq<char>, from: int, class: CharClass)
    requires
        0 <= from <= text.len(),
    ensures
        from <= run_end(text, from, class) <= text.len(),
    decreases text.len() - from,
{
    if from < text.len() && in_class(class, text[from]) {
        lemma_run_end_bounds(text, from + 1, class);
    }
}

/// A token takes up at least one character and ends within the text.
pub proof fn lemma_token_advances(text: Seq<char>, from: int)
    requires
        0 <= from < text.len(),
    ensures
        from < token_at(text, from).1 <= text.len(),
{
    lemma_run_end_bounds(text, from + 1, CharClass::Space);
    lemma_run_end_bounds(text, from + 1, CharClass::Word);
    lemma_run_end_bounds(text, from + 1, CharClass::Digit);
    lemma_run_end_bounds(text, from + 1, CharClass::Quoted);
}

/// The characters of a text, one by one.
pub fn chars_of(text: &str) -> (chars: Vec<char>)
    ensures
        chars@ == text@,
{
    let mut chars: Vec<char> = Vec::new();
    for c in it: text.chars()
        invariant
            it.seq() == text@,
            chars@ == text@.subrange(0, it.index() as int),
    {
        chars.push(c);
        proof {
            assert(text@.subrange(0, it.index() + 1) =~= text@.subrange(0, it.index() as int).push(c));
        }
    }
    proof {
        assert(text@.subrange(0, text@.len() as int) =~= text@);
    }
    chars
}

/// The text made of the characters from `from` up to `to`.
pub fn text_of(chars: &Vec<char>, from: usize, to: usize) -> (text: String)
    requires
        from <= to <= chars@.len(),
    ensures
        text@ == chars@.subrange(from as int, to as int),
{
    let mut text = String::new();
    let mut i: usize = from;
    while i < to
        invariant
            from <= i <= to <= chars@.len(),
            text@ == chars@.subrange(from as int, i as int),
        decreases to - i,
    {
        text.push(chars[i]);
        proof {
            assert(chars@.subrange(from as int, i + 1) =~= chars@.subrange(from as int, i as int).push(
                chars@[i as int],
            ));
        }
        i += 1;
    }
    text
}

/// Whether `c` belongs to `class`.
pub fn char_in_class(class: CharClass, c: char) -> (inside: bool)
    ensures
        inside == in_class(class, c),
{
    match class {
        CharClass::Space => c.is_whitespace(),
        CharClass::Word => c.is_alphanumeric() || c == '_',
        CharClass::Digit => c >= '0' && c <= '9',
        CharClass::Quoted => !(c == '\'' || c == '"'),
    }
}

/// Where the run of characters of `class` that starts at `from` ends.
pub fn scan_run(chars: &Vec<char>, from: usize, class: CharClass) -> (end: usize)
    requires
        from <= chars@.len(),
    ensures
        end == run_end(chars@, from as int, class),
        from <= end <= chars@.len(),
{
    let mut end: usize = from;
    while end < chars.len() && char_in_class(class, chars[end])
        invariant
            from <= end <= chars@.len(),
            run_end(chars@, end as int, class) == run_end(chars@, from as int, class),
        decreases chars@.len() - end,
    {
        end += 1;
    }
    end
}

/// The value of the run of digits from `from` up to `to`, if an `i64`
/// can hold it.
pub fn number_of(chars: &Vec<char>, from: usize, to: usize) -> (value: Option<i64>)
    requires
        from <= to <= chars@.len(),
        forall|i: int| from <= i < to ==> is_digit(#[trigger] chars@[i]),
    ensures
        match value {
            Some(n) => n == decimal(chars@.subrange(from as int, to as int)),
            None => decimal(chars@.subrange(from as int, to as int)) > i64::MAX,
        },
{
    let mut value: i64 = 0;
    let mut i: usize = from;
    while i < to
        invariant
            from <= i <= to <= chars@.len(),
            forall|j: int| from <= j < to ==> is_digit(#[trigger] chars@[j]),
            0 <= value,
            value == decimal(chars@.subrange(from as int, i as int)),
        decreases to - i,
    {
        let c = chars[i];
        let digit: i64 = ((c as u32) - ('0' as u32)) as i64;
        proof {
            assert(is_digit(chars@[i as int]));
            assert(chars@.subrange(from as int, i
                + 1).drop_last() =~= chars@.subrange(from as int, i as int));
            lemma_decimal_grows(chars@, from as int, i + 1, to as int);
        }
        let scaled = match value.checked_mul(10) {
            Some(s) => s,
            None => { return None; },
        };
        value = match scaled.checked_add(digit) {
            Some(s) => s,
            None => { return None; },
        };
        i += 1;
    }
    Some(value)
}

/// Every character of `text` is an ASCII digit.
pub open spec fn all_digits(text: Seq<char>) -> bool {
    forall|i: int| 0 <= i < text.len() ==> is_digit(#[trigger] text[i])
}

/// A text without the sign that it may open with.
pub open spec fn unsigned_part(text: Seq<char>) -> Seq<char> {
    if text.len() > 0 && (text[0] == '-' || text[0] == '+') {
        text.drop_first()
    } else {
        text
    }
}

/// The number that a text writes: ASCII digits, at least one, after at
/// most one sign, if an `i64` can hold it.
pub open spec fn int_of(text: Seq<char>) -> Option<i64> {
    let digits = unsigned_part(text);
    let value = if text.len() > 0 && text[0] == '-' {
        -decimal(digits)
    } else {
        decimal(digits)
    };
    if digits.len() > 0 && all_digits(digits) && i64::MIN <= value <= i64::MAX {
        Some(value as i64)
    } else {
        None
    }
}

/// The negative of the value of the run of digits from `from` up to `to`,
/// if an `i64` can hold it.
pub fn negative_number_of(chars: &Vec<char>, from: usize, to: usize) -> (value: Option<i64>)
    requires
        from <= to <= chars@.len(),
        forall|i: int| from <= i < to ==> is_digit(#[trigger] chars@[i]),
    ensures
        match value {
            Some(n) => n == -decimal(chars@.subrange(from as int, to as int)),
            None => -decimal(chars@.subrange(from as int, to as int)) < i64::MIN,
        },
{
    let mut value: i64 = 0;
    let mut i: usize = from;
    while i < to
        invariant
            from <= i <= to <= chars@.len(),
            forall|j: int| from <= j < to ==> is_digit(#[trigger] chars@[j]),
            value <= 0,
            value == -decimal(chars@.subrange(from as int, i as int)),
        decreases to - i,
    {
        let c = chars[i];
        let digit: i64 = ((c as u32) - ('0' as u32)) as i64;
        proof {
            assert(is_digit(chars@[i as int]));
            assert(chars@.subrange(from as int, i
                + 1).drop_last() =~= chars@.subrange(from as int, i as int));
            lemma_decimal_grows(chars@, from as int, i + 1, to as int);
        }
        let scaled = match value.checked_mul(10) {
            Some(s) => s,
            None => { return None; },
        };
        value = match scaled.checked_sub(digit) {
            Some(s) => s,
            None => { return None; },
        };
        i += 1;
    }
    Some(value)
}

/// The number that a text writes, if it writes one: as `str::parse` reads
/// an `i64`.
pub fn parse_int(text: &str) -> (value: Option<i64>)
    ensures
        value == int_of(text@),
{
    let chars = chars_of(text);
    if chars.len() == 0 {
        return None;
    }
    let negative = chars[0] == '-';
    let start: usize = if chars[0] == '-' || chars[0] == '+' {
        1
    } else {
        0
    };
    let ghost digits = unsigned_part(text@);
    proof {
        assert(digits =~= chars@.subrange(start as int, chars@.len() as int));
    }
    if start == chars.len() {
        return None;
    }
    let mut i: usize = start;
    while i < chars.len()
        invariant
            start <= i <= chars@.len(),
            digits == unsigned_part(text@),
            digits == chars@.subrange(start as int, chars@.len() as int),
            forall|j: int| start <= j < i ==> is_digit(#[trigger] chars@[j]),
        decreases chars@.len() - i,
    {
        if !(chars[i] >= '0' && chars[i] <= '9') {
            proof {
                assert(!is_digit(digits[i - start]));
                assert(!all_digits(digits));
            }
            return None;
        }
        i += 1;
    }
    proof {
        assert forall|j: int| 0 <= j < digits.len() implies is_digit(#[trigger] digits[j]) by {
            assert(digits[j] == chars@[start + j]);
        }
        assert(all_digits(digits));
        lemma_decimal_grows(chars@, start as int, start as int, chars@.len() as int);
    }
    if negative {
        negative_number_of(&chars, start, chars.len())
    } else {
        number_of(&chars, start, chars.len())
    }
}

/// More digits never write a smaller number.
pub proof fn lemma_decimal_grows(text: Seq<char>, from: int, mid: int, to: int)
    requires
        0 <= from <= mid <= to <= text.len(),
        forall|i: int| from <= i < to ==> is_digit(#[trigger] text[i]),
    ensures
        0 <= decimal(text.subrange(from, mid)) <= decimal(text.subrange(from, to)),
    decreases to - from,
{
    if from < to {
        assert(text.subrange(from, to).drop_last() =~= text.subrange(from, to - 1));
        assert(is_digit(text[to - 1]));
        if mid < to {
            lemma_decimal_grows(text, from, mid, to - 1);
        } else {
            lemma_decimal_grows(text, from, from, to - 1);
        }
    } else {
        assert(text.subrange(from, mid) =~= Seq::<char>::empty());
    }
}

/// Every character of a run belongs to the run's class.
pub proof fn lemma_run_members(text: Seq<char>, from: int, class: CharClass)
    requires
        0 <= from <= text.len(),
    ensures
        forall|i: int| from <= i < run_end(text, from, class) ==> in_class(class, #[trigger] text[i]),
    decreases text.len() - from,
{
    if from < text.len() && in_class(class, text[from]) {
        lemma_run_members(text, from + 1, class);
    }
}

/// Splits the text of a statement into tokens.
pub struct Lexer {
    input: String,
}

impl View for Lexer {
    type V = Seq<char>;

    closed spec fn view(&self) -> Seq<char> {
        self.input@
    }
}

impl Lexer {
    /// The token that a word is, given its uppercase form.
    pub fn classify_upper(upper: &str, word: &str) -> (token: Token)
        ensures
            token@ == classified(upper@, word@),
    {
        if upper.eq("SELECT") {
            Token::Keyword(Keyword::Select)
        } else if upper.eq("FROM") {
            Token::Keyword(Keyword::From)
        } else if upper.eq("WHERE") {
            Token::Keyword(Keyword::Where)
        } else if upper.eq("INSERT") {
            Token::Keyword(Keyword::Insert)
        } else if upper.eq("UPDATE") {
            Token::Keyword(Keyword::Update)
        } else if upper.eq("DELETE") {
            Token::Keyword(Keyword::Delete)
        } else if upper.eq("CREATE") {
            Token::Keyword(Keyword::Create)
        } else if upper.eq("AND") {
            Token::Keyword(Keyword::And)
        } else if upper.eq("OR") {
            Token::Keyword(Keyword::Or)
        } else if upper.eq("NOT") {
            Token::Keyword(Keyword::Not)
        } else if upper.eq("IN") {
            Token::Keyword(Keyword::In)
        } else if upper.eq("LIKE") {
            Token::Keyword(Keyword::Like)
        } else if upper.eq("JOIN") {
            Token::Keyword(Keyword::Join)
        } else if upper.eq("ON") {
            Token::Keyword(Keyword::On)
        } else if upper.eq("AS") {
            Token::Keyword(Keyword::As)
        } else if upper.eq("INTO") {
            Token::Keyword(Keyword::Into)
        } else if upper.eq("GROUP") {
            Token::Keyword(Keyword::GroupBy)
        } else if upper.eq("ORDER") {
            Token::Keyword(Keyword::OrderBy)
        } else if upper.eq("LIMIT") {
            Token::Keyword(Keyword::Limit)
        } else if upper.eq("VALUES") {
            Token::Keyword(Keyword::Values)
        } else if upper.eq("TABLE") {
            Token::Keyword(Keyword::Table)
        } else {
            Token::Ident(word.to_string())
        }
    }

    /// The token that a word is: a keyword, whatever its case, or an
    /// identifier.
    pub fn classify_token(token: &str) -> (classified_token: Token)
        ensures
            classified_token@ == classified(uppercased(token@), token@),
    {
        let upper = token.to_uppercase();
        Self::classify_upper(upper.as_str(), token)
    }

    /// The tokens of the statement, from left to right.
    pub fn tokenize(&self) -> (tokens: Vec<Token>)
        ensures
            lexemes(tokens@) == lex(self@, 0),
    {
        let chars = chars_of(self.input.as_str());
        let mut tokens: Vec<Token> = Vec::new();
        let mut i: usize = 0;
        proof {
            assert(lexemes(tokens@) =~= Seq::<Lexeme>::empty());
        }
        while i < chars.len()
            invariant
                i <= chars@.len(),
                chars@ == self.input@,
                lexemes(tokens@) + lex(chars@, i as int) == lex(chars@, 0),
            decreases chars@.len() - i,
        {
            let c = chars[i];
            let ghost before = tokens@;
            let ghost start = i as int;
            proof {
                lemma_token_advances(chars@, start);
            }
            if c == ' ' || c == '\t' || c == '\n' || c == '\r' {
                i = scan_run(&chars, i + 1, CharClass::Space);
            } else if (c >= 'a' && c <= 'z') || (c >= 'A' && c <= 'Z') || c == '_' || c == '*' {
                let end = scan_run(&chars, i + 1, CharClass::Word);
                let word = text_of(&chars, i, end);
                tokens.push(Self::classify_token(word.as_str()));
                i = end;
            } else if c >= '0' && c <= '9' {
                let end = scan_run(&chars, i + 1, CharClass::Digit);
                proof {
                    lemma_run_members(chars@, start + 1, CharClass::Digit);
                }
                if let Some(number) = number_of(&chars, i, end) {
                    tokens.push(Token::Number(number));
                }
                i = end;
            } else if c == '\'' || c == '"' {
                let end = scan_run(&chars, i + 1, CharClass::Quoted);
                tokens.push(Token::Ident(text_of(&chars, i + 1, end)));
                i = if end < chars.len() {
                    end + 1
                } else {
                    end
                };
            } else if c == '=' || c == '>' || c == '<' || c == '!' {
                let end = if i + 1 < chars.len() && chars[i + 1] == '=' {
                    i + 2
                } else {
                    i + 1
                };
                tokens.push(Token::Operator(text_of(&chars, i, end)));
                i = end;
            } else if c == ',' {
                tokens.push(Token::Comma);
                i += 1;
            } else if c == ';' {
                tokens.push(Token::Semicolon);
                i += 1;
            } else if c == '(' {
                tokens.push(Token::LParen);
                i += 1;
            } else if c == ')' {
                tokens.push(Token::RParen);
                i += 1;
            } else {
                i += 1;
            }
            proof {
                let found = token_at(chars@, start).0;
                assert(i == token_at(chars@, start).1);
                match found {
                    Some(t) => {
                        assert(tokens@ == before.push(tokens@.last()));
                        assert(tokens@.last()@ == t);
                        assert(lexemes(tokens@) =~= lexemes(before) + seq![t]);
                        assert(lex(chars@, start) == seq![t] + lex(chars@, i as int));
                        assert(lexemes(tokens@) + lex(chars@, i as int) =~= lexemes(before)
                            + lex(chars@, start));
                    },
                    None => {
                        assert(tokens@ == before);
                    },
                }
            }
        }
        proof {
            assert(lexemes(tokens@) + lex(chars@, i as int) =~= lexemes(tokens@));
        }
        tokens
    }

    /// The characters of the statement that belong to no token, from left
    /// to right: `tokenize` passes over them.
    pub fn rejected(&self) -> (chars_left: Vec<char>)
        ensures
            chars_left@ == strays(self@, 0),
    {
        let chars = chars_of(self.input.as_str());
        let mut left: Vec<char> = Vec::new();
        let mut i: usize = 0;
        while i < chars.len()
            invariant
                i <= chars@.len(),
                chars@ == self.input@,
                left@ + strays(chars@, i as int) == strays(chars@, 0),
            decreases chars@.len() - i,
        {
            let c = chars[i];
            let ghost before = left@;
            let ghost start = i as int;
            proof {
                lemma_token_advances(chars@, start);
            }
            if c == ' ' || c == '\t' || c == '\n' || c == '\r' {
                i = scan_run(&chars, i + 1, CharClass::Space);
            } else if (c >= 'a' && c <= 'z') || (c >= 'A' && c <= 'Z') || c == '_' || c == '*' {
                i = scan_run(&chars, i + 1, CharClass::Word);
            } else if c >= '0' && c <= '9' {
                i = scan_run(&chars, i + 1, CharClass::Digit);
            } else if c == '\'' || c == '"' {
                let end = scan_run(&chars, i + 1, CharClass::Quoted);
                i = if end < chars.len() {
                    end + 1
                } else {
                    end
                };
            } else if c == '=' || c == '>' || c == '<' || c == '!' {
                i = if i + 1 < chars.len() && chars[i + 1] == '=' {
                    i + 2
                } else {
                    i + 1
                };
            } else if c == ',' || c == ';' || c == '(' || c == ')' {
                i += 1;
            } else {
                left.push(c);
                i += 1;
                proof {
                    assert(left@ + strays(chars@, i as int) =~= before + strays(chars@, start));
                }
            }
        }
        proof {
            assert(left@ + strays(chars@, i as int) =~= left@);
        }
        left
    }

    /// A tokenizer for the text `input`.
    pub fn new(input: &str) -> (lexer: Self)
        ensures
            lexer@ == input@,
    {
        Self { input: input.to_string() }
    }
}

} // verus!
