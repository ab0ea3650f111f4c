//! The values that rows hold and that tables are keyed by, and their order.

use crate::engine::order::{exact_clone, total_order};
use crate::parser::lexer::chars_of;
use std::cmp::Ordering;
use vstd::prelude::*;
use vstd::std_specs::cmp::PartialEqSpecImpl;
use vstd::std_specs::cmp::PartialOrdSpecImpl;

verus! {

/// A value with its text as a sequence of characters.
pub enum Datum {
    Int(i64),
    Text(Seq<char>),
}

/// A value of a row: a number or a text.
#[derive(Debug, Eq, Ord)]
pub enum DataType {
    Int(i64),
    Text(String),
}

impl View for DataType {
    type V = Datum;

    open spec fn view(&self) -> Datum {
        match self {
            DataType::Int(n) => Datum::Int(*n),
            DataType::Text(s) => Datum::Text(s@),
        }
    }
}

/// `a` comes before `b` in the order of texts: at the first position at
/// which they differ `a` has the lesser character, or `a` ends there and
/// `b` goes on.
pub open spec fn text_lt(a: Seq<char>, b: Seq<char>) -> bool
    decreases a.len(),
{
    if b.len() == 0 {
        false
    } else if a.len() == 0 {
        true
    } else if a[0] != b[0] {
        a[0] < b[0]
    } else {
        text_lt(a.drop_first(), b.drop_first())
    }
}

/// `a` comes before `b`: numbers before texts, numbers by their value,
/// texts in the order of texts.
pub open spec fn datum_lt(a: Datum, b: Datum) -> bool {
    match (a, b) {
        (Datum::Int(x), Datum::Int(y)) => x < y,
        (Datum::Int(_), Datum::Text(_)) => true,
        (Datum::Text(_), Datum::Int(_)) => false,
        (Datum::Text(s), Datum::Text(t)) => text_lt(s, t),
    }
}

/// Whether `a` comes before `b` in the order of texts.
pub fn text_before(a: &String, b: &String) -> (before: bool)
    ensures
        before == text_lt(a@, b@),
{
    let x = chars_of(a.as_str());
    let y = chars_of(b.as_str());
    let mut i: usize = 0;
    proof {
        assert(x@.subrange(0, x@.len() as int) =~= x@);
        assert(y@.subrange(0, y@.len() as int) =~= y@);
    }
    while i < x.len() && i < y.len()
        invariant
            i <= x@.len(),
            i <= y@.len(),
            x@ == a@,
            y@ == b@,
            text_lt(x@.subrange(i as int, x@.len() as int), y@.subrange(i as int, y@.len() as int))
                == text_lt(
                x@,
                y@,
            ),
        decreases x@.len() - i,
    {
        let ghost rest_x = x@.subrange(i as int, x@.len() as int);
        let ghost rest_y = y@.subrange(i as int, y@.len() as int);
        proof {
            assert(rest_x[0] == x@[i as int]);
            assert(rest_y[0] == y@[i as int]);
            assert(rest_x.drop_first() =~= x@.subrange(i + 1, x@.len() as int));
            assert(rest_y.drop_first() =~= y@.subrange(i + 1, y@.len() as int));
        }
        if x[i] != y[i] {
            return x[i] < y[i];
        }
        i += 1;
    }
    i < y.len()
}

/// The character of a digit.
pub open spec fn digit_char(d: int) -> char {
    if d == 0 {
        '0'
    } else if d == 1 {
        '1'
    } else if d == 2 {
        '2'
    } else if d == 3 {
        '3'
    } else if d == 4 {
        '4'
    } else if d == 5 {
        '5'
    } else if d == 6 {
        '6'
    } else if d == 7 {
        '7'
    } else if d == 8 {
        '8'
    } else {
        '9'
    }
}

/// How a number that is not negative reads in base ten, without leading
/// zeros.
pub open spec fn nat_display(m: nat) -> Seq<char>
    decreases m,
{
    if m < 10 {
        seq![digit_char(m as int)]
    } else {
        nat_display(m / 10).push(digit_char((m % 10) as int))
    }
}

/// How a number reads in base ten: a minus sign before a negative number,
/// and no leading zeros.
pub open spec fn int_display(n: int) -> Seq<char> {
    if n < 0 {
        seq!['-'] + nat_display((-n) as nat)
    } else {
        nat_display(n as nat)
    }
}

/// Appends to `text` how `m` reads in base ten.
fn push_nat(text: &mut String, m: u64)
    ensures
        final(text)@ == old(text)@ + nat_display(m as nat),
    decreases m,
{
    if m >= 10 {
        push_nat(text, m / 10);
    }
    let d = m % 10;
    let c = if d == 0 {
        '0'
    } else if d == 1 {
        '1'
    } else if d == 2 {
        '2'
    } else if d == 3 {
        '3'
    } else if d == 4 {
        '4'
    } else if d == 5 {
        '5'
    } else if d == 6 {
        '6'
    } else if d == 7 {
        '7'
    } else if d == 8 {
        '8'
    } else {
        '9'
    };
    text.push(c);
    proof {
        assert(final(text)@ =~= old(text)@ + nat_display(m as nat));
    }
}

/// How a number reads in base ten.
pub fn display_int(n: i64) -> (text: String)
    ensures
        text@ == int_display(n as int),
{
    let mut text = String::new();
    let magnitude: u64 = if n < 0 {
        text.push('-');
        ((-(n + 1)) as u64) + 1
    } else {
        n as u64
    };
    push_nat(&mut text, magnitude);
    proof {
        if n < 0 {
            assert(text@ =~= seq!['-'] + nat_display((-n) as nat));
        } else {
            assert(text@ =~= nat_display(n as nat));
        }
    }
    text
}

/// How a value reads when it is shown.
pub open spec fn datum_display(value: Datum) -> Seq<char> {
    match value {
        Datum::Int(n) => int_display(n as int),
        Datum::Text(s) => s,
    }
}

impl DataType {
    /// The value as a text to show: a number as it is written, a text as
    /// it is.
    pub fn get_value(&self) -> (text: String)
        ensures
            text@ == datum_display(self@),
    {
        match self {
            DataType::Int(val) => display_int(*val),
            DataType::Text(val) => val.clone(),
        }
    }
}

impl Clone for DataType {
    fn clone(&self) -> (copy: Self)
        ensures
            copy == *self,
    {
        match self {
            DataType::Int(n) => DataType::Int(*n),
            DataType::Text(s) => DataType::Text(s.clone()),
        }
    }
}

impl Default for DataType {
    fn default() -> (value: Self)
        ensures
            value == DataType::Int(0),
    {
        DataType::Int(0)
    }
}

impl PartialEq for DataType {
    fn eq(&self, other: &Self) -> (same: bool) {
        match (self, other) {
            (DataType::Int(a), DataType::Int(b)) => *a == *b,
            (DataType::Text(a), DataType::Text(b)) => *a == *b,
            _ => false,
        }
    }
}

impl PartialEqSpecImpl for DataType {
    open spec fn obeys_eq_spec() -> bool {
        true
    }

    open spec fn eq_spec(&self, other: &Self) -> bool {
        self@ == other@
    }
}

impl PartialOrd for DataType {
    fn partial_cmp(&self, other: &Self) -> (order: Option<Ordering>) {
        match (self, other) {
            (DataType::Int(a), DataType::Int(b)) => if *a < *b {
                Some(Ordering::Less)
            } else if *a == *b {
                Some(Ordering::Equal)
            } else {
                Some(Ordering::Greater)
            },
            (DataType::Int(_), DataType::Text(_)) => Some(Ordering::Less),
            (DataType::Text(_), DataType::Int(_)) => Some(Ordering::Greater),
            (DataType::Text(a), DataType::Text(b)) => if *a == *b {
                Some(Ordering::Equal)
            } else if text_before(a, b) {
                Some(Ordering::Less)
            } else {
                Some(Ordering::Greater)
            },
        }
    }
}

impl PartialOrdSpecImpl for DataType {
    open spec fn obeys_partial_cmp_spec() -> bool {
        true
    }

    open spec fn partial_cmp_spec(&self, other: &Self) -> Option<Ordering> {
        if self@ == other@ {
            Some(Ordering::Equal)
        } else if datum_lt(self@, other@) {
            Some(Ordering::Less)
        } else {
            Some(Ordering::Greater)
        }
    }
}

/// No text comes before itself.
pub proof fn lemma_text_lt_irreflexive(a: Seq<char>)
    ensures
        !text_lt(a, a),
    decreases a.len(),
{
    if a.len() > 0 {
        lemma_text_lt_irreflexive(a.drop_first());
    }
}

/// Of two different texts one comes before the other.
pub proof fn lemma_text_lt_total(a: Seq<char>, b: Seq<char>)
    ensures
        a == b || text_lt(a, b) || text_lt(b, a),
    decreases a.len(),
{
    if a.len() == 0 || b.len() == 0 {
        if a.len() == 0 && b.len() == 0 {
            assert(a =~= b);
        }
    } else if a[0] == b[0] {
        lemma_text_lt_total(a.drop_first(), b.drop_first());
        if a.drop_first() == b.drop_first() {
            assert(a =~= seq![a[0]] + a.drop_first());
            assert(b =~= seq![b[0]] + b.drop_first());
        }
    }
}

/// A text that comes before another does not come after it.
pub proof fn lemma_text_lt_asymmetric(a: Seq<char>, b: Seq<char>)
    requires
        text_lt(a, b),
    ensures
        !text_lt(b, a),
        a != b,
    decreases a.len(),
{
    lemma_text_lt_irreflexive(a);
    if a.len() > 0 && b.len() > 0 && a[0] == b[0] {
        lemma_text_lt_asymmetric(a.drop_first(), b.drop_first());
    }
}

/// The order of texts is transitive.
pub proof fn lemma_text_lt_transitive(a: Seq<char>, b: Seq<char>, c: Seq<char>)
    requires
        text_lt(a, b),
        text_lt(b, c),
    ensures
        text_lt(a, c),
    decreases a.len(),
{
    if a.len() > 0 && b.len() > 0 && c.len() > 0 {
        if a[0] == b[0] && b[0] == c[0] {
            lemma_text_lt_transitive(a.drop_first(), b.drop_first(), c.drop_first());
        }
    }
}

/// The order of values is a strict total order.
pub proof fn lemma_datum_order(a: Datum, b: Datum, c: Datum)
    ensures
        !datum_lt(a, a),
        datum_lt(a, b) ==> !datum_lt(b, a) && a != b,
        a == b || datum_lt(a, b) || datum_lt(b, a),
        datum_lt(a, b) && datum_lt(b, c) ==> datum_lt(a, c),
{
    match (a, b) {
        (Datum::Text(s), Datum::Text(t)) => {
            lemma_text_lt_irreflexive(s);
            lemma_text_lt_total(s, t);
            if text_lt(s, t) {
                lemma_text_lt_asymmetric(s, t);
            }
            if let Datum::Text(u) = c {
                if text_lt(s, t) && text_lt(t, u) {
                    lemma_text_lt_transitive(s, t, u);
                }
            }
        },
        (Datum::Text(s), _) => {
            lemma_text_lt_irreflexive(s);
        },
        _ => {},
    }
}

/// `DataType` is ordered as the tree asks of its keys.
pub proof fn lemma_data_type_total_order()
    ensures
        total_order::<DataType>(),
{
    reveal(total_order);
    assert forall|a: DataType, b: DataType, c: DataType|
        true implies {
            &&& !datum_lt(#[trigger] a@, a@)
            &&& datum_lt(a@, #[trigger] b@) ==> !datum_lt(b@, a@) && a@ != b@
            &&& (a@ == b@ || datum_lt(a@, b@) || datum_lt(b@, a@))
            &&& datum_lt(a@, b@) && datum_lt(b@, #[trigger] c@) ==> datum_lt(a@, c@)
        } by {
        lemma_datum_order(a@, b@, c@);
    }
}

/// A clone of a `DataType` equals it.
pub proof fn lemma_data_type_exact_clone()
    ensures
        exact_clone::<DataType>(),
{
}

} // verus!
