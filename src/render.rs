use vstd::prelude::*;
use crate::expression::{
    Expression, ParseError, digits_value, is_digit, is_true_text, parse_i64, split_spec,
    trim_semicolon, unsigned_part,
};
use crate::lexer::Token;
use crate::value::{Value, int_kind, int_value, int_parts};

verus! {

/// The character of decimal digit `d`.
pub open spec fn digit_char(d: int) -> char {
    (d + 48) as char
}

/// `n` in decimal, without leading zeros.
pub open spec fn decimal(n: nat) -> Seq<char>
    decreases n,
{
    if n < 10 {
        seq![digit_char(n as int)]
    } else {
        decimal(n / 10).push(digit_char((n % 10) as int))
    }
}

/// `n` in decimal, with a minus sign when negative.
pub open spec fn int_text(n: int) -> Seq<char> {
    if n < 0 {
        seq!['-'] + decimal((-n) as nat)
    } else {
        decimal(n as nat)
    }
}

/// How a value prints: integers in decimal, bools as `true` / `false`,
/// strings as they are, `Null` as `Null`. Floats have no text here.
pub open spec fn value_text(v: Value) -> Option<Seq<char>> {
    if int_kind(v) is Some {
        Some(int_text(int_value(v)))
    } else {
        match v {
            Value::Bool(b) => Some(if b { "true"@ } else { "false"@ }),
            Value::String(s) => Some(s@),
            Value::Null => Some("Null"@),
            _ => None,
        }
    }
}

/// Relies on String::push: the character is appended at the end.
#[verifier::external_body]
fn push_char(s: &mut String, c: char)
    ensures
        final(s)@ == old(s)@.push(c),
{
    s.push(c);
}

fn push_decimal(s: &mut String, n: u128)
    ensures
        final(s)@ == old(s)@ + decimal(n as nat),
    decreases n,
{
    if n >= 10 {
        push_decimal(s, n / 10);
    }
    let d = (n % 10) as u8;
    push_char(s, (d + 48) as char);
    assert(s@ =~= old(s)@ + decimal(n as nat));
}

/// The text of a value, as `value_text` states; `None` for a float.
pub fn render(v: &Value) -> (r: Option<String>)
    ensures
        match value_text(*v) {
            Some(t) => r matches Some(s) && s@ == t,
            None => r is None,
        },
{
    if let Some((_, n)) = int_parts(v) {
        let mut s = String::new();
        if n < 0 {
            push_char(&mut s, '-');
            push_decimal(&mut s, (-n) as u128);
        } else {
            push_decimal(&mut s, n as u128);
        }
        assert(s@ =~= int_text(n as int));
        return Some(s);
    }
    match v {
        Value::Bool(b) => Some(if *b { "true".to_owned() } else { "false".to_owned() }),
        Value::String(s) => Some(s.clone()),
        Value::Null => Some("Null".to_owned()),
        _ => None,
    }
}

proof fn lemma_decimal_reads_back(n: nat)
    ensures
        decimal(n).len() > 0,
        forall|i: int| 0 <= i < decimal(n).len() ==> is_digit(#[trigger] decimal(n)[i]),
        digits_value(decimal(n)) == n,
    decreases n,
{
    if n >= 10 {
        lemma_decimal_reads_back(n / 10);
        let s = decimal(n / 10);
        assert(decimal(n).drop_last() =~= s);
        assert(forall|i: int| 0 <= i < s.len() ==> decimal(n)[i] == s[i]);
        let d = (n % 10) as int;
        assert(digit_char(d) as int == d + 48);
        assert(decimal(n).last() == digit_char(d));
        assert(digits_value(decimal(n)) == digits_value(s) * 10 + d);
        assert((n / 10) * 10 + d == n);
        assert(digits_value(decimal(n)) == n);
    } else {
        assert(decimal(n).drop_last() =~= Seq::<char>::empty());
        assert(digit_char(n as int) as int == n + 48);
        assert(digits_value(Seq::<char>::empty()) == 0);
        assert(digits_value(decimal(n)) == digits_value(Seq::<char>::empty()) * 10 + n);
    }
}

/// An integer's printed text, written as a literal, splits back into that
/// integer, which evaluates to a value printing as the same text.
pub proof fn lemma_integer_text_round_trip(t: (Token, String), n: i64)
    requires
        t.0 == Token::Number,
        t.1@ == int_text(n as int),
    ensures
        split_spec(seq![t]) == Ok::<Expression, ParseError>(Expression::Integer(n)),
        value_text(Value::Int64(n)) == Some(t.1@),
{
    let s = t.1@;
    assert(trim_semicolon(seq![t]) =~= seq![t]);
    if n < 0 {
        let m = (-n) as nat;
        lemma_decimal_reads_back(m);
        assert(unsigned_part(s) =~= decimal(m));
        assert(s[0] == '-');
        assert(!s.contains('.')) by {
            assert forall|i: int| 0 <= i < s.len() implies s[i] != '.' by {
                if i > 0 {
                    assert(s[i] == decimal(m)[i - 1]);
                }
            }
        }
    } else {
        lemma_decimal_reads_back(n as nat);
        assert(unsigned_part(s) == s);
        assert(!s.contains('.'));
    }
    assert(parse_i64(s) == Some(n as int));
}

/// `true` and `false` read back as the bool they print as.
pub proof fn lemma_bool_text_round_trip(t: (Token, String), b: bool)
    requires
        t.0 == Token::Bool,
        t.1@ == (if b { "true"@ } else { "false"@ }),
    ensures
        split_spec(seq![t]) == Ok::<Expression, ParseError>(Expression::Boolean(b)),
        value_text(Value::Bool(b)) == Some(t.1@),
{
    reveal_strlit("true");
    reveal_strlit("false");
    assert(trim_semicolon(seq![t]) =~= seq![t]);
    assert(is_true_text(t.1@) == b);
}

} // verus!
