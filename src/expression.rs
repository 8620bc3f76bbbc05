use vstd::prelude::*;
use crate::lexer::Token;
use crate::value::{IntKind, in_range};

verus! {

/// The binary operators an expression tree can hold.
#[derive(PartialEq, Eq, Structural, Clone, Copy, Debug)]
pub enum BinaryOperator {
    Add,
    Subtract,
    Multiply,
    Divide,
    Exponent,
    Root,
    Equality,
    TrueEquality,
    Modulo,
    Equal,
    NotEqual,
    GreaterThan,
    LessThan,
    GreaterOrEqual,
    LessOrEqual,
    Not,
    Xor,
    Nor,
    Nand,
    Xnor,
    And,
    Or,
}

/// An expression tree. A float literal keeps its decimal text.
#[derive(Debug)]
pub enum Expression {
    Float(String),
    Integer(i64),
    String(String),
    Boolean(bool),
    Variable(String),
    BinaryOp { op: BinaryOperator, left: Box<Expression>, right: Box<Expression> },
}

/// Why a token sequence is not an expression.
#[derive(PartialEq, Eq, Structural, Clone, Copy, Debug)]
pub enum ParseError {
    /// Empty operand, unbalanced parentheses, or no operator to split at.
    MalformedExpression,
    /// A single token that is no literal and no name.
    UnexpectedToken,
    /// An integer literal that does not fit in 64 bits.
    InvalidNumber,
    /// A statement without the tokens its form needs.
    MalformedStatement,
}

pub open spec fn is_digit(c: char) -> bool {
    '0' <= c <= '9'
}

/// The number written by the decimal digits `s`.
pub open spec fn digits_value(s: Seq<char>) -> int
    decreases s.len(),
{
    if s.len() == 0 {
        0
    } else {
        digits_value(s.drop_last()) * 10 + (s.last() as int - '0' as int)
    }
}

/// `s` without its leading sign, if it has one.
pub open spec fn unsigned_part(s: Seq<char>) -> Seq<char> {
    if s.len() > 0 && (s[0] == '-' || s[0] == '+') {
        s.skip(1)
    } else {
        s
    }
}

/// A 64-bit signed integer written in decimal, with an optional sign.
pub open spec fn parse_i64(s: Seq<char>) -> Option<int> {
    let neg = s.len() > 0 && s[0] == '-';
    let body = unsigned_part(s);
    let v = if neg {
        -digits_value(body)
    } else {
        digits_value(body)
    };
    if body.len() > 0 && (forall|i: int| 0 <= i < body.len() ==> is_digit(body[i])) && in_range(
        IntKind::I64,
        v,
    ) {
        Some(v)
    } else {
        None
    }
}

pub open spec fn ascii_lower(c: char) -> char {
    if 'A' <= c <= 'Z' {
        ((c as u32) + 32) as char
    } else {
        c
    }
}

/// `true` in any letter case, or `1`.
pub open spec fn is_true_text(s: Seq<char>) -> bool {
    (s.len() == 4 && ascii_lower(s[0]) == 't' && ascii_lower(s[1]) == 'r' && ascii_lower(s[2])
        == 'u' && ascii_lower(s[3]) == 'e') || s == seq!['1']
}

/// The expression a single token stands for.
pub open spec fn literal_of(t: (Token, String)) -> Result<Expression, ParseError> {
    match t.0 {
        Token::Name => Ok(Expression::Variable(t.1)),
        Token::String => Ok(Expression::String(t.1)),
        Token::Number => if t.1@.contains('.') {
            Ok(Expression::Float(t.1))
        } else {
            match parse_i64(t.1@) {
                Some(v) => Ok(Expression::Integer(v as i64)),
                None => Err(ParseError::InvalidNumber),
            }
        },
        Token::Bool => Ok(Expression::Boolean(is_true_text(t.1@))),
        _ => Err(ParseError::UnexpectedToken),
    }
}

proof fn lemma_digits_value_grows(s: Seq<char>, n: int)
    requires
        0 <= n <= s.len(),
        forall|i: int| 0 <= i < s.len() ==> is_digit(s[i]),
    ensures
        digits_value(s.subrange(0, n)) <= digits_value(s),
        digits_value(s) >= 0,
    decreases s.len() - n,
{
    if n < s.len() {
        lemma_digits_value_grows(s, n + 1);
        assert(s.subrange(0, n + 1).drop_last() =~= s.subrange(0, n));
        lemma_digits_value_nonneg(s.subrange(0, n));
    } else {
        assert(s.subrange(0, n) =~= s);
        lemma_digits_value_nonneg(s);
    }
}

proof fn lemma_digits_value_nonneg(s: Seq<char>)
    requires
        forall|i: int| 0 <= i < s.len() ==> is_digit(s[i]),
    ensures
        digits_value(s) >= 0,
    decreases s.len(),
{
    if s.len() > 0 {
        lemma_digits_value_nonneg(s.drop_last());
    }
}

/// Reads a decimal integer literal, as `parse_i64` states.
fn parse_integer(s: &str) -> (r: Option<i64>)
    ensures
        match parse_i64(s@) {
            Some(v) => r == Some(v as i64),
            None => r is None,
        },
{
    let n = s.unicode_len();
    let mut i: usize = 0;
    let mut neg = false;
    if n > 0 {
        let c = s.get_char(0);
        if c == '-' || c == '+' {
            neg = c == '-';
            i = 1;
        }
    }
    let start = i;
    let ghost body = s@.skip(start as int);
    assert(s@.skip(0) =~= s@);
    assert(neg == (s@.len() > 0 && s@[0] == '-'));
    assert(body == unsigned_part(s@));
    if i == n {
        return None;
    }
    let mut acc: i128 = 0;
    while i < n
        invariant
            start <= i <= n,
            n == s@.len(),
            start < n,
            body == s@.skip(start as int),
            body == unsigned_part(s@),
            neg == (s@.len() > 0 && s@[0] == '-'),
            forall|j: int| 0 <= j < i - start ==> is_digit(body[j]),
            acc == digits_value(body.subrange(0, i - start)),
            0 <= acc <= 0x8000_0000_0000_0000,
        decreases n - i,
    {
        let c = s.get_char(i);
        assert(body[i - start] == c);
        if !('0' <= c && c <= '9') {
            assert(!is_digit(body[i - start]));
            assert(i - start < body.len());
            assert(!(forall|j: int| 0 <= j < body.len() ==> is_digit(body[j])));
            assert(parse_i64(s@) is None);
            return None;
        }
        assert(body.subrange(0, i + 1 - start).drop_last() =~= body.subrange(0, i - start));
        acc = acc * 10 + (c as u32 - '0' as u32) as i128;
        i = i + 1;
        if acc > 0x8000_0000_0000_0000 {
            proof {
                // Every later digit only makes the number larger.
                let k = i - start;
                if forall|j: int| 0 <= j < body.len() ==> is_digit(body[j]) {
                    lemma_digits_value_grows(body, k as int);
                    assert(digits_value(body) > 0x8000_0000_0000_0000);
                    assert(!in_range(IntKind::I64, digits_value(body)));
                    assert(!in_range(IntKind::I64, -digits_value(body)));
                }
                assert(parse_i64(s@) is None);
            }
            return None;
        }
    }
    assert(body.subrange(0, n - start) =~= body);
    assert(forall|j: int| 0 <= j < body.len() ==> is_digit(body[j]));
    if neg {
        Some((-acc) as i64)
    } else if acc > 0x7fff_ffff_ffff_ffff {
        None
    } else {
        Some(acc as i64)
    }
}

/// Whether `s` reads `true` in any letter case, or `1`.
fn true_text(s: &str) -> (r: bool)
    ensures
        r == is_true_text(s@),
{
    let n = s.unicode_len();
    if n == 1 {
        assert(s@ == seq!['1'] <==> s@[0] == '1') by {
            if s@[0] == '1' {
                assert(s@ =~= seq!['1']);
            }
        }
        return s.get_char(0) == '1';
    }
    if n != 4 {
        assert(s@ != seq!['1']);
        return false;
    }
    assert(s@ != seq!['1']);
    let a = lower_char(s.get_char(0));
    let b = lower_char(s.get_char(1));
    let c = lower_char(s.get_char(2));
    let d = lower_char(s.get_char(3));
    a == 't' && b == 'r' && c == 'u' && d == 'e'
}

fn lower_char(c: char) -> (r: char)
    ensures
        r == ascii_lower(c),
{
    if 'A' <= c && c <= 'Z' {
        ((c as u8) + 32) as char
    } else {
        c
    }
}

fn has_dot(s: &str) -> (r: bool)
    ensures
        r == s@.contains('.'),
{
    let n = s.unicode_len();
    let mut i: usize = 0;
    while i < n
        invariant
            i <= n,
            n == s@.len(),
            forall|j: int| 0 <= j < i ==> s@[j] != '.',
        decreases n - i,
    {
        if s.get_char(i) == '.' {
            return true;
        }
        i = i + 1;
    }
    false
}

/// Converts one token to the literal or variable reference it stands for.
pub fn evalToken(token: &(Token, String)) -> (r: Result<Expression, ParseError>)
    ensures
        r == literal_of(*token),
{
    match token.0 {
        Token::Name => Ok(Expression::Variable(token.1.clone())),
        Token::String => Ok(Expression::String(token.1.clone())),
        Token::Number => {
            if has_dot(token.1.as_str()) {
                Ok(Expression::Float(token.1.clone()))
            } else {
                match parse_integer(token.1.as_str()) {
                    Some(v) => Ok(Expression::Integer(v)),
                    None => Err(ParseError::InvalidNumber),
                }
            }
        },
        Token::Bool => Ok(Expression::Boolean(true_text(token.1.as_str()))),
        _ => Err(ParseError::UnexpectedToken),
    }
}

/// The operator tokens an expression can be split at.
pub open spec fn is_split_op(t: Token) -> bool {
    match t {
        Token::Addition | Token::Subtraction | Token::Division | Token::Multiplication
        | Token::Greater | Token::GreaterOEqual | Token::Less | Token::LessOEqual
        | Token::Equality | Token::Exponent | Token::NotEqual | Token::TrueEquality
        | Token::Root => true,
        _ => false,
    }
}

/// The operator a split token stands for.
pub open spec fn op_of(t: Token) -> BinaryOperator {
    match t {
        Token::Addition => BinaryOperator::Add,
        Token::Subtraction => BinaryOperator::Subtract,
        Token::Division => BinaryOperator::Divide,
        Token::Multiplication => BinaryOperator::Multiply,
        Token::Greater => BinaryOperator::GreaterThan,
        Token::GreaterOEqual => BinaryOperator::GreaterOrEqual,
        Token::Less => BinaryOperator::LessThan,
        Token::LessOEqual => BinaryOperator::LessOrEqual,
        Token::Equality => BinaryOperator::Equal,
        Token::Exponent => BinaryOperator::Exponent,
        Token::NotEqual => BinaryOperator::NotEqual,
        Token::TrueEquality => BinaryOperator::TrueEquality,
        _ => BinaryOperator::Root,
    }
}

fn op_of_exec(t: Token) -> (r: BinaryOperator)
    ensures
        r == op_of(t),
{
    match t {
        Token::Addition => BinaryOperator::Add,
        Token::Subtraction => BinaryOperator::Subtract,
        Token::Division => BinaryOperator::Divide,
        Token::Multiplication => BinaryOperator::Multiply,
        Token::Greater => BinaryOperator::GreaterThan,
        Token::GreaterOEqual => BinaryOperator::GreaterOrEqual,
        Token::Less => BinaryOperator::LessThan,
        Token::LessOEqual => BinaryOperator::LessOrEqual,
        Token::Equality => BinaryOperator::Equal,
        Token::Exponent => BinaryOperator::Exponent,
        Token::NotEqual => BinaryOperator::NotEqual,
        Token::TrueEquality => BinaryOperator::TrueEquality,
        _ => BinaryOperator::Root,
    }
}

/// Parenthesis depth after the first `n` tokens of `s`.
pub open spec fn depth_at(s: Seq<(Token, String)>, n: int) -> int
    decreases n,
{
    if n <= 0 {
        0
    } else {
        depth_at(s, n - 1) + if s[n - 1].0 == Token::OpenParen {
            1int
        } else if s[n - 1].0 == Token::CloseParen {
            -1int
        } else {
            0int
        }
    }
}

/// Every `)` closes an earlier `(` and every `(` is closed.
pub open spec fn parens_balanced(s: Seq<(Token, String)>) -> bool {
    (forall|j: int| 0 <= j <= s.len() ==> depth_at(s, j) >= 0) && depth_at(s, s.len() as int) == 0
}

/// `s` is one parenthesised group: the `(` in front closes at the very end.
pub open spec fn wrapped(s: Seq<(Token, String)>) -> bool {
    s.len() >= 2 && s[0].0 == Token::OpenParen && forall|j: int|
        1 <= j < s.len() ==> depth_at(s, j) > 0
}

/// Index of the last split operator among the first `n` tokens that stands
/// outside all parentheses.
pub open spec fn last_split(s: Seq<(Token, String)>, n: int) -> Option<int>
    decreases n,
{
    if n <= 0 {
        None
    } else if is_split_op(s[n - 1].0) && depth_at(s, n - 1) == 0 {
        Some(n - 1)
    } else {
        last_split(s, n - 1)
    }
}

/// `s` without a trailing semicolon.
pub open spec fn trim_semicolon(s: Seq<(Token, String)>) -> Seq<(Token, String)> {
    if s.len() > 0 && s.last().0 == Token::Semicolon {
        s.drop_last()
    } else {
        s
    }
}

/// The expression tree of a token sequence: one token is a literal; a group
/// in parentheses is its inside; otherwise the sequence splits at its last
/// operator outside parentheses, with no precedence among operators.
pub open spec fn split_spec(s: Seq<(Token, String)>) -> Result<Expression, ParseError>
    decreases s.len(),
{
    let t = trim_semicolon(s);
    if t.len() == 0 {
        Err(ParseError::MalformedExpression)
    } else if t.len() == 1 {
        literal_of(t[0])
    } else if !parens_balanced(t) {
        Err(ParseError::MalformedExpression)
    } else if wrapped(t) {
        split_spec(t.subrange(1, t.len() - 1))
    } else {
        match last_split(t, t.len() as int) {
            None => Err(ParseError::MalformedExpression),
            Some(i) => if 0 <= i < t.len() {
                match split_spec(t.subrange(0, i)) {
                    Err(e) => Err(e),
                    Ok(l) => match split_spec(t.subrange(i + 1, t.len() as int)) {
                        Err(e) => Err(e),
                        Ok(r) => Ok(
                            Expression::BinaryOp {
                                op: op_of(t[i].0),
                                left: Box::new(l),
                                right: Box::new(r),
                            },
                        ),
                    },
                }
            } else {
                Err(ParseError::MalformedExpression)
            },
        }
    }
}

proof fn lemma_last_split_bounds(s: Seq<(Token, String)>, n: int)
    ensures
        last_split(s, n) matches Some(i) ==> 0 <= i < n && is_split_op(s[i].0) && depth_at(s, i)
            == 0,
        last_split(s, n) is None ==> forall|i: int|
            0 <= i < n ==> !(is_split_op(s[i].0) && depth_at(s, i) == 0),
    decreases n,
{
    if n > 0 {
        lemma_last_split_bounds(s, n - 1);
    }
}

proof fn lemma_depth_at_shift(v: Seq<(Token, String)>, lo: int, hi: int, n: int)
    requires
        0 <= lo <= hi <= v.len(),
        0 <= n <= hi - lo,
    ensures
        depth_at(v.subrange(lo, hi), n) == depth_at(v.subrange(lo, lo + n), n),
    decreases n,
{
    if n > 0 {
        lemma_depth_at_shift(v, lo, hi, n - 1);
        lemma_depth_at_shift(v, lo, lo + n, n - 1);
    }
}

/// One pass over `s[lo..hi]`: `None` when its parentheses do not balance,
/// else the last split point outside parentheses and whether the whole range
/// is one parenthesised group.
fn scan_range(s: &Vec<(Token, String)>, lo: usize, hi: usize) -> (r: Option<(Option<usize>, bool)>)
    requires
        lo <= hi <= s@.len(),
        hi - lo >= 2,
    ensures
        r is None <==> !parens_balanced(s@.subrange(lo as int, hi as int)),
        r matches Some((last, g)) ==> {
            &&& g == wrapped(s@.subrange(lo as int, hi as int))
            &&& last_split(s@.subrange(lo as int, hi as int), hi - lo) == (match last {
                Some(k) => Some(k - lo),
                None => None::<int>,
            })
            &&& last matches Some(k) ==> lo <= k < hi
        },
{
    let ghost t = s@.subrange(lo as int, hi as int);
    let mut depth: usize = 0;
    let mut last: Option<usize> = None;
    let mut is_group = s[lo].0 == Token::OpenParen;
    let mut i: usize = lo;
    while i < hi
        invariant
            lo <= i <= hi,
            hi <= s@.len(),
            hi - lo >= 2,
            t == s@.subrange(lo as int, hi as int),
            depth == depth_at(t, i - lo),
            depth <= i - lo,
            forall|j: int| 0 <= j <= i - lo ==> depth_at(t, j) >= 0,
            last_split(t, i - lo) == (match last {
                Some(k) => Some(k - lo),
                None => None::<int>,
            }),
            last matches Some(k) ==> lo <= k < i,
            is_group == (t[0].0 == Token::OpenParen && forall|j: int|
                1 <= j < i - lo && j < hi - lo ==> depth_at(t, j) > 0),
        decreases hi - i,
    {
        let kind = s[i].0;
        assert(t[i - lo] == s@[i as int]);
        if i > lo && depth == 0 {
            is_group = false;
        }
        if kind == Token::OpenParen {
            depth = depth + 1;
        } else if kind == Token::CloseParen {
            if depth == 0 {
                assert(depth_at(t, i - lo + 1) < 0);
                return None;
            }
            depth = depth - 1;
        } else if depth == 0 && (kind == Token::Addition || kind == Token::Subtraction || kind
            == Token::Division || kind == Token::Multiplication || kind == Token::Greater || kind
            == Token::GreaterOEqual || kind == Token::Less || kind == Token::LessOEqual || kind
            == Token::Equality || kind == Token::Exponent || kind == Token::NotEqual || kind
            == Token::TrueEquality || kind == Token::Root) {
            last = Some(i);
        }
        i = i + 1;
    }
    if depth != 0 {
        return None;
    }
    Some((last, is_group))
}

/// Splits the tokens `s[lo..hi]` into an expression tree.
pub fn split_range(s: &Vec<(Token, String)>, lo: usize, hi0: usize) -> (r: Result<Expression, ParseError>)
    requires
        lo <= hi0 <= s@.len(),
    ensures
        r == split_spec(s@.subrange(lo as int, hi0 as int)),
    decreases hi0 - lo,
{
    let ghost whole = s@.subrange(lo as int, hi0 as int);
    let hi: usize = if hi0 > lo && s[hi0 - 1].0 == Token::Semicolon {
        hi0 - 1
    } else {
        hi0
    };
    let ghost t = s@.subrange(lo as int, hi as int);
    assert(t =~= trim_semicolon(whole));
    if hi == lo {
        return Err(ParseError::MalformedExpression);
    }
    if hi - lo == 1 {
        return evalToken(&s[lo]);
    }
    let scanned = scan_range(s, lo, hi);
    match scanned {
        None => Err(ParseError::MalformedExpression),
        Some((last, is_group)) => {
            if is_group {
                assert(t.subrange(1, t.len() - 1) =~= s@.subrange(lo + 1, hi - 1));
                return split_range(s, lo + 1, hi - 1);
            }
            proof {
                lemma_last_split_bounds(t, t.len() as int);
            }
            match last {
                None => Err(ParseError::MalformedExpression),
                Some(k) => {
                    assert(t.subrange(0, k - lo) =~= s@.subrange(lo as int, k as int));
                    assert(t.subrange(k - lo + 1, t.len() as int) =~= s@.subrange(
                        k + 1,
                        hi as int,
                    ));
                    assert(t[k - lo] == s@[k as int]);
                    let left = split_range(s, lo, k);
                    match left {
                        Err(e) => Err(e),
                        Ok(l) => {
                            let right = split_range(s, k + 1, hi);
                            match right {
                                Err(e) => Err(e),
                                Ok(r) => Ok(
                                    Expression::BinaryOp {
                                        op: op_of_exec(s[k].0),
                                        left: Box::new(l),
                                        right: Box::new(r),
                                    },
                                ),
                            }
                        },
                    }
                },
            }
        },
    }
}

/// The text of a name, string or float literal.
pub open spec fn leaf_text(e: Expression) -> Option<Seq<char>> {
    match e {
        Expression::Variable(n) => Some(n@),
        Expression::String(x) => Some(x@),
        Expression::Float(x) => Some(x@),
        _ => None,
    }
}

/// Splitting a single token, with or without a closing semicolon, is
/// converting it as a literal; for a name, a string or a float literal the
/// expression gives back the token's text, and an integer literal holds the
/// number its text reads as.
pub proof fn lemma_split_single_token(s: Seq<(Token, String)>)
    requires
        trim_semicolon(s).len() == 1,
    ensures
        split_spec(s) == literal_of(trim_semicolon(s)[0]),
        ({
            let t = trim_semicolon(s)[0];
            &&& (t.0 == Token::Name || t.0 == Token::String || (t.0 == Token::Number
                && t.1@.contains('.'))) ==> (split_spec(s) matches Ok(e) && leaf_text(e) == Some(
                t.1@,
            ))
            &&& (t.0 == Token::Number && !t.1@.contains('.') && parse_i64(t.1@) is Some)
                ==> split_spec(s) == Ok::<Expression, ParseError>(
                Expression::Integer(parse_i64(t.1@)->Some_0 as i64),
            )
        }),
{
}

proof fn lemma_depth_without_parens(t: Seq<(Token, String)>, n: int)
    requires
        0 <= n <= t.len(),
        forall|j: int| 0 <= j < t.len() ==> t[j].0 != Token::OpenParen && t[j].0 != Token::CloseParen,
    ensures
        depth_at(t, n) == 0,
    decreases n,
{
    if n > 0 {
        lemma_depth_without_parens(t, n - 1);
    }
}

proof fn lemma_last_split_is(t: Seq<(Token, String)>, i: int, n: int)
    requires
        0 <= i < n <= t.len(),
        is_split_op(t[i].0),
        depth_at(t, i) == 0,
        forall|j: int| i < j < t.len() ==> !is_split_op(#[trigger] t[j].0),
    ensures
        last_split(t, n) == Some(i),
    decreases n,
{
    if n > i + 1 {
        lemma_last_split_is(t, i, n - 1);
    }
}

/// With no parentheses and no operator precedence, a sequence of tokens
/// splits at its last operator: the tree is that operator over the split of
/// what stands before it and the split of what stands after it.
pub proof fn lemma_split_at_last_operator(t: Seq<(Token, String)>, i: int)
    requires
        t.len() >= 2,
        t.last().0 != Token::Semicolon,
        forall|j: int| 0 <= j < t.len() ==> t[j].0 != Token::OpenParen && t[j].0 != Token::CloseParen,
        0 <= i < t.len(),
        is_split_op(t[i].0),
        forall|j: int| i < j < t.len() ==> !is_split_op(#[trigger] t[j].0),
    ensures
        split_spec(t) == (match split_spec(t.subrange(0, i)) {
            Err(e) => Err(e),
            Ok(l) => match split_spec(t.subrange(i + 1, t.len() as int)) {
                Err(e) => Err(e),
                Ok(r) => Ok(
                    Expression::BinaryOp { op: op_of(t[i].0), left: Box::new(l), right: Box::new(r) },
                ),
            },
        }),
{
    assert forall|j: int| 0 <= j <= t.len() implies depth_at(t, j) == 0 by {
        lemma_depth_without_parens(t, j);
    }
    assert(parens_balanced(t));
    assert(!wrapped(t));
    lemma_last_split_is(t, i, t.len() as int);
}

/// Builds the expression tree of a token sequence, as `split_spec` states.
pub fn evaluateExpression(expressionTokens: &Vec<(Token, String)>) -> (r: Result<Expression, ParseError>)
    ensures
        r == split_spec(expressionTokens@),
{
    assert(expressionTokens@.subrange(0, expressionTokens@.len() as int) =~= expressionTokens@);
    split_range(expressionTokens, 0, expressionTokens.len())
}

} // verus!
