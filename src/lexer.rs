use vstd::prelude::*;

verus! {

/// Kind of a lexical token. The tokenizer that produces them lives outside
/// this library; each token travels together with its lexeme text.
#[derive(PartialEq, Eq, Structural, Clone, Copy, Debug)]
pub enum Token {
    Comment,
    Var,
    Const,
    Sink,
    Equals,
    Semicolon,
    OpenBrace,
    CloseBrace,
    OpenParen,
    CloseParen,
    Addition,
    Subtraction,
    Multiplication,
    Division,
    Exponent,
    Root,
    Equality,
    TrueEquality,
    NotEqual,
    Greater,
    Less,
    GreaterOEqual,
    LessOEqual,
    Modulo,
    And,
    Or,
    Not,
    Xor,
    Nand,
    Nor,
    Xnor,
    AppendW,
    AppendR,
    Print,
    Name,
    ControlBlock,
    BuiltIn,
    DataType,
    Number,
    String,
    Bool,
}

/// Copies a token pair; the copy equals the pair it was made from.
pub fn copy_token(t: &(Token, String)) -> (r: (Token, String))
    ensures
        r == *t,
{
    (t.0, t.1.clone())
}

} // verus!
