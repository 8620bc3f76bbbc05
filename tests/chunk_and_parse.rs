use jade::expression::{evaluateExpression, BinaryOperator, Expression, ParseError};
use jade::lexer::Token;
use jade::parser::{chunkCode, parseCode, ChunkError, ParsedBlock, TokenBlock};

fn tok(kind: Token, text: &str) -> (Token, String) {
    (kind, text.to_string())
}

fn block_texts(blocks: &[TokenBlock]) -> Vec<Vec<String>> {
    blocks
        .iter()
        .map(|b| b.tokens.iter().map(|t| t.1.clone()).collect())
        .collect()
}

fn is_marker(k: &Token) -> bool {
    matches!(k, Token::OpenBrace | Token::CloseBrace | Token::Semicolon)
}

#[test]
fn chunk_statements_and_blocks() {
    let tokens = vec![
        tok(Token::Var, "var"),
        tok(Token::Name, "x"),
        tok(Token::DataType, "$"),
        tok(Token::Equals, "="),
        tok(Token::Number, "5"),
        tok(Token::Semicolon, ";"),
        tok(Token::ControlBlock, "if"),
        tok(Token::OpenParen, "("),
        tok(Token::Name, "x"),
        tok(Token::CloseParen, ")"),
        tok(Token::OpenBrace, "{"),
        tok(Token::Name, "x"),
        tok(Token::Equals, "="),
        tok(Token::Number, "1"),
        tok(Token::Semicolon, ";"),
        tok(Token::CloseBrace, "}"),
    ];
    let blocks = chunkCode(tokens).unwrap();
    assert_eq!(
        block_texts(&blocks),
        vec![
            vec!["var", "x", "$", "=", "5", ";"],
            vec!["if", "(", "x", ")", "{", "x", "=", "1", ";", "}"],
        ]
    );
}

#[test]
fn chunk_keeps_every_token_in_order() {
    let tokens = vec![
        tok(Token::Name, "a"),
        tok(Token::Equals, "="),
        tok(Token::Number, "1"),
        tok(Token::Semicolon, ";"),
        tok(Token::ControlBlock, "while"),
        tok(Token::OpenParen, "("),
        tok(Token::Name, "a"),
        tok(Token::CloseParen, ")"),
        tok(Token::OpenBrace, "{"),
        tok(Token::OpenBrace, "{"),
        tok(Token::Name, "b"),
        tok(Token::Print, "->"),
        tok(Token::Semicolon, ";"),
        tok(Token::CloseBrace, "}"),
        tok(Token::CloseBrace, "}"),
        tok(Token::Name, "a"),
        tok(Token::Print, "->"),
        tok(Token::Semicolon, ";"),
    ];
    let expected: Vec<String> = tokens
        .iter()
        .filter(|t| !is_marker(&t.0))
        .map(|t| t.1.clone())
        .collect();
    let blocks = chunkCode(tokens).unwrap();
    assert_eq!(blocks.len(), 3);
    let got: Vec<String> = blocks
        .iter()
        .flat_map(|b| b.tokens.iter())
        .filter(|t| !is_marker(&t.0))
        .map(|t| t.1.clone())
        .collect();
    assert_eq!(got, expected);
}

#[test]
fn chunk_drops_unterminated_tail() {
    let tokens = vec![
        tok(Token::Name, "a"),
        tok(Token::Print, "->"),
        tok(Token::Semicolon, ";"),
        tok(Token::Name, "b"),
    ];
    let blocks = chunkCode(tokens).unwrap();
    assert_eq!(block_texts(&blocks), vec![vec!["a", "->", ";"]]);
}

#[test]
fn chunk_empty_stream() {
    assert!(chunkCode(Vec::new()).unwrap().is_empty());
}

#[test]
fn chunk_rejects_unbalanced_close() {
    let tokens = vec![tok(Token::Name, "a"), tok(Token::CloseBrace, "}")];
    assert!(matches!(chunkCode(tokens), Err(ChunkError::UnbalancedBraces)));
}

fn int_leaf(e: &Expression) -> i64 {
    match e {
        Expression::Integer(v) => *v,
        other => panic!("not an integer: {:?}", other),
    }
}

#[test]
fn split_picks_last_operator() {
    let tokens = vec![
        tok(Token::Number, "1"),
        tok(Token::Addition, "+"),
        tok(Token::Number, "2"),
        tok(Token::Multiplication, "*"),
        tok(Token::Number, "3"),
    ];
    match evaluateExpression(&tokens).unwrap() {
        Expression::BinaryOp { op, left, right } => {
            assert_eq!(op, BinaryOperator::Multiply);
            assert_eq!(int_leaf(&right), 3);
            match *left {
                Expression::BinaryOp { op, left, right } => {
                    assert_eq!(op, BinaryOperator::Add);
                    assert_eq!(int_leaf(&left), 1);
                    assert_eq!(int_leaf(&right), 2);
                }
                other => panic!("unexpected {:?}", other),
            }
        }
        other => panic!("unexpected {:?}", other),
    }
}

#[test]
fn split_respects_parentheses() {
    // 1 * (2 + 3);
    let tokens = vec![
        tok(Token::Number, "1"),
        tok(Token::Multiplication, "*"),
        tok(Token::OpenParen, "("),
        tok(Token::Number, "2"),
        tok(Token::Addition, "+"),
        tok(Token::Number, "3"),
        tok(Token::CloseParen, ")"),
        tok(Token::Semicolon, ";"),
    ];
    match evaluateExpression(&tokens).unwrap() {
        Expression::BinaryOp { op, left, right } => {
            assert_eq!(op, BinaryOperator::Multiply);
            assert_eq!(int_leaf(&left), 1);
            assert!(matches!(*right, Expression::BinaryOp { op: BinaryOperator::Add, .. }));
        }
        other => panic!("unexpected {:?}", other),
    }
}

#[test]
fn split_single_tokens_are_literals() {
    let cases = vec![
        (tok(Token::Name, "abc"), "Variable", "abc"),
        (tok(Token::String, "\"hi\""), "String", "\"hi\""),
        (tok(Token::Number, "2.5"), "Float", "2.5"),
    ];
    for (t, kind, text) in cases {
        let e = evaluateExpression(&vec![t, tok(Token::Semicolon, ";")]).unwrap();
        let (k, s) = match e {
            Expression::Variable(s) => ("Variable", s),
            Expression::String(s) => ("String", s),
            Expression::Float(s) => ("Float", s),
            other => panic!("unexpected {:?}", other),
        };
        assert_eq!(k, kind);
        assert_eq!(s, text);
    }
    assert_eq!(int_leaf(&evaluateExpression(&vec![tok(Token::Number, "42")]).unwrap()), 42);
    assert_eq!(int_leaf(&evaluateExpression(&vec![tok(Token::Number, "-7")]).unwrap()), -7);
}

#[test]
fn split_bool_literals() {
    for (text, value) in [("true", true), ("TrUe", true), ("1", true), ("false", false), ("0", false)] {
        let e = evaluateExpression(&vec![tok(Token::Bool, text)]).unwrap();
        assert!(matches!(e, Expression::Boolean(b) if b == value), "{}", text);
    }
}

#[test]
fn split_errors() {
    assert!(matches!(evaluateExpression(&vec![]), Err(ParseError::MalformedExpression)));
    assert!(matches!(
        evaluateExpression(&vec![tok(Token::Semicolon, ";")]),
        Err(ParseError::MalformedExpression)
    ));
    let unbalanced = vec![
        tok(Token::OpenParen, "("),
        tok(Token::Number, "1"),
        tok(Token::Addition, "+"),
        tok(Token::Number, "2"),
    ];
    assert!(matches!(evaluateExpression(&unbalanced), Err(ParseError::MalformedExpression)));
    let no_operator = vec![tok(Token::Number, "1"), tok(Token::Number, "2")];
    assert!(matches!(evaluateExpression(&no_operator), Err(ParseError::MalformedExpression)));
    assert!(matches!(
        evaluateExpression(&vec![tok(Token::Equals, "=")]),
        Err(ParseError::UnexpectedToken)
    ));
    assert!(matches!(
        evaluateExpression(&vec![tok(Token::Number, "99999999999999999999")]),
        Err(ParseError::InvalidNumber)
    ));
    assert_eq!(
        int_leaf(&evaluateExpression(&vec![tok(Token::Number, "-9223372036854775808")]).unwrap()),
        i64::MIN
    );
}

fn blocks_of(tokens: Vec<(Token, String)>) -> Vec<TokenBlock> {
    chunkCode(tokens).unwrap()
}

#[test]
fn parse_statement_kinds() {
    let tokens = vec![
        tok(Token::Var, "var"),
        tok(Token::Name, "x"),
        tok(Token::DataType, "$"),
        tok(Token::Equals, "="),
        tok(Token::Number, "5"),
        tok(Token::Semicolon, ";"),
        tok(Token::Name, "x"),
        tok(Token::Equals, "="),
        tok(Token::Name, "x"),
        tok(Token::Addition, "+"),
        tok(Token::Number, "1"),
        tok(Token::Semicolon, ";"),
        tok(Token::Name, "x"),
        tok(Token::Print, "->"),
        tok(Token::Semicolon, ";"),
        tok(Token::Number, "3"),
        tok(Token::Semicolon, ";"),
    ];
    let parsed = parseCode(blocks_of(tokens)).unwrap();
    assert_eq!(parsed.len(), 4);
    match &parsed[0] {
        ParsedBlock::VarDec { identifier, name, datatype, value } => {
            assert_eq!(identifier, "var");
            assert_eq!(name, "x");
            assert_eq!(datatype, "$");
            assert_eq!(int_leaf(value), 5);
        }
        other => panic!("unexpected {:?}", other),
    }
    match &parsed[1] {
        ParsedBlock::VarSet { name, value } => {
            assert_eq!(name, "x");
            assert!(matches!(value, Expression::BinaryOp { op: BinaryOperator::Add, .. }));
        }
        other => panic!("unexpected {:?}", other),
    }
    assert!(matches!(&parsed[2], ParsedBlock::PrintVar { name } if name == "x"));
    assert!(matches!(&parsed[3], ParsedBlock::Unrecognized { tokens } if tokens.len() == 2));
}

#[test]
fn parse_control_block_with_body() {
    let tokens = vec![
        tok(Token::ControlBlock, "if"),
        tok(Token::OpenParen, "("),
        tok(Token::Name, "x"),
        tok(Token::Greater, ">"),
        tok(Token::Number, "1"),
        tok(Token::CloseParen, ")"),
        tok(Token::OpenBrace, "{"),
        tok(Token::Name, "x"),
        tok(Token::Equals, "="),
        tok(Token::OpenParen, "("),
        tok(Token::Number, "2"),
        tok(Token::Addition, "+"),
        tok(Token::Number, "3"),
        tok(Token::CloseParen, ")"),
        tok(Token::Multiplication, "*"),
        tok(Token::Number, "4"),
        tok(Token::Semicolon, ";"),
        tok(Token::Name, "x"),
        tok(Token::Print, "->"),
        tok(Token::Semicolon, ";"),
        tok(Token::CloseBrace, "}"),
    ];
    let parsed = parseCode(blocks_of(tokens)).unwrap();
    assert_eq!(parsed.len(), 1);
    match &parsed[0] {
        ParsedBlock::ConBlock { identifier, condition, body } => {
            assert_eq!(identifier, "if");
            assert!(matches!(
                condition,
                Some(Expression::BinaryOp { op: BinaryOperator::GreaterThan, .. })
            ));
            assert_eq!(body.len(), 2);
            match &body[0] {
                ParsedBlock::VarSet { name, value } => {
                    assert_eq!(name, "x");
                    match value {
                        Expression::BinaryOp { op, left, right } => {
                            assert_eq!(*op, BinaryOperator::Multiply);
                            assert!(matches!(**left, Expression::BinaryOp { op: BinaryOperator::Add, .. }));
                            assert_eq!(int_leaf(right), 4);
                        }
                        other => panic!("unexpected {:?}", other),
                    }
                }
                other => panic!("unexpected {:?}", other),
            }
            assert!(matches!(&body[1], ParsedBlock::PrintVar { name } if name == "x"));
        }
        other => panic!("unexpected {:?}", other),
    }
}

#[test]
fn parse_else_has_no_condition() {
    let tokens = vec![
        tok(Token::ControlBlock, "else"),
        tok(Token::OpenBrace, "{"),
        tok(Token::Name, "y"),
        tok(Token::Print, "->"),
        tok(Token::Semicolon, ";"),
        tok(Token::CloseBrace, "}"),
    ];
    let parsed = parseCode(blocks_of(tokens)).unwrap();
    match &parsed[0] {
        ParsedBlock::ConBlock { identifier, condition, body } => {
            assert_eq!(identifier, "else");
            assert!(condition.is_none());
            assert_eq!(body.len(), 1);
        }
        other => panic!("unexpected {:?}", other),
    }
}

#[test]
fn parse_malformed_declarations() {
    let short = vec![tok(Token::Var, "var"), tok(Token::Name, "x"), tok(Token::Semicolon, ";")];
    assert!(matches!(parseCode(blocks_of(short)), Err(ParseError::MalformedStatement)));
    let no_equals = vec![
        tok(Token::Var, "var"),
        tok(Token::Name, "x"),
        tok(Token::DataType, "$"),
        tok(Token::Semicolon, ";"),
    ];
    assert!(matches!(parseCode(blocks_of(no_equals)), Err(ParseError::MalformedStatement)));
    let empty_value = vec![
        tok(Token::Var, "var"),
        tok(Token::Name, "x"),
        tok(Token::DataType, "$"),
        tok(Token::Equals, "="),
        tok(Token::Semicolon, ";"),
    ];
    assert!(matches!(parseCode(blocks_of(empty_value)), Err(ParseError::MalformedExpression)));
}
