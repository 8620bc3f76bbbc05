use jade::coerce::coerce_to_type;
use jade::evaluator::{evaluate, evaluate_binary_op, RuntimeError};
use jade::expression::{evaluateExpression, BinaryOperator, Expression};
use jade::lexer::Token;
use jade::parser::{chunkCode, parseCode, ParsedBlock};
use jade::runtime::{execute_statement, jruntime, Event, Runtime};
use jade::render::render;
use jade::value::Value;

fn tok(kind: Token, text: &str) -> (Token, String) {
    (kind, text.to_string())
}

fn f64v(x: f64) -> Value {
    Value::Float64(x.to_bits())
}

fn f32v(x: f32) -> Value {
    Value::Float32(x.to_bits())
}

#[test]
fn coerce_infer_then_narrow() {
    let inferred = coerce_to_type(Value::Int64(100), "$").unwrap();
    assert_eq!(inferred, Value::Int8(100));
    assert_eq!(coerce_to_type(inferred, "int8").unwrap(), Value::Int8(100));
}

#[test]
fn coerce_wraps_explicit_widths() {
    assert_eq!(coerce_to_type(Value::Int64(999), "uint8").unwrap(), Value::UInt8(231));
    assert_eq!(coerce_to_type(Value::Int64(-1), "uint16").unwrap(), Value::UInt16(65535));
    assert_eq!(coerce_to_type(Value::UInt64(u64::MAX), "int64").unwrap(), Value::Int64(-1));
    assert_eq!(coerce_to_type(Value::Int16(200), "int8").unwrap(), Value::Int8(-56));
}

#[test]
fn coerce_infer_ladder() {
    assert_eq!(coerce_to_type(Value::Int64(-128), "$").unwrap(), Value::Int8(-128));
    assert_eq!(coerce_to_type(Value::Int64(200), "$").unwrap(), Value::UInt8(200));
    assert_eq!(coerce_to_type(Value::Int64(-129), "$").unwrap(), Value::Int16(-129));
    assert_eq!(coerce_to_type(Value::Int64(40000), "$").unwrap(), Value::UInt16(40000));
    assert_eq!(coerce_to_type(Value::Int64(-40000), "$").unwrap(), Value::Int32(-40000));
    assert_eq!(coerce_to_type(Value::Int64(3_000_000_000), "$").unwrap(), Value::UInt32(3_000_000_000));
    assert_eq!(coerce_to_type(Value::Int64(5_000_000_000), "$").unwrap(), Value::Int64(5_000_000_000));
    assert_eq!(coerce_to_type(Value::UInt64(u64::MAX), "int").unwrap(), Value::UInt64(u64::MAX));
    assert_eq!(coerce_to_type(Value::UInt32(70), "int").unwrap(), Value::Int8(70));
    assert_eq!(coerce_to_type(Value::Bool(true), "$").unwrap(), Value::Bool(true));
    assert_eq!(
        coerce_to_type(Value::String("\"a\"".to_string()), "$").unwrap(),
        Value::String("\"a\"".to_string())
    );
    assert_eq!(coerce_to_type(f64v(1.5), "$").unwrap(), f64v(1.5));
}

#[test]
fn coerce_float_to_int_truncates_and_saturates() {
    assert_eq!(coerce_to_type(f64v(2.9), "int8").unwrap(), Value::Int8(2));
    assert_eq!(coerce_to_type(f64v(-2.9), "int8").unwrap(), Value::Int8(-2));
    assert_eq!(coerce_to_type(f64v(1000.0), "int8").unwrap(), Value::Int8(127));
    assert_eq!(coerce_to_type(f64v(-5.0), "uint8").unwrap(), Value::UInt8(0));
    assert_eq!(coerce_to_type(f64v(f64::NAN), "int32").unwrap(), Value::Int32(0));
    assert_eq!(coerce_to_type(f64v(f64::INFINITY), "int64").unwrap(), Value::Int64(i64::MAX));
    assert_eq!(coerce_to_type(f32v(7.75), "uint16").unwrap(), Value::UInt16(7));
    assert_eq!(coerce_to_type(f64v(1e300), "uint64").unwrap(), Value::UInt64(u64::MAX));
}

#[test]
fn coerce_type_mismatch_and_float_rules() {
    match coerce_to_type(Value::Bool(true), "int8") {
        Err(RuntimeError::TypeMismatch { expected, found }) => {
            assert_eq!(expected, "int8");
            assert_eq!(found, Value::Bool(true));
        }
        other => panic!("unexpected {:?}", other),
    }
    assert!(matches!(coerce_to_type(Value::Int8(1), "wibble"), Err(RuntimeError::TypeMismatch { .. })));
    assert!(matches!(coerce_to_type(Value::Null, "$"), Err(RuntimeError::TypeMismatch { .. })));
    assert!(matches!(coerce_to_type(f64v(1.0), "int"), Err(RuntimeError::TypeMismatch { .. })));
    assert!(matches!(coerce_to_type(Value::Int8(1), "float64"), Err(RuntimeError::FloatingPoint)));
    assert_eq!(coerce_to_type(f32v(1.5), "float32").unwrap(), f32v(1.5));
    assert_eq!(coerce_to_type(Value::Bool(false), "bool").unwrap(), Value::Bool(false));
}

#[test]
fn add_int_and_rounded_float() {
    assert_eq!(
        evaluate_binary_op(&BinaryOperator::Add, Value::Int8(5), f64v(2.9)).unwrap(),
        Value::Int8(8)
    );
    assert_eq!(
        evaluate_binary_op(&BinaryOperator::Add, Value::Int8(5), f64v(2.5)).unwrap(),
        Value::Int8(8)
    );
    assert_eq!(
        evaluate_binary_op(&BinaryOperator::Subtract, Value::Int32(5), f32v(-2.5)).unwrap(),
        Value::Int32(8)
    );
}

#[test]
fn divide_by_zero_fails() {
    assert!(matches!(
        evaluate_binary_op(&BinaryOperator::Divide, Value::Int32(10), Value::Int32(0)),
        Err(RuntimeError::DivisionByZero)
    ));
    assert!(matches!(
        evaluate_binary_op(&BinaryOperator::Divide, Value::UInt8(10), f64v(0.2)),
        Err(RuntimeError::DivisionByZero)
    ));
}

#[test]
fn arithmetic_takes_left_type() {
    assert_eq!(
        evaluate_binary_op(&BinaryOperator::Add, Value::UInt8(250), Value::Int64(3)).unwrap(),
        Value::UInt8(253)
    );
    assert_eq!(
        evaluate_binary_op(&BinaryOperator::Add, Value::Int8(1), Value::Int16(300)).unwrap(),
        Value::Int8(45)
    );
    assert_eq!(
        evaluate_binary_op(&BinaryOperator::Multiply, Value::Int16(-7), Value::Int8(6)).unwrap(),
        Value::Int16(-42)
    );
    assert_eq!(
        evaluate_binary_op(&BinaryOperator::Divide, Value::Int32(-7), Value::Int32(2)).unwrap(),
        Value::Int32(-3)
    );
    assert_eq!(
        evaluate_binary_op(&BinaryOperator::Subtract, Value::UInt64(10), Value::UInt64(4)).unwrap(),
        Value::UInt64(6)
    );
}

#[test]
fn arithmetic_overflow_fails() {
    assert!(matches!(
        evaluate_binary_op(&BinaryOperator::Add, Value::Int8(127), Value::Int8(1)),
        Err(RuntimeError::ArithmeticOverflow)
    ));
    assert!(matches!(
        evaluate_binary_op(&BinaryOperator::Subtract, Value::UInt8(0), Value::UInt8(1)),
        Err(RuntimeError::ArithmeticOverflow)
    ));
    assert!(matches!(
        evaluate_binary_op(&BinaryOperator::Multiply, Value::UInt64(u64::MAX), Value::UInt64(u64::MAX)),
        Err(RuntimeError::ArithmeticOverflow)
    ));
    assert!(matches!(
        evaluate_binary_op(&BinaryOperator::Divide, Value::Int64(i64::MIN), Value::Int64(-1)),
        Err(RuntimeError::ArithmeticOverflow)
    ));
}

#[test]
fn unsupported_pairs_give_null() {
    assert_eq!(
        evaluate_binary_op(
            &BinaryOperator::Add,
            Value::String("a".to_string()),
            Value::String("b".to_string())
        )
        .unwrap(),
        Value::Null
    );
    assert_eq!(
        evaluate_binary_op(&BinaryOperator::Modulo, Value::Int8(5), Value::Int8(2)).unwrap(),
        Value::Null
    );
    assert_eq!(
        evaluate_binary_op(&BinaryOperator::Add, Value::Int8(5), Value::Bool(true)).unwrap(),
        Value::Null
    );
    assert!(matches!(
        evaluate_binary_op(&BinaryOperator::Add, f64v(1.0), Value::Int8(1)),
        Err(RuntimeError::FloatingPoint)
    ));
}

#[test]
fn evaluate_tree_with_variables() {
    let mut rt = Runtime::new();
    rt.declare_variable("x".to_string(), Value::Int8(5), "$".to_string());
    let expr = Expression::BinaryOp {
        op: BinaryOperator::Add,
        left: Box::new(Expression::Variable("x".to_string())),
        right: Box::new(Expression::Integer(3)),
    };
    assert_eq!(evaluate(&expr, &rt, None).unwrap(), Value::Int8(8));
    let missing = Expression::Variable("nope".to_string());
    assert_eq!(evaluate(&missing, &rt, None).unwrap(), Value::Null);
    assert!(matches!(
        evaluate(&missing, &rt, Some(&"int8".to_string())),
        Err(RuntimeError::TypeMismatch { .. })
    ));
    assert_eq!(
        evaluate(&Expression::Integer(300), &rt, Some(&"$".to_string())).unwrap(),
        Value::Int16(300)
    );
}

#[test]
fn evaluate_coerces_a_lone_variable() {
    let mut rt = Runtime::new();
    rt.declare_variable("x".to_string(), Value::Int64(300), "int64".to_string());
    let var = Expression::Variable("x".to_string());
    assert_eq!(evaluate(&var, &rt, Some(&"int8".to_string())).unwrap(), Value::Int8(44));
    assert_eq!(evaluate(&var, &rt, None).unwrap(), Value::Int64(300));
}

#[test]
fn store_set_undeclared_fails() {
    let mut rt = Runtime::new();
    match rt.set_variable("ghost".to_string(), Value::Int8(1)) {
        Err(RuntimeError::VariableNotFound { name }) => assert_eq!(name, "ghost"),
        other => panic!("unexpected {:?}", other),
    }
    assert!(rt.get_variable("ghost").is_none());
}

#[test]
fn store_redeclare_replaces() {
    let mut rt = Runtime::new();
    rt.declare_variable("a".to_string(), Value::Int8(1), "int8".to_string());
    rt.declare_variable("a".to_string(), Value::Bool(true), "bool".to_string());
    assert_eq!(rt.get_variable("a"), Some(&Value::Bool(true)));
    assert_eq!(rt.getVarType("a").map(|s| s.as_str()), Some("bool"));
}

#[test]
fn store_set_coerces_to_declared_type() {
    let mut rt = Runtime::new();
    rt.declare_variable("a".to_string(), Value::Int16(1), "int16".to_string());
    rt.set_variable("a".to_string(), Value::Int64(70000)).unwrap();
    assert_eq!(rt.get_variable("a"), Some(&Value::Int16(4464)));
    assert!(matches!(
        rt.set_variable("a".to_string(), Value::Bool(true)),
        Err(RuntimeError::TypeMismatch { .. })
    ));
    assert_eq!(rt.get_variable("a"), Some(&Value::Int16(4464)));
}

fn program_tokens() -> Vec<(Token, String)> {
    // var x $ = 5; var y $ = 3; x = x + y; -> x;  (the print statement is `x ->;`)
    vec![
        tok(Token::Var, "var"),
        tok(Token::Name, "x"),
        tok(Token::DataType, "$"),
        tok(Token::Equals, "="),
        tok(Token::Number, "5"),
        tok(Token::Semicolon, ";"),
        tok(Token::Var, "var"),
        tok(Token::Name, "y"),
        tok(Token::DataType, "$"),
        tok(Token::Equals, "="),
        tok(Token::Number, "3"),
        tok(Token::Semicolon, ";"),
        tok(Token::Name, "x"),
        tok(Token::Equals, "="),
        tok(Token::Name, "x"),
        tok(Token::Addition, "+"),
        tok(Token::Name, "y"),
        tok(Token::Semicolon, ";"),
        tok(Token::Name, "x"),
        tok(Token::Print, "->"),
        tok(Token::Semicolon, ";"),
    ]
}

#[test]
fn end_to_end_program() {
    let code = parseCode(chunkCode(program_tokens()).unwrap()).unwrap();
    assert_eq!(code.len(), 4);
    let mut rt = Runtime::new();
    let mut events: Vec<Event> = Vec::new();
    execute_statement(&mut rt, &code[0], &mut events).unwrap();
    assert_eq!(rt.get_variable("x"), Some(&Value::Int8(5)));
    execute_statement(&mut rt, &code[1], &mut events).unwrap();
    assert_eq!(rt.get_variable("y"), Some(&Value::Int8(3)));
    execute_statement(&mut rt, &code[2], &mut events).unwrap();
    assert_eq!(rt.get_variable("x"), Some(&Value::Int8(8)));
    assert!(events.is_empty());
    execute_statement(&mut rt, &code[3], &mut events).unwrap();
    assert!(matches!(&events[..], [Event::Printed(Value::Int8(8))]));

    let code = parseCode(chunkCode(program_tokens()).unwrap()).unwrap();
    let run = jruntime(code);
    assert!(run.outcome.is_ok());
    match &run.events[..] {
        [Event::Printed(v)] => {
            assert_eq!(*v, Value::Int8(8));
            assert_eq!(render(v).unwrap(), "8");
        }
        other => panic!("unexpected {:?}", other),
    }
}

#[test]
fn render_values() {
    assert_eq!(render(&Value::Int8(8)).unwrap(), "8");
    assert_eq!(render(&Value::Int64(-120)).unwrap(), "-120");
    assert_eq!(render(&Value::Int64(i64::MIN)).unwrap(), "-9223372036854775808");
    assert_eq!(render(&Value::UInt64(u64::MAX)).unwrap(), "18446744073709551615");
    assert_eq!(render(&Value::UInt16(0)).unwrap(), "0");
    assert_eq!(render(&Value::Bool(true)).unwrap(), "true");
    assert_eq!(render(&Value::Bool(false)).unwrap(), "false");
    assert_eq!(render(&Value::String("\"hi\"".to_string())).unwrap(), "\"hi\"");
    assert_eq!(render(&Value::Null).unwrap(), "Null");
    assert!(render(&f64v(1.5)).is_none());
}

#[test]
fn program_soft_and_hard_failures() {
    // Printing an undeclared name reports the miss, prints Null, and the run goes on.
    let code = vec![
        ParsedBlock::PrintVar { name: "q".to_string() },
        ParsedBlock::VarDec {
            identifier: "var".to_string(),
            name: "z".to_string(),
            datatype: "int8".to_string(),
            value: Expression::Integer(7),
        },
        ParsedBlock::PrintVar { name: "z".to_string() },
    ];
    let run = jruntime(code);
    assert!(run.outcome.is_ok());
    match &run.events[..] {
        [Event::VariableNotFound(n), Event::Printed(Value::Null), Event::Printed(v)] => {
            assert_eq!(n, "q");
            assert_eq!(*v, Value::Int8(7));
        }
        other => panic!("unexpected {:?}", other),
    }
    // A value that cannot take its declared type stops the run; what was
    // printed before stays.
    let code = vec![
        ParsedBlock::VarDec {
            identifier: "var".to_string(),
            name: "a".to_string(),
            datatype: "int8".to_string(),
            value: Expression::Integer(1),
        },
        ParsedBlock::PrintVar { name: "a".to_string() },
        ParsedBlock::VarDec {
            identifier: "var".to_string(),
            name: "b".to_string(),
            datatype: "int8".to_string(),
            value: Expression::Boolean(true),
        },
        ParsedBlock::PrintVar { name: "b".to_string() },
    ];
    let run = jruntime(code);
    assert!(matches!(run.outcome, Err(RuntimeError::TypeMismatch { .. })));
    assert!(matches!(&run.events[..], [Event::Printed(Value::Int8(1))]));
    // A missing name inside a value is reported before the run stops.
    let code = vec![ParsedBlock::VarDec {
        identifier: "var".to_string(),
        name: "c".to_string(),
        datatype: "int8".to_string(),
        value: Expression::Variable("gone".to_string()),
    }];
    let run = jruntime(code);
    assert!(matches!(run.outcome, Err(RuntimeError::TypeMismatch { .. })));
    assert!(matches!(&run.events[..], [Event::VariableNotFound(n)] if n == "gone"));
    // Assigning to an undeclared name stops the run.
    let code = vec![ParsedBlock::VarSet { name: "u".to_string(), value: Expression::Integer(1) }];
    assert!(matches!(jruntime(code).outcome, Err(RuntimeError::VariableNotFound { .. })));
}

#[test]
fn literal_text_round_trip() {
    for n in [0i64, 7, 42, -120, i64::MAX, i64::MIN] {
        let text = render(&Value::Int64(n)).unwrap();
        let e = evaluateExpression(&vec![tok(Token::Number, &text)]).unwrap();
        let rt = Runtime::new();
        let v = evaluate(&e, &rt, None).unwrap();
        assert_eq!(v, Value::Int64(n));
        assert_eq!(render(&v).unwrap(), text);
    }
    for b in [true, false] {
        let text = render(&Value::Bool(b)).unwrap();
        let e = evaluateExpression(&vec![tok(Token::Bool, &text)]).unwrap();
        assert!(matches!(e, Expression::Boolean(x) if x == b));
    }
}
