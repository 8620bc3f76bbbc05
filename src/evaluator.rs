use vstd::prelude::*;
use crate::coerce::{coerce_ok, coerce_to_type};
use crate::expression::{BinaryOperator, Expression};
use crate::runtime::Runtime;
use crate::float_bits::{FloatWidth, float_to_int, float_bits_to_int};
use crate::value::{
    IntKind, Value, int_kind, int_value, make_int, wrap, in_range, int_parts, make_int_exec,
    wrap_exec,
};

verus! {

/// Failures of evaluation, coercion and variable access.
#[derive(Debug)]
pub enum RuntimeError {
    /// Integer division by zero.
    DivisionByZero,
    /// An arithmetic result outside the range of its type.
    ArithmeticOverflow,
    /// The operation needs floating-point arithmetic, which this library
    /// leaves to its host.
    FloatingPoint,
    /// No coercion rule takes `found` to the type named `expected`.
    TypeMismatch { expected: String, found: Value },
    /// The name has not been declared.
    VariableNotFound { name: String },
}

/// The operators that the evaluator computes.
pub open spec fn is_arith(op: BinaryOperator) -> bool {
    op == BinaryOperator::Add || op == BinaryOperator::Subtract || op == BinaryOperator::Multiply
        || op == BinaryOperator::Divide
}

pub open spec fn is_numeric(v: Value) -> bool {
    int_kind(v) is Some || v is Float32 || v is Float64
}

/// The right operand brought to the left operand's integer type `k`: an
/// integer wraps, a float is rounded half away from zero and saturates.
pub open spec fn right_operand(k: IntKind, r: Value) -> Option<int> {
    match r {
        Value::Float32(b) => Some(float_to_int(FloatWidth::F32, b as nat, k, true)),
        Value::Float64(b) => Some(float_to_int(FloatWidth::F64, b as nat, k, true)),
        _ => if int_kind(r) is Some {
            Some(wrap(k, int_value(r)))
        } else {
            None
        },
    }
}

pub open spec fn abs(a: int) -> int {
    if a < 0 {
        -a
    } else {
        a
    }
}

/// Integer division rounding toward zero.
pub open spec fn div_trunc(a: int, b: int) -> int {
    let q = abs(a) / abs(b);
    if (a < 0) != (b < 0) {
        -q
    } else {
        q
    }
}

pub open spec fn arith(op: BinaryOperator, a: int, b: int) -> int {
    match op {
        BinaryOperator::Add => a + b,
        BinaryOperator::Subtract => a - b,
        BinaryOperator::Multiply => a * b,
        _ => div_trunc(a, b),
    }
}

/// The result of `l op r`. The result takes the left operand's type; results
/// out of that type's range are an error. Operators other than the four
/// arithmetic ones, and operand pairs with no rule, give `Null`.
pub open spec fn binary_result(op: BinaryOperator, l: Value, r: Value) -> Result<Value, RuntimeError> {
    if !is_arith(op) {
        Ok(Value::Null)
    } else {
        match int_kind(l) {
            Some(k) => match right_operand(k, r) {
                None => Ok(Value::Null),
                Some(b) => if op == BinaryOperator::Divide && b == 0 {
                    Err(RuntimeError::DivisionByZero)
                } else if in_range(k, arith(op, int_value(l), b)) {
                    Ok(make_int(k, arith(op, int_value(l), b)))
                } else {
                    Err(RuntimeError::ArithmeticOverflow)
                },
            },
            None => if (l is Float32 || l is Float64) && is_numeric(r) {
                Err(RuntimeError::FloatingPoint)
            } else {
                Ok(Value::Null)
            },
        }
    }
}

/// An arithmetic result that is not `Null` has the left operand's type.
pub proof fn lemma_result_takes_left_type(op: BinaryOperator, l: Value, r: Value)
    requires
        binary_result(op, l, r) matches Ok(v) && v != Value::Null,
    ensures
        int_kind(l) is Some,
        int_kind(binary_result(op, l, r)->Ok_0) == int_kind(l),
{
}

/// `a op b` for two numbers of one integer type, checked against its range.
fn int_arith(op: BinaryOperator, k: IntKind, a: i128, b: i128) -> (r: Result<Value, RuntimeError>)
    requires
        is_arith(op),
        in_range(k, a as int),
        in_range(k, b as int),
    ensures
        r == (if op == BinaryOperator::Divide && b == 0 {
            Err(RuntimeError::DivisionByZero)
        } else if in_range(k, arith(op, a as int, b as int)) {
            Ok(make_int(k, arith(op, a as int, b as int)))
        } else {
            Err::<Value, RuntimeError>(RuntimeError::ArithmeticOverflow)
        }),
{
    let lo = k.lo_exec();
    let hi = k.hi_exec();
    let n: i128 = match op {
        BinaryOperator::Add => a + b,
        BinaryOperator::Subtract => a - b,
        _ => {
            if op == BinaryOperator::Divide && b == 0 {
                return Err(RuntimeError::DivisionByZero);
            }
            let ma: u128 = if a < 0 { (-a) as u128 } else { a as u128 };
            let mb: u128 = if b < 0 { (-b) as u128 } else { b as u128 };
            assert(ma == abs(a as int) && mb == abs(b as int));
            let m: u128 = if op == BinaryOperator::Multiply {
                assert(ma as int * mb as int <= 0xffff_ffff_ffff_ffff * 0xffff_ffff_ffff_ffff)
                    by (nonlinear_arith)
                    requires
                        ma <= 0xffff_ffff_ffff_ffff,
                        mb <= 0xffff_ffff_ffff_ffff,
                ;
                ma * mb
            } else {
                ma / mb
            };
            if m > 0x1_0000_0000_0000_0000 {
                proof {
                    assert(abs(a as int * b as int) == ma as int * mb as int) by (nonlinear_arith)
                        requires
                            ma == abs(a as int),
                            mb == abs(b as int),
                    ;
                }
                return Err(RuntimeError::ArithmeticOverflow);
            }
            let signed: i128 = if (a < 0) != (b < 0) { -(m as i128) } else { m as i128 };
            proof {
                if op == BinaryOperator::Multiply {
                    assert(signed == a as int * b as int) by (nonlinear_arith)
                        requires
                            ma == abs(a as int),
                            mb == abs(b as int),
                            m == ma * mb,
                            signed == (if (a < 0) != (b < 0) { -(m as int) } else { m as int }),
                    ;
                }
            }
            signed
        },
    };
    assert(n == arith(op, a as int, b as int));
    if lo <= n && n <= hi {
        Ok(make_int_exec(k, n))
    } else {
        Err(RuntimeError::ArithmeticOverflow)
    }
}

/// Applies a binary operator to two values, as `binary_result` states.
pub fn evaluate_binary_op(op: &BinaryOperator, l: Value, r: Value) -> (res: Result<Value, RuntimeError>)
    ensures
        res == binary_result(*op, l, r),
{
    match op {
        BinaryOperator::Add | BinaryOperator::Subtract | BinaryOperator::Multiply
        | BinaryOperator::Divide => {},
        _ => {
            return Ok(Value::Null);
        },
    }
    match int_parts(&l) {
        Some((k, a)) => {
            let b: i128 = match r {
                Value::Float32(x) => float_bits_to_int(FloatWidth::F32, x as u64, k, true),
                Value::Float64(x) => float_bits_to_int(FloatWidth::F64, x, k, true),
                _ => match int_parts(&r) {
                    Some((_, v)) => wrap_exec(k, v),
                    None => {
                        return Ok(Value::Null);
                    },
                },
            };
            int_arith(*op, k, a, b)
        },
        None => match (l, r) {
            (Value::Float32(_), Value::Bool(_)) | (Value::Float32(_), Value::String(_))
            | (Value::Float32(_), Value::Null) | (Value::Float64(_), Value::Bool(_))
            | (Value::Float64(_), Value::String(_)) | (Value::Float64(_), Value::Null) => Ok(
                Value::Null,
            ),
            (Value::Float32(_), _) | (Value::Float64(_), _) => Err(RuntimeError::FloatingPoint),
            _ => Ok(Value::Null),
        },
    }
}

/// The value of an expression: literals stand for themselves (an integer as
/// an int64), a variable for its binding (`Null` when it has none), and an
/// operator node for the operator applied to the values of its operands.
pub open spec fn eval_spec(e: Expression, rt: Runtime) -> Result<Value, RuntimeError>
    decreases e,
{
    match e {
        Expression::String(s) => Ok(Value::String(s)),
        Expression::Float(_) => Err(RuntimeError::FloatingPoint),
        Expression::Integer(v) => Ok(Value::Int64(v)),
        Expression::Boolean(b) => Ok(Value::Bool(b)),
        Expression::Variable(n) => match rt.binding(n@) {
            Some((v, _)) => Ok(v),
            None => Ok(Value::Null),
        },
        Expression::BinaryOp { op, left, right } => match eval_spec(*left, rt) {
            Err(x) => Err(x),
            Ok(l) => match eval_spec(*right, rt) {
                Err(x) => Err(x),
                Ok(r) => binary_result(op, l, r),
            },
        },
    }
}

/// The value of an expression, coerced to `t` when one is given, as
/// `evaluate` computes it.
pub open spec fn evaluated(e: Expression, rt: Runtime, t: Option<Seq<char>>, r: Result<Value, RuntimeError>) -> bool {
    match t {
        None => r == eval_spec(e, rt),
        Some(t) => match eval_spec(e, rt) {
            Err(x) => r == Err::<Value, RuntimeError>(x),
            Ok(v) => coerce_ok(t, v, r),
        },
    }
}

fn eval_tree(expr: &Expression, runtime: &Runtime) -> (r: Result<Value, RuntimeError>)
    ensures
        r == eval_spec(*expr, *runtime),
    decreases expr,
{
    match expr {
        Expression::String(s) => Ok(Value::String(s.clone())),
        Expression::Float(_) => Err(RuntimeError::FloatingPoint),
        Expression::Integer(v) => Ok(Value::Int64(*v)),
        Expression::Boolean(b) => Ok(Value::Bool(*b)),
        Expression::Variable(name) => match runtime.get_variable(name.as_str()) {
            Some(v) => Ok(v.copy()),
            None => Ok(Value::Null),
        },
        Expression::BinaryOp { op, left, right } => {
            let l = eval_tree(left, runtime);
            match l {
                Err(x) => Err(x),
                Ok(lv) => {
                    let r = eval_tree(right, runtime);
                    match r {
                        Err(x) => Err(x),
                        Ok(rv) => evaluate_binary_op(op, lv, rv),
                    }
                },
            }
        },
    }
}

/// Evaluates an expression against the variables of `runtime` and coerces
/// the result to `expected_type` when one is given.
pub fn evaluate(expr: &Expression, runtime: &Runtime, expected_type: Option<&String>) -> (r: Result<Value, RuntimeError>)
    ensures
        evaluated(
            *expr,
            *runtime,
            match expected_type {
                Some(t) => Some(t@),
                None => None,
            },
            r,
        ),
{
    let val = eval_tree(expr, runtime);
    match expected_type {
        None => val,
        Some(t) => match val {
            Err(x) => Err(x),
            Ok(v) => coerce_to_type(v, t.as_str()),
        },
    }
}

} // verus!
