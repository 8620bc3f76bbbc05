use vstd::prelude::*;
use crate::evaluator::RuntimeError;
use crate::float_bits::{FloatWidth, float_to_int, float_bits_to_int};
use crate::value::{
    IntKind, Value, int_kind, int_value, make_int, wrap, in_range, int_parts, make_int_exec,
    wrap_exec,
};

verus! {

/// What a type tag asks for.
#[derive(PartialEq, Eq, Structural, Clone, Copy, Debug)]
pub enum Target {
    /// `$`: infer the smallest integer type, keep other values.
    Infer,
    /// `int`: the smallest integer type that holds the value.
    AnyInt,
    /// `float`: the narrowest float that holds the value.
    AnyFloat,
    Int(IntKind),
    Float(FloatWidth),
    Bool,
    Str,
    Unknown,
}

/// Text equality of two strings.
pub fn str_eq(a: &str, b: &str) -> (r: bool)
    ensures
        r == (a@ == b@),
{
    let n = a.unicode_len();
    if n != b.unicode_len() {
        return false;
    }
    let mut i: usize = 0;
    while i < n
        invariant
            i <= n,
            n == a@.len(),
            n == b@.len(),
            forall|j: int| 0 <= j < i ==> a@[j] == b@[j],
        decreases n - i,
    {
        if a.get_char(i) != b.get_char(i) {
            return false;
        }
        i = i + 1;
    }
    assert(a@ =~= b@);
    true
}

/// The meaning of a type tag.
pub open spec fn target_of(t: Seq<char>) -> Target {
    if t == "$"@ {
        Target::Infer
    } else if t == "int"@ {
        Target::AnyInt
    } else if t == "float"@ {
        Target::AnyFloat
    } else if t == "int8"@ {
        Target::Int(IntKind::I8)
    } else if t == "uint8"@ {
        Target::Int(IntKind::U8)
    } else if t == "int16"@ {
        Target::Int(IntKind::I16)
    } else if t == "uint16"@ {
        Target::Int(IntKind::U16)
    } else if t == "int32"@ {
        Target::Int(IntKind::I32)
    } else if t == "uint32"@ {
        Target::Int(IntKind::U32)
    } else if t == "int64"@ {
        Target::Int(IntKind::I64)
    } else if t == "uint64"@ {
        Target::Int(IntKind::U64)
    } else if t == "float32"@ {
        Target::Float(FloatWidth::F32)
    } else if t == "float64"@ {
        Target::Float(FloatWidth::F64)
    } else if t == "bool"@ {
        Target::Bool
    } else if t == "string"@ {
        Target::Str
    } else {
        Target::Unknown
    }
}

pub fn parse_target(t: &str) -> (r: Target)
    ensures
        r == target_of(t@),
{
    if str_eq(t, "$") {
        Target::Infer
    } else if str_eq(t, "int") {
        Target::AnyInt
    } else if str_eq(t, "float") {
        Target::AnyFloat
    } else if str_eq(t, "int8") {
        Target::Int(IntKind::I8)
    } else if str_eq(t, "uint8") {
        Target::Int(IntKind::U8)
    } else if str_eq(t, "int16") {
        Target::Int(IntKind::I16)
    } else if str_eq(t, "uint16") {
        Target::Int(IntKind::U16)
    } else if str_eq(t, "int32") {
        Target::Int(IntKind::I32)
    } else if str_eq(t, "uint32") {
        Target::Int(IntKind::U32)
    } else if str_eq(t, "int64") {
        Target::Int(IntKind::I64)
    } else if str_eq(t, "uint64") {
        Target::Int(IntKind::U64)
    } else if str_eq(t, "float32") {
        Target::Float(FloatWidth::F32)
    } else if str_eq(t, "float64") {
        Target::Float(FloatWidth::F64)
    } else if str_eq(t, "bool") {
        Target::Bool
    } else if str_eq(t, "string") {
        Target::Str
    } else {
        Target::Unknown
    }
}

/// The first of int8, uint8, int16, uint16, int32, uint32, int64, uint64
/// whose range holds `n`.
pub open spec fn smallest_kind(n: int) -> IntKind {
    if in_range(IntKind::I8, n) {
        IntKind::I8
    } else if in_range(IntKind::U8, n) {
        IntKind::U8
    } else if in_range(IntKind::I16, n) {
        IntKind::I16
    } else if in_range(IntKind::U16, n) {
        IntKind::U16
    } else if in_range(IntKind::I32, n) {
        IntKind::I32
    } else if in_range(IntKind::U32, n) {
        IntKind::U32
    } else if in_range(IntKind::I64, n) {
        IntKind::I64
    } else {
        IntKind::U64
    }
}

fn smallest_kind_exec(n: i128) -> (r: IntKind)
    ensures
        r == smallest_kind(n as int),
{
    if -0x80 <= n && n <= 0x7f {
        IntKind::I8
    } else if 0 <= n && n <= 0xff {
        IntKind::U8
    } else if -0x8000 <= n && n <= 0x7fff {
        IntKind::I16
    } else if 0 <= n && n <= 0xffff {
        IntKind::U16
    } else if -0x8000_0000 <= n && n <= 0x7fff_ffff {
        IntKind::I32
    } else if 0 <= n && n <= 0xffff_ffff {
        IntKind::U32
    } else if -0x8000_0000_0000_0000 <= n && n <= 0x7fff_ffff_ffff_ffff {
        IntKind::I64
    } else {
        IntKind::U64
    }
}

/// The outcome of a coercion.
pub enum Coercion {
    To(Value),
    /// A rule applies, but it needs floating-point arithmetic.
    NeedsFloat,
    NoRule,
}

/// What coercing `v` to `t` gives.
pub open spec fn coercion(t: Target, v: Value) -> Coercion {
    let n = int_value(v);
    match t {
        Target::Infer => if int_kind(v) is Some {
            Coercion::To(make_int(smallest_kind(n), n))
        } else {
            match v {
                Value::Float64(_) | Value::Bool(_) | Value::String(_) => Coercion::To(v),
                Value::Float32(_) => Coercion::NeedsFloat,
                _ => Coercion::NoRule,
            }
        },
        Target::AnyInt => if int_kind(v) is Some {
            Coercion::To(make_int(smallest_kind(n), n))
        } else {
            Coercion::NoRule
        },
        Target::AnyFloat => match v {
            Value::Float32(_) => Coercion::To(v),
            Value::Float64(_) => Coercion::NeedsFloat,
            _ => if int_kind(v) is Some {
                Coercion::NeedsFloat
            } else {
                Coercion::NoRule
            },
        },
        Target::Int(k) => match v {
            Value::Float32(b) => Coercion::To(
                make_int(k, float_to_int(FloatWidth::F32, b as nat, k, false)),
            ),
            Value::Float64(b) => Coercion::To(
                make_int(k, float_to_int(FloatWidth::F64, b as nat, k, false)),
            ),
            _ => if int_kind(v) is Some {
                Coercion::To(make_int(k, wrap(k, n)))
            } else {
                Coercion::NoRule
            },
        },
        Target::Float(w) => match v {
            Value::Float32(_) => if w == FloatWidth::F32 {
                Coercion::To(v)
            } else {
                Coercion::NeedsFloat
            },
            Value::Float64(_) => if w == FloatWidth::F64 {
                Coercion::To(v)
            } else {
                Coercion::NeedsFloat
            },
            _ => if int_kind(v) is Some {
                Coercion::NeedsFloat
            } else {
                Coercion::NoRule
            },
        },
        Target::Bool => if v is Bool {
            Coercion::To(v)
        } else {
            Coercion::NoRule
        },
        Target::Str => if v is String {
            Coercion::To(v)
        } else {
            Coercion::NoRule
        },
        Target::Unknown => Coercion::NoRule,
    }
}

/// The result of coercing `v` to the type tag `t`, as `coercion` states.
pub open spec fn coerce_ok(t: Seq<char>, v: Value, r: Result<Value, RuntimeError>) -> bool {
    match coercion(target_of(t), v) {
        Coercion::To(x) => r == Ok::<Value, RuntimeError>(x),
        Coercion::NeedsFloat => r matches Err(RuntimeError::FloatingPoint),
        Coercion::NoRule => r matches Err(RuntimeError::TypeMismatch { expected, found }) && expected@
            == t && found == v,
    }
}

/// Converts a value to the type named by `type_str`. Integer casts to an
/// explicit width wrap around; floats cast to an integer width truncate
/// toward zero and saturate. A pairing with no rule is a type mismatch.
pub fn coerce_to_type(val: Value, type_str: &str) -> (r: Result<Value, RuntimeError>)
    ensures
        coerce_ok(type_str@, val, r),
{
    let target = parse_target(type_str);
    match target {
        Target::Infer | Target::AnyInt => {
            if let Some((_, n)) = int_parts(&val) {
                return Ok(make_int_exec(smallest_kind_exec(n), n));
            }
            if target == Target::Infer {
                match val {
                    Value::Float64(_) | Value::Bool(_) | Value::String(_) => {
                        return Ok(val);
                    },
                    Value::Float32(_) => {
                        return Err(RuntimeError::FloatingPoint);
                    },
                    _ => {},
                }
            }
        },
        Target::AnyFloat => match val {
            Value::Float32(_) => {
                return Ok(val);
            },
            Value::Float64(_) => {
                return Err(RuntimeError::FloatingPoint);
            },
            _ => {
                if int_parts(&val).is_some() {
                    return Err(RuntimeError::FloatingPoint);
                }
            },
        },
        Target::Int(k) => match val {
            Value::Float32(b) => {
                return Ok(make_int_exec(k, float_bits_to_int(FloatWidth::F32, b as u64, k, false)));
            },
            Value::Float64(b) => {
                return Ok(make_int_exec(k, float_bits_to_int(FloatWidth::F64, b, k, false)));
            },
            _ => {
                if let Some((_, n)) = int_parts(&val) {
                    return Ok(make_int_exec(k, wrap_exec(k, n)));
                }
            },
        },
        Target::Float(w) => match val {
            Value::Float32(_) => {
                return if w == FloatWidth::F32 {
                    Ok(val)
                } else {
                    Err(RuntimeError::FloatingPoint)
                };
            },
            Value::Float64(_) => {
                return if w == FloatWidth::F64 {
                    Ok(val)
                } else {
                    Err(RuntimeError::FloatingPoint)
                };
            },
            _ => {
                if int_parts(&val).is_some() {
                    return Err(RuntimeError::FloatingPoint);
                }
            },
        },
        Target::Bool => {
            if let Value::Bool(_) = val {
                return Ok(val);
            }
        },
        Target::Str => {
            if let Value::String(_) = val {
                return Ok(val);
            }
        },
        Target::Unknown => {},
    }
    Err(RuntimeError::TypeMismatch { expected: type_str.to_owned(), found: val })
}

proof fn lemma_wrap_in_range(k: IntKind, n: int)
    requires
        in_range(k, n),
    ensures
        wrap(k, n) == n,
{
    let m = k.modulus();
    assert(k.lo() <= n <= k.hi() && m == k.hi() - k.lo() + 1 && m > 0);
    if n >= 0 {
        vstd::arithmetic::div_mod::lemma_small_mod(n as nat, m as nat);
    } else {
        vstd::arithmetic::div_mod::lemma_small_mod((n + m) as nat, m as nat);
        vstd::arithmetic::div_mod::lemma_mod_add_multiples_vanish(n, m);
    }
}

/// Inferring a type (`$`) for an int64 keeps its number and picks the
/// smallest type that holds it; casting that value to any explicit integer
/// width that holds the number gives the number at that width.
pub proof fn lemma_infer_then_cast(v: i64, k: IntKind)
    requires
        in_range(k, v as int),
    ensures
        coercion(Target::Infer, Value::Int64(v)) matches Coercion::To(y) && int_kind(y) == Some(
            smallest_kind(v as int),
        ) && int_value(y) == v && coercion(Target::Int(k), y) == Coercion::To(
            make_int(k, v as int),
        ),
{
    let y = make_int(smallest_kind(v as int), v as int);
    assert(int_value(y) == v);
    lemma_wrap_in_range(k, v as int);
}

} // verus!
