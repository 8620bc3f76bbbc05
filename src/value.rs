use vstd::prelude::*;

verus! {

/// A runtime value. Floating-point values are held as their IEEE-754 bit
/// patterns (binary32 in `Float32`, binary64 in `Float64`).
#[derive(Debug)]
pub enum Value {
    Int8(i8),
    UInt8(u8),
    Int16(i16),
    UInt16(u16),
    Int32(i32),
    UInt32(u32),
    Int64(i64),
    UInt64(u64),
    Float32(u32),
    Float64(u64),
    Bool(bool),
    String(String),
    Null,
}

/// Equality of values, with strings compared by their text.
pub open spec fn same_value(a: Value, b: Value) -> bool {
    match (a, b) {
        (Value::String(x), Value::String(y)) => x@ == y@,
        _ => a == b,
    }
}

impl PartialEq for Value {
    fn eq(&self, o: &Value) -> (r: bool)
        ensures
            r == same_value(*self, *o),
    {
        match (self, o) {
            (Value::Int8(a), Value::Int8(b)) => *a == *b,
            (Value::UInt8(a), Value::UInt8(b)) => *a == *b,
            (Value::Int16(a), Value::Int16(b)) => *a == *b,
            (Value::UInt16(a), Value::UInt16(b)) => *a == *b,
            (Value::Int32(a), Value::Int32(b)) => *a == *b,
            (Value::UInt32(a), Value::UInt32(b)) => *a == *b,
            (Value::Int64(a), Value::Int64(b)) => *a == *b,
            (Value::UInt64(a), Value::UInt64(b)) => *a == *b,
            (Value::Float32(a), Value::Float32(b)) => *a == *b,
            (Value::Float64(a), Value::Float64(b)) => *a == *b,
            (Value::Bool(a), Value::Bool(b)) => *a == *b,
            (Value::String(a), Value::String(b)) => a.eq(b),
            (Value::Null, Value::Null) => true,
            _ => false,
        }
    }
}

impl vstd::std_specs::cmp::PartialEqSpecImpl for Value {
    open spec fn obeys_eq_spec() -> bool {
        true
    }

    open spec fn eq_spec(&self, o: &Value) -> bool {
        same_value(*self, *o)
    }
}

impl Value {
    /// A copy of the value.
    pub fn copy(&self) -> (r: Value)
        ensures
            r == *self,
    {
        match self {
            Value::Int8(a) => Value::Int8(*a),
            Value::UInt8(a) => Value::UInt8(*a),
            Value::Int16(a) => Value::Int16(*a),
            Value::UInt16(a) => Value::UInt16(*a),
            Value::Int32(a) => Value::Int32(*a),
            Value::UInt32(a) => Value::UInt32(*a),
            Value::Int64(a) => Value::Int64(*a),
            Value::UInt64(a) => Value::UInt64(*a),
            Value::Float32(a) => Value::Float32(*a),
            Value::Float64(a) => Value::Float64(*a),
            Value::Bool(a) => Value::Bool(*a),
            Value::String(a) => Value::String(a.clone()),
            Value::Null => Value::Null,
        }
    }
}

/// The fixed-width integer types, in the order in which inference tries them.
#[derive(PartialEq, Eq, Structural, Clone, Copy, Debug)]
pub enum IntKind {
    I8,
    U8,
    I16,
    U16,
    I32,
    U32,
    I64,
    U64,
}

impl IntKind {
    pub open spec fn lo(self) -> int {
        match self {
            IntKind::I8 => -0x80,
            IntKind::I16 => -0x8000,
            IntKind::I32 => -0x8000_0000,
            IntKind::I64 => -0x8000_0000_0000_0000,
            _ => 0,
        }
    }

    pub open spec fn hi(self) -> int {
        match self {
            IntKind::I8 => 0x7f,
            IntKind::U8 => 0xff,
            IntKind::I16 => 0x7fff,
            IntKind::U16 => 0xffff,
            IntKind::I32 => 0x7fff_ffff,
            IntKind::U32 => 0xffff_ffff,
            IntKind::I64 => 0x7fff_ffff_ffff_ffff,
            IntKind::U64 => 0xffff_ffff_ffff_ffff,
        }
    }

    /// Number of distinct values of the type.
    pub open spec fn modulus(self) -> int {
        self.hi() - self.lo() + 1
    }

    pub fn lo_exec(self) -> (r: i128)
        ensures
            r == self.lo(),
    {
        match self {
            IntKind::I8 => -0x80,
            IntKind::I16 => -0x8000,
            IntKind::I32 => -0x8000_0000,
            IntKind::I64 => -0x8000_0000_0000_0000,
            _ => 0,
        }
    }

    pub fn hi_exec(self) -> (r: i128)
        ensures
            r == self.hi(),
    {
        match self {
            IntKind::I8 => 0x7f,
            IntKind::U8 => 0xff,
            IntKind::I16 => 0x7fff,
            IntKind::U16 => 0xffff,
            IntKind::I32 => 0x7fff_ffff,
            IntKind::U32 => 0xffff_ffff,
            IntKind::I64 => 0x7fff_ffff_ffff_ffff,
            IntKind::U64 => 0xffff_ffff_ffff_ffff,
        }
    }
}

pub open spec fn in_range(k: IntKind, n: int) -> bool {
    k.lo() <= n <= k.hi()
}

/// The integer type of an integer value.
pub open spec fn int_kind(v: Value) -> Option<IntKind> {
    match v {
        Value::Int8(_) => Some(IntKind::I8),
        Value::UInt8(_) => Some(IntKind::U8),
        Value::Int16(_) => Some(IntKind::I16),
        Value::UInt16(_) => Some(IntKind::U16),
        Value::Int32(_) => Some(IntKind::I32),
        Value::UInt32(_) => Some(IntKind::U32),
        Value::Int64(_) => Some(IntKind::I64),
        Value::UInt64(_) => Some(IntKind::U64),
        _ => None,
    }
}

/// The number an integer value stands for (0 for any other value).
pub open spec fn int_value(v: Value) -> int {
    match v {
        Value::Int8(a) => a as int,
        Value::UInt8(a) => a as int,
        Value::Int16(a) => a as int,
        Value::UInt16(a) => a as int,
        Value::Int32(a) => a as int,
        Value::UInt32(a) => a as int,
        Value::Int64(a) => a as int,
        Value::UInt64(a) => a as int,
        _ => 0,
    }
}

/// The value of type `k` that stands for `n`, which must be in range.
pub open spec fn make_int(k: IntKind, n: int) -> Value {
    match k {
        IntKind::I8 => Value::Int8(n as i8),
        IntKind::U8 => Value::UInt8(n as u8),
        IntKind::I16 => Value::Int16(n as i16),
        IntKind::U16 => Value::UInt16(n as u16),
        IntKind::I32 => Value::Int32(n as i32),
        IntKind::U32 => Value::UInt32(n as u32),
        IntKind::I64 => Value::Int64(n as i64),
        IntKind::U64 => Value::UInt64(n as u64),
    }
}

/// `n` cast to type `k` with two's-complement wrap-around.
pub open spec fn wrap(k: IntKind, n: int) -> int {
    let m = n % k.modulus();
    if m > k.hi() {
        m - k.modulus()
    } else {
        m
    }
}

/// `n` clamped to the range of type `k`.
pub open spec fn saturate(k: IntKind, n: int) -> int {
    if n < k.lo() {
        k.lo()
    } else if n > k.hi() {
        k.hi()
    } else {
        n
    }
}

/// Splits an integer value into its type and number.
pub fn int_parts(v: &Value) -> (r: Option<(IntKind, i128)>)
    ensures
        match int_kind(*v) {
            Some(k) => r == Some((k, int_value(*v) as i128)),
            None => r is None,
        },
{
    match v {
        Value::Int8(a) => Some((IntKind::I8, *a as i128)),
        Value::UInt8(a) => Some((IntKind::U8, *a as i128)),
        Value::Int16(a) => Some((IntKind::I16, *a as i128)),
        Value::UInt16(a) => Some((IntKind::U16, *a as i128)),
        Value::Int32(a) => Some((IntKind::I32, *a as i128)),
        Value::UInt32(a) => Some((IntKind::U32, *a as i128)),
        Value::Int64(a) => Some((IntKind::I64, *a as i128)),
        Value::UInt64(a) => Some((IntKind::U64, *a as i128)),
        _ => None,
    }
}

/// Builds the value of type `k` that stands for `n`.
pub fn make_int_exec(k: IntKind, n: i128) -> (r: Value)
    requires
        in_range(k, n as int),
    ensures
        r == make_int(k, n as int),
        int_kind(r) == Some(k),
        int_value(r) == n,
{
    match k {
        IntKind::I8 => Value::Int8(n as i8),
        IntKind::U8 => Value::UInt8(n as u8),
        IntKind::I16 => Value::Int16(n as i16),
        IntKind::U16 => Value::UInt16(n as u16),
        IntKind::I32 => Value::Int32(n as i32),
        IntKind::U32 => Value::UInt32(n as u32),
        IntKind::I64 => Value::Int64(n as i64),
        IntKind::U64 => Value::UInt64(n as u64),
    }
}

/// Casts `n` to type `k`, wrapping around as two's complement does.
pub fn wrap_exec(k: IntKind, n: i128) -> (r: i128)
    requires
        -0x8000_0000_0000_0000 <= n <= 0xffff_ffff_ffff_ffff,
    ensures
        r == wrap(k, n as int),
        in_range(k, r as int),
{
    let modulus: u128 = match k {
        IntKind::I8 | IntKind::U8 => 0x100,
        IntKind::I16 | IntKind::U16 => 0x1_0000,
        IntKind::I32 | IntKind::U32 => 0x1_0000_0000,
        IntKind::I64 | IntKind::U64 => 0x1_0000_0000_0000_0000,
    };
    let shifted: u128 = (n + 0x1_0000_0000_0000_0000) as u128;
    let m: u128 = shifted % modulus;
    assert(m as int == (n as int) % k.modulus()) by (nonlinear_arith)
        requires
            shifted as int == n + 0x1_0000_0000_0000_0000,
            m as int == shifted as int % modulus as int,
            modulus as int == k.modulus(),
            0x1_0000_0000_0000_0000int % k.modulus() == 0,
            k.modulus() > 0,
    {
        vstd::arithmetic::div_mod::lemma_mod_adds(n as int, 0x1_0000_0000_0000_0000int, k.modulus());
    }
    let hi = k.hi_exec();
    if m as i128 > hi {
        m as i128 - modulus as i128
    } else {
        m as i128
    }
}

} // verus!
