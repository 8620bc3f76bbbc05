use vstd::prelude::*;
use vstd::arithmetic::power2::{pow2, lemma2_to64, lemma2_to64_rest, lemma_pow2_unfold, lemma_pow2_strictly_increases, lemma_pow2_pos};
use crate::value::{IntKind, saturate};

verus! {

/// The two IEEE-754 binary formats a value can hold.
#[derive(PartialEq, Eq, Structural, Clone, Copy, Debug)]
pub enum FloatWidth {
    F32,
    F64,
}

impl FloatWidth {
    /// Number of fraction bits.
    pub open spec fn frac_bits(self) -> nat {
        match self {
            FloatWidth::F32 => 23,
            FloatWidth::F64 => 52,
        }
    }

    /// Two to the number of fraction bits: the weight of the lowest exponent bit.
    pub open spec fn frac_unit(self) -> nat {
        match self {
            FloatWidth::F32 => 0x80_0000,
            FloatWidth::F64 => 0x10_0000_0000_0000,
        }
    }

    /// The exponent field with every bit set (infinities and NaNs).
    pub open spec fn exp_max(self) -> nat {
        match self {
            FloatWidth::F32 => 0xff,
            FloatWidth::F64 => 0x7ff,
        }
    }

    /// The weight of the sign bit.
    pub open spec fn sign_unit(self) -> nat {
        match self {
            FloatWidth::F32 => 0x8000_0000,
            FloatWidth::F64 => 0x8000_0000_0000_0000,
        }
    }

    pub open spec fn bias(self) -> int {
        match self {
            FloatWidth::F32 => 127,
            FloatWidth::F64 => 1023,
        }
    }
}

pub open spec fn exp_field(w: FloatWidth, bits: nat) -> nat {
    (bits / w.frac_unit()) % (w.exp_max() + 1)
}

pub open spec fn frac_field(w: FloatWidth, bits: nat) -> nat {
    bits % w.frac_unit()
}

pub open spec fn is_negative(w: FloatWidth, bits: nat) -> bool {
    bits >= w.sign_unit()
}

/// The integer significand: the number is `significand * 2^exponent`.
pub open spec fn significand(w: FloatWidth, bits: nat) -> nat {
    if exp_field(w, bits) == 0 {
        frac_field(w, bits)
    } else {
        frac_field(w, bits) + w.frac_unit()
    }
}

pub open spec fn exponent(w: FloatWidth, bits: nat) -> int {
    (if exp_field(w, bits) == 0 { 1 } else { exp_field(w, bits) as int }) - w.bias() - w.frac_bits()
}

/// `sig * 2^e` made whole: rounded half away from zero when `round`, else
/// truncated.
pub open spec fn whole_part(sig: nat, e: int, round: bool) -> nat {
    if e >= 0 {
        sig * pow2(e as nat)
    } else if round {
        ((sig + pow2((-e - 1) as nat)) / pow2((-e) as nat)) as nat
    } else {
        sig / pow2((-e) as nat)
    }
}

/// The float with bit pattern `bits` cast to integer type `k`, after rounding
/// half away from zero (`round`) or truncating toward zero: out-of-range
/// numbers and infinities saturate, NaN gives 0.
pub open spec fn float_to_int(w: FloatWidth, bits: nat, k: IntKind, round: bool) -> int {
    if exp_field(w, bits) == w.exp_max() {
        if frac_field(w, bits) != 0 {
            0
        } else if is_negative(w, bits) {
            k.lo()
        } else {
            k.hi()
        }
    } else {
        let m = whole_part(significand(w, bits), exponent(w, bits), round) as int;
        saturate(k, if is_negative(w, bits) { -m } else { m })
    }
}

/// Two to the power `n`.
fn pow2_exec(n: u64) -> (r: u128)
    requires
        n <= 64,
    ensures
        r == pow2(n as nat),
{
    proof {
        lemma2_to64();
    }
    let mut p: u128 = 1;
    let mut i: u64 = 0;
    while i < n
        invariant
            i <= n <= 64,
            p == pow2(i as nat),
            pow2(64) == 0x1_0000_0000_0000_0000,
        decreases n - i,
    {
        proof {
            lemma_pow2_unfold((i + 1) as nat);
            if i + 1 < 64 {
                lemma_pow2_strictly_increases((i + 1) as nat, 64);
            }
        }
        p = p * 2;
        i = i + 1;
    }
    p
}

/// Casts the float with bit pattern `bits` to integer type `k`, as
/// `float_to_int` states.
pub fn float_bits_to_int(w: FloatWidth, bits: u64, k: IntKind, round: bool) -> (r: i128)
    requires
        bits < 2 * w.sign_unit(),
    ensures
        r == float_to_int(w, bits as nat, k, round),
{
    let unit: u64 = match w {
        FloatWidth::F32 => 0x80_0000,
        FloatWidth::F64 => 0x10_0000_0000_0000,
    };
    let emax: u64 = match w {
        FloatWidth::F32 => 0xff,
        FloatWidth::F64 => 0x7ff,
    };
    let sign_unit: u64 = match w {
        FloatWidth::F32 => 0x8000_0000,
        FloatWidth::F64 => 0x8000_0000_0000_0000,
    };
    let bias: i64 = match w {
        FloatWidth::F32 => 127,
        FloatWidth::F64 => 1023,
    };
    let fbits: i64 = match w {
        FloatWidth::F32 => 23,
        FloatWidth::F64 => 52,
    };
    let negative = bits >= sign_unit;
    let exp = (bits / unit) % (emax + 1);
    let frac = bits % unit;
    let lo = k.lo_exec();
    let hi = k.hi_exec();
    if exp == emax {
        if frac != 0 {
            return 0;
        } else if negative {
            return lo;
        } else {
            return hi;
        }
    }
    let sig: u64 = if exp == 0 { frac } else { frac + unit };
    let e: i64 = (if exp == 0 { 1 } else { exp as i64 }) - bias - fbits;
    proof {
        lemma2_to64();
        assert(sig < 0x20_0000_0000_0000);
    }
    let ghost m_spec = whole_part(sig as nat, e as int, round) as int;
    // A whole part beyond every integer type's range stands in for larger ones.
    let big: u128 = 0x2_0000_0000_0000_0000;
    let m: u128 = if e >= 0 {
        if e > 64 {
            proof {
                lemma_pow2_strictly_increases(64, e as nat);
                assert(sig >= 1);
                assert(sig * pow2(e as nat) >= pow2(e as nat)) by (nonlinear_arith)
                    requires sig >= 1;
                assert(m_spec > 0xffff_ffff_ffff_ffff);
            }
            big
        } else {
            let p = pow2_exec(e as u64);
            proof {
                if e < 64 {
                    lemma_pow2_strictly_increases(e as nat, 64);
                }
                assert(sig as int * p as int <= 0x20_0000_0000_0000 * 0x1_0000_0000_0000_0000)
                    by (nonlinear_arith)
                    requires
                        sig < 0x20_0000_0000_0000,
                        p <= 0x1_0000_0000_0000_0000,
                ;
            }
            sig as u128 * p
        }
    } else {
        let sh: u64 = (-e) as u64;
        if sh > 64 {
            proof {
                lemma_pow2_strictly_increases(53, (sh - 1) as nat);
                lemma_pow2_unfold(sh as nat);
                lemma_pow2_pos((sh - 1) as nat);
                lemma2_to64_rest();
                let d = pow2(sh as nat) as int;
                let h = pow2((sh - 1) as nat) as int;
                assert((sig + h) / d == 0) by (nonlinear_arith)
                    requires
                        0 <= sig < h,
                        d == 2 * h,
                ;
                assert(sig as int / d == 0) by (nonlinear_arith)
                    requires
                        0 <= sig < h,
                        d == 2 * h,
                ;
            }
            0
        } else {
            let p = pow2_exec(sh);
            proof {
                lemma_pow2_unfold(sh as nat);
                lemma_pow2_pos(sh as nat);
            }
            if round {
                (sig as u128 + p / 2) / p
            } else {
                sig as u128 / p
            }
        }
    };
    proof {
        if e > 64 {
            assert(saturate(k, -m_spec) == saturate(k, -(m as int)));
            assert(saturate(k, m_spec) == saturate(k, m as int));
        } else {
            assert(m as int == m_spec);
        }
    }
    if negative {
        if m > (-lo) as u128 {
            lo
        } else {
            -(m as i128)
        }
    } else {
        if m > hi as u128 {
            hi
        } else {
            m as i128
        }
    }
}

} // verus!
