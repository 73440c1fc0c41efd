//! Numbers of a recipe: binary64 values held by their bit patterns.
use vstd::arithmetic::power2::{lemma2_to64, lemma_pow2_pos, lemma_pow2_unfold, pow2};
use vstd::prelude::*;

verus! {

/// A number of a recipe.
///
/// `bits` is the IEEE 754 binary64 bit pattern. `text` is the number as messages show
/// it, and `json` as JSON writes it where no count of millionths can stand for it.
#[derive(Clone, Debug)]
pub struct Number {
    pub bits: u64,
    pub text: String,
    pub json: String,
}

/// The bit patterns from here on, sign bit aside, are infinities and NaNs.
pub const INFINITE: u64 = 0x7FF0_0000_0000_0000;

/// The sign bit's weight.
pub const SIGN: u64 = 0x8000_0000_0000_0000;

/// The bit pattern without its sign.
pub open spec fn magnitude(bits: u64) -> int {
    if bits >= SIGN {
        bits - SIGN
    } else {
        bits as int
    }
}

/// Neither infinite nor NaN.
pub open spec fn finite(bits: u64) -> bool {
    magnitude(bits) < INFINITE
}

/// The place of a finite number among all finite numbers: patterns of one sign stand
/// in the order of their magnitudes, and both zeros have place 0.
pub open spec fn rank(bits: u64) -> int {
    if bits >= SIGN {
        -(bits - SIGN)
    } else {
        bits as int
    }
}

/// The value of a nonnegative finite pattern, counted in units of `2^-1074`.
pub open spec fn units(m: int) -> int {
    let e = m / 0x10_0000_0000_0000;
    let f = m % 0x10_0000_0000_0000;
    if e == 0 {
        f
    } else {
        (f + 0x10_0000_0000_0000) * pow2((e - 1) as nat)
    }
}

/// The value of a finite pattern, counted in units of `2^-1074`.
pub open spec fn value_units(bits: u64) -> int {
    if bits >= SIGN {
        -units(magnitude(bits))
    } else {
        units(magnitude(bits))
    }
}

proof fn units_step(m: int)
    requires
        0 <= m,
    ensures
        units(m) < units(m + 1),
{
    let p: int = 0x10_0000_0000_0000;
    let e = m / p;
    let f = m % p;
    if f < p - 1 {
        assert((m + 1) / p == e && (m + 1) % p == f + 1);
        if e > 0 {
            lemma_pow2_pos((e - 1) as nat);
            let t = pow2((e - 1) as nat) as int;
            assert((f + p) * t < (f + 1 + p) * t) by (nonlinear_arith)
                requires
                    t > 0,
            ;
        }
    } else {
        assert((m + 1) / p == e + 1 && (m + 1) % p == 0);
        if e > 0 {
            lemma_pow2_pos((e - 1) as nat);
            let t = pow2((e - 1) as nat) as int;
            lemma_pow2_unfold(e as nat);
            assert(pow2(e as nat) == 2 * t);
            assert((f + p) * t < p * (2 * t)) by (nonlinear_arith)
                requires
                    t > 0,
                    f == p - 1,
            ;
        } else {
            lemma2_to64();
            assert(pow2(0) == 1);
        }
    }
}

proof fn units_monotone(a: int, b: int)
    requires
        0 <= a < b,
    ensures
        units(a) < units(b),
    decreases b - a,
{
    units_step(a);
    if a + 1 < b {
        units_monotone(a + 1, b);
    }
}

/// Comparing ranks compares values: one finite number is below another exactly when
/// its rank is below the other's.
pub proof fn rank_orders_values(a: u64, b: u64)
    requires
        finite(a),
        finite(b),
    ensures
        rank(a) < rank(b) <==> value_units(a) < value_units(b),
        rank(a) == rank(b) <==> value_units(a) == value_units(b),
{
    assert(units(0) == 0);
    let ma = magnitude(a);
    let mb = magnitude(b);
    if ma > 0 {
        units_monotone(0, ma);
    }
    if mb > 0 {
        units_monotone(0, mb);
    }
    if ma < mb {
        units_monotone(ma, mb);
    }
    if mb < ma {
        units_monotone(mb, ma);
    }
}

/// Finite, and at least `low` and at most `high`.
pub open spec fn within(bits: u64, low: u64, high: u64) -> bool {
    finite(bits) && rank(low) <= rank(bits) <= rank(high)
}

// Bounds of the recipe's parameters, as bit patterns.

pub const ZERO: u64 = 0;

pub const MILLIONTH: u64 = 0x3EB0_C6F7_A0B5_ED8D;

pub const TENTH: u64 = 0x3FB9_9999_9999_999A;

pub const HALF: u64 = 0x3FE0_0000_0000_0000;

pub const ONE: u64 = 0x3FF0_0000_0000_0000;

pub const ONE_AND_A_HALF: u64 = 0x3FF8_0000_0000_0000;

pub const TWO: u64 = 0x4000_0000_0000_0000;

pub const THREE: u64 = 0x4008_0000_0000_0000;

pub const FOUR: u64 = 0x4010_0000_0000_0000;

pub const SIX: u64 = 0x4018_0000_0000_0000;

pub const EIGHT: u64 = 0x4020_0000_0000_0000;

pub const NINE: u64 = 0x4022_0000_0000_0000;

pub const TEN: u64 = 0x4024_0000_0000_0000;

pub const SIXTEEN: u64 = 0x4030_0000_0000_0000;

pub const THIRTY: u64 = 0x403E_0000_0000_0000;

pub const FORTY_FIVE: u64 = 0x4046_8000_0000_0000;

pub const FIFTY: u64 = 0x4049_0000_0000_0000;

pub const SIXTY: u64 = 0x404E_0000_0000_0000;

pub const HUNDRED: u64 = 0x4059_0000_0000_0000;

pub const TWO_HUNDRED: u64 = 0x4069_0000_0000_0000;

pub const BYTE_MAX: u64 = 0x406F_E000_0000_0000;

pub const BYTE_SPAN: u64 = 0x4070_0000_0000_0000;

pub const FULL_TURN: u64 = 0x4076_8000_0000_0000;

pub const MILLION: u64 = 0x412E_8480_0000_0000;

pub const MINUS_ONE: u64 = 0xBFF0_0000_0000_0000;

pub const MINUS_TWO: u64 = 0xC000_0000_0000_0000;

pub const MINUS_EIGHT: u64 = 0xC020_0000_0000_0000;

pub const MINUS_SIXTEEN: u64 = 0xC030_0000_0000_0000;

pub const MINUS_FORTY_FIVE: u64 = 0xC046_8000_0000_0000;

pub const MINUS_HUNDRED: u64 = 0xC059_0000_0000_0000;

pub const MINUS_BYTE_MAX: u64 = 0xC06F_E000_0000_0000;

pub const MINUS_BYTE_SPAN: u64 = 0xC070_0000_0000_0000;

pub const MINUS_FULL_TURN: u64 = 0xC076_8000_0000_0000;

// Numbers in the shorter format, as bit patterns.

pub const SHORT_ZERO: u32 = 0;

pub const SHORT_QUARTER: u32 = 0x3E80_0000;

pub const SHORT_HALF: u32 = 0x3F00_0000;

pub const SHORT_ONE: u32 = 0x3F80_0000;

pub const SHORT_TWO: u32 = 0x4000_0000;

pub const SHORT_FOUR: u32 = 0x4080_0000;

pub const SHORT_TWELVE: u32 = 0x4140_0000;

pub const SHORT_SIXTEEN: u32 = 0x4180_0000;

pub const SHORT_BYTE_MAX: u32 = 0x437F_0000;

pub const SHORT_WORD_MAX: u32 = 0x477F_FF00;

/// Whether a bit pattern is finite.
pub fn is_finite(bits: u64) -> (r: bool)
    ensures
        r == finite(bits),
{
    if bits >= SIGN {
        bits - SIGN < INFINITE
    } else {
        bits < INFINITE
    }
}

/// The sign and the magnitude of a pattern, in one comparison: `a` is below `b`.
pub fn is_below(a: u64, b: u64) -> (r: bool)
    ensures
        r == (rank(a) < rank(b)),
{
    if a >= SIGN {
        if b >= SIGN {
            b < a
        } else {
            a > SIGN || b > 0
        }
    } else {
        b < SIGN && a < b
    }
}

/// Whether a pattern is finite and in a closed range.
pub fn is_within(bits: u64, low: u64, high: u64) -> (r: bool)
    ensures
        r == within(bits, low, high),
{
    is_finite(bits) && !is_below(bits, low) && !is_below(high, bits)
}

} // verus!
