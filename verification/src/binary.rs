//! Numbers of the two formats, with their arithmetic as methods.
use vstd::prelude::*;

use crate::float::{
    add_up, convert, converted, divide, equal, from_signed, from_unsigned, integer_of, is_equal,
    is_less, less, multiply, nan, negate, of_integer, opposite, product, quotient, remainder,
    square_root, sum, take_remainder, take_root, to_integer, to_whole, whole, whole_value, Rounding,
    Width,
};
use crate::number::{HALF, MILLION, SIGN, ZERO};

verus! {

/// A binary64 number, by its bit pattern.
#[derive(Clone, Copy, Debug, PartialEq, Eq, Structural)]
pub struct Real {
    pub bits: u64,
}

/// A binary32 number, by its bit pattern.
#[derive(Clone, Copy, Debug, PartialEq, Eq, Structural)]
pub struct Real32 {
    pub bits: u32,
}

/// Three numbers, one for each colour.
#[derive(Clone, Copy, Debug, PartialEq, Eq, Structural)]
pub struct Triple {
    pub r: Real,
    pub g: Real,
    pub b: Real,
}

/// Four numbers, one for each colour and one for the opacity.
#[derive(Clone, Copy, Debug, PartialEq, Eq, Structural)]
pub struct Four {
    pub r: Real,
    pub g: Real,
    pub b: Real,
    pub a: Real,
}

/// A whole number, or the end of the range of a byte that it is beyond.
pub open spec fn byte_range(n: int) -> u8 {
    if n < 0 {
        0
    } else if n > 255 {
        255
    } else {
        n as u8
    }
}

impl Real {
    /// The sum.
    #[verifier::opaque]
    pub open spec fn spec_plus(self, other: Real) -> Real {
        Real { bits: sum(Width::Double, self.bits, other.bits) }
    }

    /// The sum.
    #[verifier::when_used_as_spec(spec_plus)]
    pub fn plus(self, other: Real) -> (r: Real)
        ensures
            r == self.spec_plus(other),
    {
        reveal(Real::spec_plus);
        Real { bits: add_up(Width::Double, self.bits, other.bits) }
    }

    /// The product.
    #[verifier::opaque]
    pub open spec fn spec_times(self, other: Real) -> Real {
        Real { bits: product(Width::Double, self.bits, other.bits) }
    }

    /// The product.
    #[verifier::when_used_as_spec(spec_times)]
    pub fn times(self, other: Real) -> (r: Real)
        ensures
            r == self.spec_times(other),
    {
        reveal(Real::spec_times);
        Real { bits: multiply(Width::Double, self.bits, other.bits) }
    }

    /// The quotient.
    #[verifier::opaque]
    pub open spec fn spec_over(self, other: Real) -> Real {
        Real { bits: quotient(Width::Double, self.bits, other.bits) }
    }

    /// The quotient.
    #[verifier::when_used_as_spec(spec_over)]
    pub fn over(self, other: Real) -> (r: Real)
        ensures
            r == self.spec_over(other),
    {
        reveal(Real::spec_over);
        Real { bits: divide(Width::Double, self.bits, other.bits) }
    }

    /// What is left after taking another number away as often as it fits.
    #[verifier::opaque]
    pub open spec fn spec_left_of(self, other: Real) -> Real {
        Real { bits: remainder(Width::Double, self.bits, other.bits) }
    }

    /// What is left after taking another number away as often as it fits.
    #[verifier::when_used_as_spec(spec_left_of)]
    pub fn left_of(self, other: Real) -> (r: Real)
        ensures
            r == self.spec_left_of(other),
    {
        reveal(Real::spec_left_of);
        Real { bits: take_remainder(Width::Double, self.bits, other.bits) }
    }

    /// The number with the other sign.
    #[verifier::opaque]
    pub open spec fn spec_negated(self) -> Real {
        Real { bits: opposite(Width::Double, self.bits) }
    }

    /// The number with the other sign.
    #[verifier::when_used_as_spec(spec_negated)]
    pub fn negated(self) -> (r: Real)
        ensures
            r == self.spec_negated(),
    {
        reveal(Real::spec_negated);
        Real { bits: negate(Width::Double, self.bits) }
    }

    /// The square root.
    #[verifier::opaque]
    pub open spec fn spec_root(self) -> Real {
        Real { bits: square_root(Width::Double, self.bits) }
    }

    /// The square root.
    #[verifier::when_used_as_spec(spec_root)]
    pub fn root(self) -> (r: Real)
        ensures
            r == self.spec_root(),
    {
        reveal(Real::spec_root);
        Real { bits: take_root(Width::Double, self.bits) }
    }

    /// The largest whole number that is not above this one.
    #[verifier::opaque]
    pub open spec fn spec_floor(self) -> Real {
        Real { bits: whole(Width::Double, self.bits, Rounding::Down) }
    }

    /// The largest whole number that is not above this one.
    #[verifier::when_used_as_spec(spec_floor)]
    pub fn floor(self) -> (r: Real)
        ensures
            r == self.spec_floor(),
    {
        reveal(Real::spec_floor);
        Real { bits: to_whole(Width::Double, self.bits, Rounding::Down) }
    }

    /// The smallest whole number that is not below this one.
    #[verifier::opaque]
    pub open spec fn spec_ceiling(self) -> Real {
        Real { bits: whole(Width::Double, self.bits, Rounding::Up) }
    }

    /// The smallest whole number that is not below this one.
    #[verifier::when_used_as_spec(spec_ceiling)]
    pub fn ceiling(self) -> (r: Real)
        ensures
            r == self.spec_ceiling(),
    {
        reveal(Real::spec_ceiling);
        Real { bits: to_whole(Width::Double, self.bits, Rounding::Up) }
    }

    /// The nearest whole number; halves go away from zero.
    #[verifier::opaque]
    pub open spec fn spec_round(self) -> Real {
        Real { bits: whole(Width::Double, self.bits, Rounding::Nearest) }
    }

    /// The nearest whole number; halves go away from zero.
    #[verifier::when_used_as_spec(spec_round)]
    pub fn round(self) -> (r: Real)
        ensures
            r == self.spec_round(),
    {
        reveal(Real::spec_round);
        Real { bits: to_whole(Width::Double, self.bits, Rounding::Nearest) }
    }

    /// The difference.
    pub open spec fn spec_minus(self, other: Real) -> Real {
        self.spec_plus(other.spec_negated())
    }

    /// The difference.
    #[verifier::when_used_as_spec(spec_minus)]
    pub fn minus(self, other: Real) -> (r: Real)
        ensures
            r == self.spec_minus(other),
    {
        self.plus(other.negated())
    }

    /// Whether this number is below another.
    pub open spec fn spec_below(self, other: Real) -> bool {
        less(Width::Double, self.bits, other.bits)
    }

    /// Whether this number is below another.
    #[verifier::when_used_as_spec(spec_below)]
    pub fn below(self, other: Real) -> (r: bool)
        ensures
            r == self.spec_below(other),
    {
        is_less(Width::Double, self.bits, other.bits)
    }

    /// Whether this number equals another.
    pub open spec fn spec_same(self, other: Real) -> bool {
        equal(Width::Double, self.bits, other.bits)
    }

    /// Whether this number equals another.
    #[verifier::when_used_as_spec(spec_same)]
    pub fn same(self, other: Real) -> (r: bool)
        ensures
            r == self.spec_same(other),
    {
        is_equal(Width::Double, self.bits, other.bits)
    }

    /// Whether this number is another or below it.
    pub open spec fn spec_at_most(self, other: Real) -> bool {
        self.spec_below(other) || self.spec_same(other)
    }

    /// Whether this number is another or below it.
    #[verifier::when_used_as_spec(spec_at_most)]
    pub fn at_most(self, other: Real) -> (r: bool)
        ensures
            r == self.spec_at_most(other),
    {
        self.below(other) || self.same(other)
    }

    /// Whether this is a NaN.
    pub open spec fn spec_is_nan(self) -> bool {
        nan(Width::Double, self.bits)
    }

    /// Whether this is a NaN.
    #[verifier::when_used_as_spec(spec_is_nan)]
    pub fn is_nan(self) -> (r: bool)
        ensures
            r == self.spec_is_nan(),
    {
        !self.same(self)
    }

    /// This number, or the end of a range that it is beyond.
    pub open spec fn spec_clamped(self, low: Real, high: Real) -> Real {
        if self.spec_below(low) {
            low
        } else if high.spec_below(self) {
            high
        } else {
            self
        }
    }

    /// This number, or the end of a range that it is beyond.
    #[verifier::when_used_as_spec(spec_clamped)]
    pub fn clamped(self, low: Real, high: Real) -> (r: Real)
        ensures
            r == self.spec_clamped(low, high),
    {
        if self.below(low) {
            low
        } else if high.below(self) {
            high
        } else {
            self
        }
    }

    /// The larger of two numbers; a NaN gives way to the other.
    pub open spec fn spec_larger(self, other: Real) -> Real {
        if self.spec_is_nan() || self.spec_below(other) {
            other
        } else {
            self
        }
    }

    /// The larger of two numbers; a NaN gives way to the other.
    #[verifier::when_used_as_spec(spec_larger)]
    pub fn larger(self, other: Real) -> (r: Real)
        ensures
            r == self.spec_larger(other),
    {
        if self.is_nan() || self.below(other) {
            other
        } else {
            self
        }
    }

    /// The smaller of two numbers; a NaN gives way to the other.
    pub open spec fn spec_smaller(self, other: Real) -> Real {
        if self.spec_is_nan() || other.spec_below(self) {
            other
        } else {
            self
        }
    }

    /// The smaller of two numbers; a NaN gives way to the other.
    #[verifier::when_used_as_spec(spec_smaller)]
    pub fn smaller(self, other: Real) -> (r: Real)
        ensures
            r == self.spec_smaller(other),
    {
        if self.is_nan() || other.below(self) {
            other
        } else {
            self
        }
    }

    /// This number rounded down to a 64-bit integer, kept in range; 0 for a NaN.
    #[verifier::opaque]
    pub open spec fn spec_floor_integer(self) -> i64 {
        integer_of(Width::Double, self.bits, whole_value(Width::Double, self.bits, Rounding::Down))
    }

    /// This number rounded down to a 64-bit integer, kept in range; 0 for a NaN.
    #[verifier::when_used_as_spec(spec_floor_integer)]
    pub fn floor_integer(self) -> (r: i64)
        ensures
            r == self.spec_floor_integer(),
    {
        reveal(Real::spec_floor_integer);
        to_integer(Width::Double, self.bits, Rounding::Down)
    }

    /// This number rounded up to a 64-bit integer, kept in range; 0 for a NaN.
    #[verifier::opaque]
    pub open spec fn spec_ceiling_integer(self) -> i64 {
        integer_of(Width::Double, self.bits, whole_value(Width::Double, self.bits, Rounding::Up))
    }

    /// This number rounded up to a 64-bit integer, kept in range; 0 for a NaN.
    #[verifier::when_used_as_spec(spec_ceiling_integer)]
    pub fn ceiling_integer(self) -> (r: i64)
        ensures
            r == self.spec_ceiling_integer(),
    {
        reveal(Real::spec_ceiling_integer);
        to_integer(Width::Double, self.bits, Rounding::Up)
    }

    /// This number rounded to the nearest 64-bit integer, kept in range; 0 for a NaN.
    #[verifier::opaque]
    pub open spec fn spec_round_integer(self) -> i64 {
        integer_of(Width::Double, self.bits, whole_value(Width::Double, self.bits, Rounding::Nearest))
    }

    /// This number rounded to the nearest 64-bit integer, kept in range; 0 for a NaN.
    #[verifier::when_used_as_spec(spec_round_integer)]
    pub fn round_integer(self) -> (r: i64)
        ensures
            r == self.spec_round_integer(),
    {
        reveal(Real::spec_round_integer);
        to_integer(Width::Double, self.bits, Rounding::Nearest)
    }

    /// The number nearest to a whole one.
    #[verifier::opaque]
    pub open spec fn nearest_to(n: int) -> Real {
        Real { bits: of_integer(Width::Double, n) }
    }

    /// The number nearest to an unsigned whole one below 2^127.
    pub fn from_whole(n: u128) -> (r: Real)
        requires
            n < 0x8000_0000_0000_0000_0000_0000_0000_0000,
        ensures
            r == Real::nearest_to(n as int),
    {
        reveal(Real::nearest_to);
        Real { bits: from_unsigned(Width::Double, n) }
    }

    /// The number nearest to a signed whole one.
    pub fn from_integer(n: i64) -> (r: Real)
        ensures
            r == Real::nearest_to(n as int),
    {
        reveal(Real::nearest_to);
        Real { bits: from_signed(Width::Double, n) }
    }

    /// The number without its sign.
    pub open spec fn spec_absolute(self) -> Real {
        if self.bits >= SIGN {
            Real { bits: (self.bits - SIGN) as u64 }
        } else {
            self
        }
    }

    /// The number without its sign.
    #[verifier::when_used_as_spec(spec_absolute)]
    pub fn absolute(self) -> (r: Real)
        ensures
            r == self.spec_absolute(),
    {
        if self.bits >= SIGN {
            Real { bits: self.bits - SIGN }
        } else {
            self
        }
    }

    /// The nearest byte: halves go away from zero, and what is out of range to its end.
    pub open spec fn spec_to_byte(self) -> u8 {
        let half = Real { bits: HALF };
        let n = if (Real { bits: ZERO }).spec_at_most(self) {
            self.spec_plus(half).spec_floor_integer()
        } else {
            self.spec_minus(half).spec_ceiling_integer()
        };
        byte_range(n as int)
    }

    /// The nearest byte: halves go away from zero, and what is out of range to its end.
    #[verifier::when_used_as_spec(spec_to_byte)]
    pub fn to_byte(self) -> (r: u8)
        ensures
            r == self.spec_to_byte(),
    {
        let half: Real = Real { bits: HALF };
        let zero: Real = Real { bits: ZERO };
        let n: i64 = if zero.at_most(self) {
            self.plus(half).floor_integer()
        } else {
            self.minus(half).ceiling_integer()
        };
        if n < 0 {
            0
        } else if n > 255 {
            255
        } else {
            n as u8
        }
    }

    /// The number on a grid of millionths that is nearest to this one.
    pub open spec fn spec_on_grid(self) -> Real {
        let million = Real { bits: MILLION };
        self.spec_times(million).spec_round().spec_over(million)
    }

    /// The number on a grid of millionths that is nearest to this one.
    #[verifier::when_used_as_spec(spec_on_grid)]
    pub fn on_grid(self) -> (r: Real)
        ensures
            r == self.spec_on_grid(),
    {
        let million: Real = Real { bits: MILLION };
        self.times(million).round().over(million)
    }

    /// A byte as a number.
    pub open spec fn spec_of_byte(b: u8) -> Real {
        Real::nearest_to(b as int)
    }

    /// A byte as a number.
    #[verifier::when_used_as_spec(spec_of_byte)]
    pub fn of_byte(b: u8) -> (r: Real)
        ensures
            r == Real::spec_of_byte(b),
    {
        Real::from_integer(b as i64)
    }

    /// The nearest binary32 number.
    #[verifier::opaque]
    pub open spec fn spec_narrowed(self) -> Real32 {
        Real32 { bits: converted(Width::Double, Width::Single, self.bits) as u32 }
    }

    /// The nearest binary32 number.
    #[verifier::when_used_as_spec(spec_narrowed)]
    pub fn narrowed(self) -> (r: Real32)
        ensures
            r == self.spec_narrowed(),
    {
        reveal(Real::spec_narrowed);
        Real32 { bits: convert(Width::Double, Width::Single, self.bits) as u32 }
    }
}

impl Real32 {
    /// The sum.
    #[verifier::opaque]
    pub open spec fn spec_plus(self, other: Real32) -> Real32 {
        Real32 { bits: sum(Width::Single, self.bits as u64, other.bits as u64) as u32 }
    }

    /// The sum.
    #[verifier::when_used_as_spec(spec_plus)]
    pub fn plus(self, other: Real32) -> (r: Real32)
        ensures
            r == self.spec_plus(other),
    {
        reveal(Real32::spec_plus);
        Real32 { bits: add_up(Width::Single, self.bits as u64, other.bits as u64) as u32 }
    }

    /// The product.
    #[verifier::opaque]
    pub open spec fn spec_times(self, other: Real32) -> Real32 {
        Real32 { bits: product(Width::Single, self.bits as u64, other.bits as u64) as u32 }
    }

    /// The product.
    #[verifier::when_used_as_spec(spec_times)]
    pub fn times(self, other: Real32) -> (r: Real32)
        ensures
            r == self.spec_times(other),
    {
        reveal(Real32::spec_times);
        Real32 { bits: multiply(Width::Single, self.bits as u64, other.bits as u64) as u32 }
    }

    /// The quotient.
    #[verifier::opaque]
    pub open spec fn spec_over(self, other: Real32) -> Real32 {
        Real32 { bits: quotient(Width::Single, self.bits as u64, other.bits as u64) as u32 }
    }

    /// The quotient.
    #[verifier::when_used_as_spec(spec_over)]
    pub fn over(self, other: Real32) -> (r: Real32)
        ensures
            r == self.spec_over(other),
    {
        reveal(Real32::spec_over);
        Real32 { bits: divide(Width::Single, self.bits as u64, other.bits as u64) as u32 }
    }

    /// The number with the other sign.
    #[verifier::opaque]
    pub open spec fn spec_negated(self) -> Real32 {
        Real32 { bits: opposite(Width::Single, self.bits as u64) as u32 }
    }

    /// The number with the other sign.
    #[verifier::when_used_as_spec(spec_negated)]
    pub fn negated(self) -> (r: Real32)
        ensures
            r == self.spec_negated(),
    {
        reveal(Real32::spec_negated);
        Real32 { bits: negate(Width::Single, self.bits as u64) as u32 }
    }

    /// The square root.
    #[verifier::opaque]
    pub open spec fn spec_root(self) -> Real32 {
        Real32 { bits: square_root(Width::Single, self.bits as u64) as u32 }
    }

    /// The square root.
    #[verifier::when_used_as_spec(spec_root)]
    pub fn root(self) -> (r: Real32)
        ensures
            r == self.spec_root(),
    {
        reveal(Real32::spec_root);
        Real32 { bits: take_root(Width::Single, self.bits as u64) as u32 }
    }

    /// The largest whole number that is not above this one.
    #[verifier::opaque]
    pub open spec fn spec_floor(self) -> Real32 {
        Real32 { bits: whole(Width::Single, self.bits as u64, Rounding::Down) as u32 }
    }

    /// The largest whole number that is not above this one.
    #[verifier::when_used_as_spec(spec_floor)]
    pub fn floor(self) -> (r: Real32)
        ensures
            r == self.spec_floor(),
    {
        reveal(Real32::spec_floor);
        Real32 { bits: to_whole(Width::Single, self.bits as u64, Rounding::Down) as u32 }
    }

    /// The smallest whole number that is not below this one.
    #[verifier::opaque]
    pub open spec fn spec_ceiling(self) -> Real32 {
        Real32 { bits: whole(Width::Single, self.bits as u64, Rounding::Up) as u32 }
    }

    /// The smallest whole number that is not below this one.
    #[verifier::when_used_as_spec(spec_ceiling)]
    pub fn ceiling(self) -> (r: Real32)
        ensures
            r == self.spec_ceiling(),
    {
        reveal(Real32::spec_ceiling);
        Real32 { bits: to_whole(Width::Single, self.bits as u64, Rounding::Up) as u32 }
    }

    /// The nearest whole number; halves go away from zero.
    #[verifier::opaque]
    pub open spec fn spec_round(self) -> Real32 {
        Real32 { bits: whole(Width::Single, self.bits as u64, Rounding::Nearest) as u32 }
    }

    /// The nearest whole number; halves go away from zero.
    #[verifier::when_used_as_spec(spec_round)]
    pub fn round(self) -> (r: Real32)
        ensures
            r == self.spec_round(),
    {
        reveal(Real32::spec_round);
        Real32 { bits: to_whole(Width::Single, self.bits as u64, Rounding::Nearest) as u32 }
    }

    /// The difference.
    pub open spec fn spec_minus(self, other: Real32) -> Real32 {
        self.spec_plus(other.spec_negated())
    }

    /// The difference.
    #[verifier::when_used_as_spec(spec_minus)]
    pub fn minus(self, other: Real32) -> (r: Real32)
        ensures
            r == self.spec_minus(other),
    {
        self.plus(other.negated())
    }

    /// Whether this number is below another.
    pub open spec fn spec_below(self, other: Real32) -> bool {
        less(Width::Single, self.bits as u64, other.bits as u64)
    }

    /// Whether this number is below another.
    #[verifier::when_used_as_spec(spec_below)]
    pub fn below(self, other: Real32) -> (r: bool)
        ensures
            r == self.spec_below(other),
    {
        is_less(Width::Single, self.bits as u64, other.bits as u64)
    }

    /// Whether this number equals another.
    pub open spec fn spec_same(self, other: Real32) -> bool {
        equal(Width::Single, self.bits as u64, other.bits as u64)
    }

    /// Whether this number equals another.
    #[verifier::when_used_as_spec(spec_same)]
    pub fn same(self, other: Real32) -> (r: bool)
        ensures
            r == self.spec_same(other),
    {
        is_equal(Width::Single, self.bits as u64, other.bits as u64)
    }

    /// Whether this number is another or below it.
    pub open spec fn spec_at_most(self, other: Real32) -> bool {
        self.spec_below(other) || self.spec_same(other)
    }

    /// Whether this number is another or below it.
    #[verifier::when_used_as_spec(spec_at_most)]
    pub fn at_most(self, other: Real32) -> (r: bool)
        ensures
            r == self.spec_at_most(other),
    {
        self.below(other) || self.same(other)
    }

    /// Whether this is a NaN.
    pub open spec fn spec_is_nan(self) -> bool {
        nan(Width::Single, self.bits as u64)
    }

    /// Whether this is a NaN.
    #[verifier::when_used_as_spec(spec_is_nan)]
    pub fn is_nan(self) -> (r: bool)
        ensures
            r == self.spec_is_nan(),
    {
        !self.same(self)
    }

    /// This number, or the end of a range that it is beyond.
    pub open spec fn spec_clamped(self, low: Real32, high: Real32) -> Real32 {
        if self.spec_below(low) {
            low
        } else if high.spec_below(self) {
            high
        } else {
            self
        }
    }

    /// This number, or the end of a range that it is beyond.
    #[verifier::when_used_as_spec(spec_clamped)]
    pub fn clamped(self, low: Real32, high: Real32) -> (r: Real32)
        ensures
            r == self.spec_clamped(low, high),
    {
        if self.below(low) {
            low
        } else if high.below(self) {
            high
        } else {
            self
        }
    }

    /// The larger of two numbers; a NaN gives way to the other.
    pub open spec fn spec_larger(self, other: Real32) -> Real32 {
        if self.spec_is_nan() || self.spec_below(other) {
            other
        } else {
            self
        }
    }

    /// The larger of two numbers; a NaN gives way to the other.
    #[verifier::when_used_as_spec(spec_larger)]
    pub fn larger(self, other: Real32) -> (r: Real32)
        ensures
            r == self.spec_larger(other),
    {
        if self.is_nan() || self.below(other) {
            other
        } else {
            self
        }
    }

    /// The smaller of two numbers; a NaN gives way to the other.
    pub open spec fn spec_smaller(self, other: Real32) -> Real32 {
        if self.spec_is_nan() || other.spec_below(self) {
            other
        } else {
            self
        }
    }

    /// The smaller of two numbers; a NaN gives way to the other.
    #[verifier::when_used_as_spec(spec_smaller)]
    pub fn smaller(self, other: Real32) -> (r: Real32)
        ensures
            r == self.spec_smaller(other),
    {
        if self.is_nan() || other.below(self) {
            other
        } else {
            self
        }
    }

    /// This number rounded down to a 64-bit integer, kept in range; 0 for a NaN.
    #[verifier::opaque]
    pub open spec fn spec_floor_integer(self) -> i64 {
        integer_of(Width::Single, self.bits as u64, whole_value(Width::Single, self.bits as u64, Rounding::Down))
    }

    /// This number rounded down to a 64-bit integer, kept in range; 0 for a NaN.
    #[verifier::when_used_as_spec(spec_floor_integer)]
    pub fn floor_integer(self) -> (r: i64)
        ensures
            r == self.spec_floor_integer(),
    {
        reveal(Real32::spec_floor_integer);
        to_integer(Width::Single, self.bits as u64, Rounding::Down)
    }

    /// This number rounded up to a 64-bit integer, kept in range; 0 for a NaN.
    #[verifier::opaque]
    pub open spec fn spec_ceiling_integer(self) -> i64 {
        integer_of(Width::Single, self.bits as u64, whole_value(Width::Single, self.bits as u64, Rounding::Up))
    }

    /// This number rounded up to a 64-bit integer, kept in range; 0 for a NaN.
    #[verifier::when_used_as_spec(spec_ceiling_integer)]
    pub fn ceiling_integer(self) -> (r: i64)
        ensures
            r == self.spec_ceiling_integer(),
    {
        reveal(Real32::spec_ceiling_integer);
        to_integer(Width::Single, self.bits as u64, Rounding::Up)
    }

    /// This number rounded to the nearest 64-bit integer, kept in range; 0 for a NaN.
    #[verifier::opaque]
    pub open spec fn spec_round_integer(self) -> i64 {
        integer_of(Width::Single, self.bits as u64, whole_value(Width::Single, self.bits as u64, Rounding::Nearest))
    }

    /// This number rounded to the nearest 64-bit integer, kept in range; 0 for a NaN.
    #[verifier::when_used_as_spec(spec_round_integer)]
    pub fn round_integer(self) -> (r: i64)
        ensures
            r == self.spec_round_integer(),
    {
        reveal(Real32::spec_round_integer);
        to_integer(Width::Single, self.bits as u64, Rounding::Nearest)
    }

    /// The number nearest to a whole one.
    #[verifier::opaque]
    pub open spec fn nearest_to(n: int) -> Real32 {
        Real32 { bits: of_integer(Width::Single, n) as u32 }
    }

    /// The number nearest to an unsigned whole one below 2^127.
    pub fn from_whole(n: u128) -> (r: Real32)
        requires
            n < 0x8000_0000_0000_0000_0000_0000_0000_0000,
        ensures
            r == Real32::nearest_to(n as int),
    {
        reveal(Real32::nearest_to);
        Real32 { bits: from_unsigned(Width::Single, n) as u32 }
    }

    /// The number nearest to a signed whole one.
    pub fn from_integer(n: i64) -> (r: Real32)
        ensures
            r == Real32::nearest_to(n as int),
    {
        reveal(Real32::nearest_to);
        Real32 { bits: from_signed(Width::Single, n) as u32 }
    }

    /// The same number in binary64.
    #[verifier::opaque]
    pub open spec fn spec_widened(self) -> Real {
        Real { bits: converted(Width::Single, Width::Double, self.bits as u64) }
    }

    /// The same number in binary64.
    #[verifier::when_used_as_spec(spec_widened)]
    pub fn widened(self) -> (r: Real)
        ensures
            r == self.spec_widened(),
    {
        reveal(Real32::spec_widened);
        Real { bits: convert(Width::Single, Width::Double, self.bits as u64) }
    }
}

} // verus!
