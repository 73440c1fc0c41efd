//! A mask that has the size of the image already is taken as it is.
use vstd::arithmetic::power2::*;
use vstd::prelude::*;

use crate::binary::{Real, Real32};
use crate::exact::{
    difference_with_itself, formats, is_finite32, is_zero32, nearest_keeps_order, nearest_of_own,
    parts_of, plus_zero, product_by_one, quotient_by_itself, times_zero,
};
use crate::float::{common_exponent, exponent, in_units, of_integer, opposite, unsigned, Width};
use crate::number::{HALF, ONE, SHORT_ONE, SHORT_ZERO};
use crate::ops::mask::{beyond, place_before, place_next, resized, source_place, toward};
use crate::units::{difference_in_units, exact_units, pattern_of_units, sum_in_units, units};
use crate::wholes::{
    whole_number, wholes_are_in_order, wholes_are_millionths, wholes_round_to_themselves,
};

verus! {

/// The middle of a place is exact, and the place is found again from it.
proof fn middle_is_exact(n: nat)
    requires
        n < 0x1_0000_0000,
    ensures
        ({
            let half = Real { bits: HALF };
            let one = Real { bits: ONE };
            Real::nearest_to(n as int).plus(half).times(one).minus(half) == Real::nearest_to(
                n as int,
            )
        }),
{
    let w = Width::Double;
    reveal(Real::nearest_to);
    reveal(Real::spec_plus);
    reveal(Real::spec_times);
    reveal(Real::spec_negated);
    formats(w);
    lemma2_to64();
    lemma2_to64_rest();
    lemma_pow2_unfold(53);
    let a = of_integer(w, n as int);
    let z = pow2(1073);
    lemma_pow2_adds(1, 1073);
    lemma_pow2_pos(1073);
    assert(units(w, 0) == 0) by {
        parts_of(w, 0);
        assert(0 * pow2(0) == 0);
    }
    if n > 0 {
        whole_number(n);
    } else {
        assert(n * pow2(1074) == 0) by (nonlinear_arith)
            requires
                n == 0,
        ;
    }
    assert(units(w, a) == n * pow2(1074));
    assert(units(w, HALF) == z) by {
        parts_of(w, HALF);
        lemma_pow2_adds(52, 1021);
    }
    assert(n * pow2(1074) + z == (2 * n + 1) * z) by (nonlinear_arith)
        requires
            pow2(1074) == 2 * z,
    ;
    sum_in_units(w, a, HALF);
    exact_units(w, 2 * n + 1, 1073);
    let b = Real { bits: a }.plus(Real { bits: HALF });
    product_by_one(w, b.bits);
    difference_in_units(w, b.bits, HALF);
    pattern_of_units(w, a);
    assert(units(w, b.bits) - units(w, HALF) == units(w, a));
}

/// In the same size every place is its own source.
proof fn place_is_its_own(n: nat, len: nat)
    requires
        n < len <= 0xFFFF_FFFF,
    ensures
        source_place(n as int, len as int, len as int) == Real::nearest_to(n as int),
{
    let w = Width::Double;
    wholes_are_in_order(len, len);
    wholes_are_in_order(n, 0);
    wholes_are_in_order((len - 1) as nat, n);
    let a = Real::nearest_to(len as int);
    assert(a.over(a) == (Real { bits: ONE })) by {
        reveal(Real::spec_over);
        quotient_by_itself(w, a.bits);
    }
    middle_is_exact(n);
}

/// A whole place is its own place before, and nothing is beyond it.
proof fn nothing_beyond(n: nat, len: nat)
    requires
        n < len <= 0xFFFF_FFFF,
    ensures
        place_before(Real::nearest_to(n as int), len as int) == n,
        beyond(Real::nearest_to(n as int)) == (Real32 { bits: SHORT_ZERO }),
{
    let w = Width::Double;
    let a = Real::nearest_to(n as int);
    wholes_are_in_order(n, n);
    wholes_round_to_themselves(n);
    assert(a.minus(a) == Real::nearest_to(0)) by {
        reveal(Real::nearest_to);
        reveal(Real::spec_plus);
        reveal(Real::spec_negated);
        difference_with_itself(w, a.bits);
    }
    wholes_are_millionths(0);
    assert(Real::nearest_to(0).narrowed() == (Real32 { bits: SHORT_ZERO })) by {
        reveal(Real::nearest_to);
        reveal(Real::spec_narrowed);
        formats(w);
        parts_of(w, 0);
    }
}

/// A number from 0 to 1.
pub open spec fn is_part(v: Real32) -> bool {
    v.bits <= SHORT_ONE
}

/// The difference of numbers from 0 to 1 is finite.
proof fn difference_is_finite(b: Real32, a: Real32)
    requires
        is_part(a),
        is_part(b),
    ensures
        is_finite32(b.minus(a)),
{
    let w = Width::Single;
    reveal(Real32::spec_plus);
    reveal(Real32::spec_negated);
    formats(w);
    let (x, y) = (b.bits as u64, a.bits as u64);
    let c = opposite(w, y);
    assert(unsigned(w, c) == unsigned(w, y));
    parts_of(w, x);
    parts_of(w, y);
    parts_of(w, c);
    let e = common_exponent(w, x, c);
    let (m, n) = (in_units(w, x, e), -in_units(w, c, e));
    let d = (if m >= n {
        m - n
    } else {
        n - m
    }) as nat;
    nearest_of_own(w, x, (exponent(w, x) - e) as nat);
    nearest_of_own(w, y, (exponent(w, y) - e) as nat);
    if m >= n {
        nearest_keeps_order(w, d, m as nat, e);
    } else {
        nearest_keeps_order(w, d, n as nat, e);
    }
}

/// No part of the way to another number is the number itself.
proof fn nowhere_toward(a: Real32, b: Real32)
    requires
        is_part(a),
        is_part(b),
    ensures
        toward(a, b, Real32 { bits: SHORT_ZERO }) == a,
{
    let o = Real32 { bits: SHORT_ZERO };
    difference_is_finite(b, a);
    let d = b.minus(a);
    times_zero(d, o);
    if !is_zero32(a) {
        plus_zero(a, d.times(o));
    } else {
        assert(a == o);
        nothing_plus(b);
    }
}

proof fn nothing_plus(b: Real32)
    requires
        is_part(b),
    ensures
        ({
            let o = Real32 { bits: SHORT_ZERO };
            o.plus(b.minus(o).times(o)) == o
        }),
{
    let w = Width::Single;
    let o = Real32 { bits: SHORT_ZERO };
    formats(w);
    reveal(Real32::spec_plus);
    reveal(Real32::spec_times);
    reveal(Real32::spec_negated);
    parts_of(w, 0);
    parts_of(w, b.bits as u64);
    if !is_zero32(b) {
        plus_zero(b, o.negated());
    } else {
        parts_of(w, o.negated().bits as u64);
    }
}

/// A plane of numbers from 0 to 1 that is brought to its own size stays as it is.
pub proof fn same_size_changes_nothing(
    f: spec_fn(int, int) -> Real32,
    w: u32,
    h: u32,
    x: int,
    y: int,
)
    requires
        0 <= x < w,
        0 <= y < h,
        forall|i: int, j: int| 0 <= i < w && 0 <= j < h ==> is_part(#[trigger] f(i, j)),
    ensures
        resized(f, w as int, h as int, w as int, h as int)(x, y) == f(x, y),
{
    place_is_its_own(x as nat, w as nat);
    place_is_its_own(y as nat, h as nat);
    nothing_beyond(x as nat, w as nat);
    nothing_beyond(y as nat, h as nat);
    let (x1, y1) = (place_next(x, w as int), place_next(y, h as int));
    nowhere_toward(f(x, y), f(x1, y));
    nowhere_toward(f(x, y1), f(x1, y1));
    nowhere_toward(f(x, y), f(x, y1));
}

} // verus!
