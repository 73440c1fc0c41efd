//! What a vignette multiplies light with stays between 0 and 2.
use vstd::arithmetic::power2::*;
use vstd::prelude::*;

use crate::binary::{Real, Real32};
use crate::curve_shape::{cubics_are_small, fine, fine_difference, fine_product};
use crate::exact::{
    formats, is_number, nearest_keeps_order, nearest_of_own, nearest_of_shifted, one, parts_of,
    quotient_at_most_one, sum_with_zero,
};
use crate::float::{exponent, negative, significand, unsigned, zero, Width};
use crate::growth::h01;
use crate::linear::quantize_1e6;
use crate::nearness::{near, slack_is_small};
use crate::number::{
    within, MILLION, MINUS_ONE, ONE, ONE_AND_A_HALF, SHORT_TWO, SHORT_ZERO, THREE, TWO, ZERO,
};
use crate::ops::finish::falloff;
use crate::tangents::is_positive;
use crate::units::{
    difference_in_units, pattern_of_units, sum_in_units, units, units_keep_order,
};
use crate::value::{
    magnitude_by_parts, order_is_by_value, power, product_rounds, quotient_rounds, some_values,
    value, wholes_are_themselves,
};
use crate::whole_steps::{round_is_near, small_rounds_to_zero};
use crate::wholes::{million_and_billion, wholes_divide};

verus! {

/// A gain before it is put on the grid.
spec fn raw_gain(d: Real, strength: Real, radius: Real, feather: Real) -> Real {
    let one = Real { bits: ONE };
    if d.at_most(radius) {
        one
    } else if feather.at_most(Real { bits: ZERO }) || radius.plus(feather).at_most(d) {
        one.minus(strength)
    } else {
        let t = d.minus(radius).over(feather);
        let s = t.times(t).times((Real { bits: THREE }).minus((Real { bits: TWO }).times(t)));
        one.minus(strength.times(s))
    }
}

/// A pattern that is no larger than that of 1 stands for a part of 1, or for its opposite.
proof fn part_value(v: Real)
    requires
        is_number(v),
        unsigned(Width::Double, v.bits) <= ONE,
    ensures
        -1real <= value(v) <= 1real,
        !negative(Width::Double, v.bits) ==> value(v) >= 0real,
{
    let w = Width::Double;
    some_values();
    units_keep_order(w, v.bits, ONE);
    magnitude_by_parts(v.bits);
    magnitude_by_parts(ONE);
    lemma_pow2_pos(1074);
    let (p, q, z) = (units(w, v.bits) as real, units(w, ONE) as real, power(1074));
    assert(p / z <= q / z) by (nonlinear_arith)
        requires
            p <= q,
            z > 0real,
    ;
}

/// Between the radius and the end of the feather, the way into the feather is a part of it.
proof fn way_is_a_part(d: Real, radius: Real, feather: Real)
    requires
        is_number(d),
        within(radius.bits, ZERO, ONE_AND_A_HALF),
        within(feather.bits, ZERO, ONE),
        !d.at_most(radius),
        !feather.at_most(Real { bits: ZERO }),
        !radius.plus(feather).at_most(d),
    ensures
        is_positive(d.minus(radius).over(feather)),
        d.minus(radius).over(feather).bits <= ONE,
{
    let w = Width::Double;
    reveal(Real::spec_plus);
    reveal(Real::spec_negated);
    reveal(Real::spec_over);
    assert(is_positive(d) && is_positive(feather));
    let a = d.minus(radius);
    if zero(w, radius.bits) {
        sum_with_zero(w, feather.bits, radius.bits);
        sum_with_zero(w, d.bits, radius.negated().bits);
    } else {
        units_keep_order(w, radius.bits, d.bits);
        difference_in_units(w, d.bits, radius.bits);
        sum_in_units(w, radius.bits, feather.bits);
        pattern_of_units(w, d.bits);
        pattern_of_units(w, feather.bits);
        let (x, y, z) = (units(w, d.bits), units(w, radius.bits), units(w, feather.bits));
        if x >= y + z {
            nearest_keeps_order(w, y + z, x, -1074);
        } else {
            nearest_keeps_order(w, (x - y) as nat, z, -1074);
        }
    }
    assert(is_positive(a) && a.bits <= feather.bits);
    quotient_at_most_one(w, a.bits, feather.bits);
}

/// The step of a part is near the smooth step of its value.
proof fn step_is_near(t: Real)
    requires
        is_number(t),
        0real <= value(t) <= 1real,
    ensures
        ({
            let s = t.times(t).times((Real { bits: THREE }).minus((Real { bits: TWO }).times(t)));
            near(s, h01(value(t)), 14real * fine())
        }),
        0real <= h01(value(t)) <= 1real,
{
    let x = value(t);
    let (two, three) = (Real { bits: TWO }, Real { bits: THREE });
    some_values();
    cubics_are_small(x);
    assert(0real * fine() == 0real);
    fine_product(two, 2real, 0real, 3real, t, x, 0real, 2real, 1real);
    let p = two.times(t);
    fine_difference(three, 3real, 0real, p, 2real * x, 1real, 4real, 4real);
    let q = three.minus(p);
    fine_product(t, x, 0real, 2real, t, x, 0real, 2real, 1real);
    let r = t.times(t);
    fine_product(r, x * x, 1real, 2real, q, 3real - 2real * x, 4real, 4real, 14real);
    assert((x * x) * (3real - 2real * x) == 3real * (x * x) - 2real * (x * x * x))
        by (nonlinear_arith);
}

/// A gain is near a value from 0 to 2.
proof fn raw_gain_is_near(d: Real, strength: Real, radius: Real, feather: Real) -> (x: real)
    requires
        is_number(d),
        within(strength.bits, MINUS_ONE, ONE),
        within(radius.bits, ZERO, ONE_AND_A_HALF),
        within(feather.bits, ZERO, ONE),
    ensures
        0real <= x <= 2real,
        near(raw_gain(d, strength, radius, feather), x, 30real * fine()),
{
    let one = Real { bits: ONE };
    some_values();
    part_value(strength);
    let y = value(strength);
    assert(0real * fine() == 0real);
    if d.at_most(radius) {
        1real
    } else if feather.at_most(Real { bits: ZERO }) || radius.plus(feather).at_most(d) {
        fine_difference(one, 1real, 0real, strength, y, 0real, 2real, 30real);
        1real - y
    } else {
        way_is_a_part(d, radius, feather);
        let t = d.minus(radius).over(feather);
        part_value(t);
        step_is_near(t);
        let s = t.times(t).times((Real { bits: THREE }).minus((Real { bits: TWO }).times(t)));
        let h = h01(value(t));
        fine_product(strength, y, 0real, 2real, s, h, 14real, 2real, 29real);
        assert(-1real <= y * h <= 1real) by (nonlinear_arith)
            requires
                -1real <= y <= 1real,
                0real <= h <= 1real,
        ;
        fine_difference(one, 1real, 0real, strength.times(s), y * h, 29real, 2real, 30real);
        1real - y * h
    }
}

/// Nothing over a million is nothing.
proof fn zero_over_million(a: Real)
    requires
        is_number(a),
        zero(Width::Double, a.bits),
    ensures
        is_number(a.over(Real { bits: MILLION })),
        zero(Width::Double, a.over(Real { bits: MILLION }).bits),
{
    let w = Width::Double;
    reveal(Real::spec_over);
    formats(w);
    parts_of(w, a.bits);
    parts_of(w, MILLION);
}

/// What is near a value from 0 to 2 is from 0 to 2 once it is on the grid.
proof fn grid_is_between(g: Real, x: real)
    requires
        0real <= x <= 2real,
        near(g, x, 30real * fine()),
    ensures
        is_number(quantize_1e6(g)),
        zero(Width::Double, quantize_1e6(g).bits) || is_positive(quantize_1e6(g)) && value(
            quantize_1e6(g),
        ) <= 2real,
{
    let w = Width::Double;
    let m = Real { bits: MILLION };
    million_and_billion();
    assert(Real::nearest_to(1_000_000) == m) by {
        reveal(Real::nearest_to);
    }
    wholes_are_themselves(1_000_000);
    slack_is_small(0real, 0real);
    product_rounds(g, m);
    let a = g.times(m);
    slack_is_small(value(g) * 1000000real, 3000000real);
    if negative(w, g.bits) {
        magnitude_by_parts(g.bits);
        small_rounds_to_zero(a);
        zero_over_million(a.round());
    } else {
        let k = round_is_near(a);
        assert(k <= 2_000_000);
        let c = Real::nearest_to(k as int);
        wholes_are_themselves(k);
        if k == 2_000_000 {
            assert(c.over(m) == Real::nearest_to(2)) by {
                reveal(Real::nearest_to);
                reveal(Real::spec_over);
                wholes_divide(2, 1_000_000);
            }
            wholes_are_themselves(2);
        } else {
            quotient_rounds(c, m);
            slack_is_small(k as real / 1000000real, 2real);
        }
    }
}

/// A number from 0 to 2 stays between them when it is narrowed.
proof fn narrowed_is_between(v: Real)
    requires
        is_number(v),
        zero(Width::Double, v.bits) || is_positive(v) && value(v) <= 2real,
    ensures
        (Real32 { bits: SHORT_ZERO }).at_most(v.narrowed()),
        v.narrowed().at_most(Real32 { bits: SHORT_TWO }),
{
    let (w, n) = (Width::Double, Width::Single);
    reveal(Real::spec_narrowed);
    formats(w);
    formats(n);
    parts_of(w, v.bits);
    let (s, e) = (significand(w, v.bits), exponent(w, v.bits));
    if !zero(w, v.bits) {
        let two = Real { bits: TWO };
        some_values();
        order_is_by_value(two, v);
        parts_of(w, TWO);
        units_keep_order(w, v.bits, TWO);
        let (i, j) = ((e + 1074) as nat, (1 - e) as nat);
        lemma_pow2_adds(i, j);
        lemma_pow2_adds(52, 1023);
        lemma_pow2_pos(i);
        assert(s <= pow2(j)) by (nonlinear_arith)
            requires
                s * pow2(i) <= pow2(i) * pow2(j),
                pow2(i) > 0,
        ;
        nearest_keeps_order(n, s, pow2(j), e);
        assert(1 * pow2(j) == pow2(j) && 1 * pow2(23) == pow2(23)) by (nonlinear_arith);
        nearest_of_shifted(n, 1, j, 1);
        nearest_of_shifted(n, 1, 23, 1);
        nearest_of_own(n, SHORT_TWO as u64, 0);
        parts_of(n, SHORT_TWO as u64);
    }
}

/// What a vignette with parameters that are accepted multiplies light with is from 0 to 2.
pub proof fn gain_is_between(d: Real, strength: Real, radius: Real, feather: Real)
    requires
        is_number(d),
        within(strength.bits, MINUS_ONE, ONE),
        within(radius.bits, ZERO, ONE_AND_A_HALF),
        within(feather.bits, ZERO, ONE),
    ensures
        (Real32 { bits: SHORT_ZERO }).at_most(falloff(d, strength, radius, feather)),
        falloff(d, strength, radius, feather).at_most(Real32 { bits: SHORT_TWO }),
{
    let x = raw_gain_is_near(d, strength, radius, feather);
    let g = raw_gain(d, strength, radius, feather);
    grid_is_between(g, x);
    narrowed_is_between(quantize_1e6(g));
}

} // verus!
