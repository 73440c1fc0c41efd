//! Comparing numbers compares their values, and what clamping and rounding to bytes does to
//! them.
use vstd::prelude::*;

use crate::binary::{byte_range, Real};
use crate::exact::is_number;
use crate::float::{negative, round_value, unsigned, Width};
use crate::hue_trip::below_zero;
use crate::nearness::{grain, near, near_difference, near_times, near_sum, slack_is_small};
use crate::number::{HALF, MILLION, ZERO};
use crate::percentiles::half_value;
use crate::remainders::floor_is_near;
use crate::units::units;
use crate::value::{
    magnitude_by_parts, order_is_by_value, quotient_rounds, size, value, wholes_are_themselves,
    zero_is_zero,
};
use crate::whole_steps::{round_goes_up, round_is_close};
use crate::wholes::million_and_billion;

verus! {

/// A value, or the end of a range that it is beyond.
pub open spec fn kept_within(x: real, low: real, high: real) -> real {
    if x < low {
        low
    } else if x > high {
        high
    } else {
        x
    }
}

/// Two values are at most `e` apart.
pub open spec fn close(x: real, y: real, e: real) -> bool {
    -e <= x - y <= e
}

/// Numbers are in the order of their values.
pub proof fn order_is_that_of_values(a: Real, b: Real)
    requires
        is_number(a),
        is_number(b),
    ensures
        a.below(b) <==> value(a) < value(b),
        a.same(b) <==> value(a) == value(b),
        a.at_most(b) <==> value(a) <= value(b),
{
    let w = Width::Double;
    let (c, d) = (a.absolute(), b.absolute());
    assert(unsigned(w, c.bits) == unsigned(w, a.bits) && !negative(w, c.bits));
    assert(unsigned(w, d.bits) == unsigned(w, b.bits) && !negative(w, d.bits));
    assert(units(w, c.bits) == units(w, a.bits));
    assert(units(w, d.bits) == units(w, b.bits));
    order_is_by_value(c, d);
    order_is_by_value(d, c);
    magnitude_by_parts(a.bits);
    magnitude_by_parts(b.bits);
    zero_is_zero();
    let zero = Real { bits: ZERO };
    order_is_by_value(zero, c);
    order_is_by_value(zero, d);
    order_is_by_value(c, zero);
    order_is_by_value(d, zero);
}

/// A number that is clamped has the value that is nearest to its own in the range.
pub proof fn clamped_value(v: Real, low: Real, high: Real)
    requires
        is_number(v),
        is_number(low),
        is_number(high),
    ensures
        is_number(v.clamped(low, high)),
        value(v.clamped(low, high)) == kept_within(value(v), value(low), value(high)),
{
    order_is_that_of_values(v, low);
    order_is_that_of_values(high, v);
}

/// Values that are close together stay so within a range.
pub proof fn clamps_are_close(x: real, y: real, low: real, high: real, e: real)
    requires
        close(x, y, e),
        low <= high,
        e >= 0real,
    ensures
        close(kept_within(x, low, high), kept_within(y, low, high), e),
{
}

/// The nearest integer, brought into the range of a byte, is within a half of the number
/// brought into that range.
pub proof fn rounded_byte(v: Real)
    requires
        is_number(v),
    ensures
        close(
            byte_range(v.round_integer() as int) as real,
            kept_within(value(v), 0real, 255real),
            1real / 2real,
        ),
{
    let w = Width::Double;
    magnitude_by_parts(v.bits);
    if !negative(w, v.bits) {
        let n = round_goes_up(v);
        if n > 255 {
            assert(value(v) >= 511real / 2real);
        }
    } else {
        reveal(Real::spec_round_integer);
        assert(round_value(w, v.bits) <= 0);
    }
}

/// The nearest byte is hardly further than a half from the number brought into the range of
/// bytes.
pub proof fn nearest_byte(v: Real)
    requires
        is_number(v),
        -1000000real <= value(v) <= 1000000real,
    ensures
        close(
            v.to_byte() as real,
            kept_within(value(v), 0real, 255real),
            1real / 2real + 1real / 1000000real,
        ),
{
    let half = Real { bits: HALF };
    let zero = Real { bits: ZERO };
    half_value();
    zero_is_zero();
    order_is_that_of_values(zero, v);
    let x = value(v);
    assert(4000001real * grain() <= 1real / 1000000real);
    if zero.at_most(v) {
        near_sum(
            v,
            x,
            0real,
            half,
            1real / 2real,
            0real,
            2000000real,
            1real / 1000000real,
        );
        let s = v.plus(half);
        below_zero(s);
        let n = floor_is_near(s);
        if n > 255 {
            assert(value(s) >= 256real);
        }
    } else {
        near_difference(
            v,
            x,
            0real,
            half,
            1real / 2real,
            0real,
            2000000real,
            1real / 1000000real,
        );
        let s = v.minus(half);
        below_zero(s);
        magnitude_by_parts(s.bits);
        reveal(Real::spec_ceiling_integer);
        assert(s.ceiling_integer() <= 0);
    }
}

/// The value of a million.
pub proof fn million_value()
    ensures
        is_number(Real { bits: MILLION }),
        !negative(Width::Double, MILLION),
        value(Real { bits: MILLION }) == 1000000real,
{
    million_and_billion();
    wholes_are_themselves(1_000_000);
    reveal(Real::nearest_to);
}

/// The nearest millionth is hardly further than half a millionth away.
pub proof fn on_grid_is_near(v: Real, x: real, e: real)
    requires
        near(v, x, e),
        e >= 0real,
        size(x) + e <= 100000real,
    ensures
        near(v.on_grid(), x, e + 501real / 1000000000real),
{
    let million = Real { bits: MILLION };
    million_value();
    let y = value(v);
    near_times(
        v,
        y,
        0real,
        100000real,
        million,
        1000000real,
        0real,
        1000000real,
        100000000000real,
        1real / 10000real,
    );
    let t = v.times(million);
    let z = y * 1000000real;
    round_is_close(t);
    let r = t.round();
    slack_is_small(0real, 0real);
    assert(-100000000001real <= value(r) <= 100000000001real);
    quotient_rounds(r, million);
    let q = value(r) / 1000000real;
    slack_is_small(q, 100001real);
}

} // verus!
