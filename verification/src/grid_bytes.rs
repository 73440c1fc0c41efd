//! Bytes that are found by way of a grid of 1e-9.
use vstd::arithmetic::power2::*;
use vstd::prelude::*;

use crate::binary::Real;
use crate::exact::is_number;
use crate::float::{exponent, negative, Width};
use crate::linear::{quantize_1e9, BILLION};
use crate::nearness::slack_is_small;
use crate::ops::color::grid_byte;
use crate::tangents::is_positive;
use crate::value::{
    magnitude, magnitude_by_parts, order_is_by_value, power, product_rounds, quotient_rounds, value,
    wholes_are_themselves, zero_is_zero,
};
use crate::whole_steps::{round_is_near, round_of_negative, small_rounds_to_zero};
use crate::wholes::{
    million_and_billion, wholes_divide, wholes_round_to_themselves, zero_stays,
};

verus! {

proof fn billion_is()
    ensures
        is_positive(Real { bits: BILLION }),
        value(Real { bits: BILLION }) == 1000000000real,
        Real::nearest_to(1_000_000_000) == (Real { bits: BILLION }),
{
    million_and_billion();
    assert(Real::nearest_to(1_000_000_000) == (Real { bits: BILLION })) by {
        reveal(Real::nearest_to);
    }
    wholes_are_themselves(1_000_000_000);
}

/// How many steps of the grid a number is from 0, and the number of so many steps.
proof fn steps_of_grid(v: Real) -> (k: nat)
    requires
        is_positive(v),
        value(v) <= 3000real,
    ensures
        quantize_1e9(v) == Real::nearest_to(k as int).over(Real { bits: BILLION }),
        k <= 3000000000001,
        -(51real / 100real) <= k as real - 1000000000real * value(v) <= 51real / 100real,
        is_positive(quantize_1e9(v)),
        ({
            let x = k as real / 1000000000real;
            -(1real / 1000000000000real) <= value(quantize_1e9(v)) - x <= 1real / 1000000000000real
        }),
{
    let b = Real { bits: BILLION };
    billion_is();
    slack_is_small(0real, 0real);
    order_is_by_value(v, b);
    product_rounds(v, b);
    let a = v.times(b);
    let x = value(v) * 1000000000real;
    slack_is_small(x, 3000000000000real);
    order_is_by_value(a, b);
    let k = round_is_near(a);
    let c = Real::nearest_to(k as int);
    wholes_are_themselves(k);
    quotient_rounds(c, b);
    let y = k as real / 1000000000real;
    slack_is_small(y, 3001real);
    k
}

/// A number that is well above another is in a byte that is no less.
pub proof fn bytes_keep_order(v: Real, w: Real)
    requires
        is_positive(v),
        is_positive(w),
        value(w) <= 3000real,
        value(v) + 1real / 100000000real <= value(w),
    ensures
        grid_byte(v) <= grid_byte(w),
{
    let i = steps_of_grid(v);
    let j = steps_of_grid(w);
    let m = round_is_near(quantize_1e9(v));
    let n = round_is_near(quantize_1e9(w));
}

/// A number that is close to a whole one is in the byte of that.
pub proof fn byte_of_near_whole(v: Real, y: u8)
    requires
        is_number(v),
        -(1real / 5000000000real) <= value(v) - y as real <= 1real / 5000000000real,
    ensures
        grid_byte(v) == y,
{
    let w = Width::Double;
    let b = Real { bits: BILLION };
    billion_is();
    if negative(w, v.bits) {
        magnitude_by_parts(v.bits);
        assert(y == 0);
        slack_is_small(0real, 0real);
        product_rounds(v, b);
        let a = v.times(b);
        slack_is_small(value(v) * 1000000000real, 1real);
        zero_over_billion(a);
    } else {
        let k = steps_of_grid(v);
        let n = y as nat * 1_000_000_000;
        assert(k == n);
        assert(quantize_1e9(v) == Real::nearest_to(y as int)) by {
            reveal(Real::nearest_to);
            reveal(Real::spec_over);
            if y == 0 {
                zero_stays(1_000_000_000);
            } else {
                wholes_divide(y as nat, 1_000_000_000);
            }
        }
        wholes_round_to_themselves(y as nat);
    }
}

/// What is about zero stays so on the grid.
proof fn zero_over_billion(a: Real)
    requires
        is_number(a),
        -(1real / 4real) < value(a) < 1real / 4real,
    ensures
        a.round().over(Real { bits: BILLION }).round_integer() == 0,
{
    let w = Width::Double;
    small_rounds_to_zero(a);
    billion_is();
    let (r, b) = (a.round(), Real { bits: BILLION });
    magnitude_by_parts(r.bits);
    zero_is_zero();
    slack_is_small(0real, 0real);
    assert(magnitude(r.bits) == 0real) by {
        let (x, one) = (power((exponent(w, r.bits) + 1074) as nat), power(1074));
        lemma_pow2_pos(1074);
        assert(0real * x / one == 0real) by (nonlinear_arith)
            requires
                one > 0real,
        ;
    }
    quotient_rounds(r, b);
    slack_is_small(0real / 1000000000real, 0real);
    small_rounds_to_zero(r.over(b));
}

/// A negative number is in byte 0.
pub proof fn byte_of_negative(v: Real)
    requires
        is_number(v),
        negative(Width::Double, v.bits),
        -3000real <= value(v),
    ensures
        grid_byte(v) == 0,
{
    let b = Real { bits: BILLION };
    billion_is();
    magnitude_by_parts(v.bits);
    slack_is_small(0real, 0real);
    product_rounds(v, b);
    let a = v.times(b);
    slack_is_small(value(v) * 1000000000real, 3000000000000real);
    round_of_negative(a);
    let r = a.round();
    quotient_rounds(r, b);
    let q = r.over(b);
    slack_is_small(value(r) / 1000000000real, 4000real);
    round_of_negative(q);
}

} // verus!
