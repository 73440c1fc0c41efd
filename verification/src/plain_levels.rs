//! Levels that span the whole range keep every byte.
use vstd::prelude::*;

use crate::binary::Real;
use crate::curve_shape::{fine, fine_product, fine_quotient, fine_sum};
use crate::grid_bytes::byte_of_near_whole;
use crate::number::{ONE, ZERO};
use crate::ops::color::{level_entry, level_input};
use crate::plain_rows::clamped_is_near;
use crate::value::{order_is_by_value, wholes_are_themselves, zero_is_zero};
use crate::whole_steps::wholes_subtract;

verus! {

/// Levels from 0 to 255, to 0 to 255, with a gamma of 1 keep every byte.
pub proof fn plain_levels_change_nothing(i: u8, gamma: Real, powers: Seq<Real>)
    requires
        gamma.same(Real { bits: ONE }),
    ensures
        level_entry(i as int, 0, 255, gamma, 0, 255, powers) == i,
{
    let (v, low, top) = (Real::of_byte(i), Real::of_byte(0), Real::of_byte(255));
    let x = i as real / 255real;
    wholes_are_themselves(i as nat);
    wholes_are_themselves(0);
    wholes_are_themselves(255);
    wholes_subtract(i as nat, 0);
    wholes_subtract(255, 0);
    zero_is_zero();
    order_is_by_value(Real { bits: ZERO }, top);
    assert(0real * fine() == 0real);
    fine_quotient(v, i as real, 0real, top, 255real, 0real, 1real, 1real, 1real);
    let part = v.over(top);
    clamped_is_near(part, x, 1real * fine());
    let shaped = level_input(i as int, 0, 255);
    fine_product(shaped, x, 1real, 2real, top, 255real, 0real, 256real, 330real);
    assert(x * 255real == i as real);
    fine_sum(low, 0real, 0real, shaped.times(top), i as real, 330real, 256real, 400real);
    byte_of_near_whole(low.plus(shaped.times(top)), i);
}

} // verus!
