//! The share of the pixels that automatic levels leave out.
use vstd::prelude::*;

use crate::binary::Real;
use crate::exact::{formats, parts_of};
use crate::float::{negative, zero, Width};
use crate::nearness::{grain, slack_is_small};
use crate::number::{within, HUNDRED, TEN, ZERO};
use crate::value::{
    order_is_by_value, product_rounds, quotient_rounds, share_values, value, wholes_are_themselves,
};

verus! {

/// A share of a number of pixels, in percent.
pub open spec fn share(n: nat, percent: Real) -> Real {
    Real::nearest_to(n as int).times(percent).over(Real { bits: HUNDRED })
}

/// No percent of anything is nothing.
proof fn no_share(n: nat, percent: Real)
    requires
        0 < n < 0x20_0000_0000_0000,
        zero(Width::Double, percent.bits),
    ensures
        zero(Width::Double, share(n, percent).bits),
{
    let w = Width::Double;
    reveal(Real::spec_times);
    reveal(Real::spec_over);
    formats(w);
    share_values();
    wholes_are_themselves(n);
    let a = Real::nearest_to(n as int);
    parts_of(w, percent.bits);
    parts_of(w, HUNDRED);
    let p = a.times(percent);
    assert(zero(w, p.bits));
    parts_of(w, p.bits);
}

/// What is not much larger than a number is not a grain of it.
proof fn little(y: real, m: real)
    requires
        1real <= m,
        0real <= y <= 10real * m,
    ensures
        (y + 1real) * grain() <= m / 10real,
{
    let g = grain();
    assert((y + 1real) * g <= (11real * m) * g) by (nonlinear_arith)
        requires
            0real <= y <= 10real * m,
            1real <= m,
            g > 0real,
    ;
    assert((11real * m) * g <= m / 10real) by (nonlinear_arith)
        requires
            g == 1real / 9007199254740992real,
            1real <= m,
    ;
}

/// A share of at most ten percent is less than the whole, and not less than nothing.
pub proof fn share_is_below(n: nat, percent: Real)
    requires
        0 < n < 0x20_0000_0000_0000,
        within(percent.bits, ZERO, TEN),
    ensures
        share(n, percent).below(Real::nearest_to(n as int)),
        !share(n, percent).below(Real::nearest_to(0)),
{
    let w = Width::Double;
    let a = Real::nearest_to(n as int);
    let hundred = Real { bits: HUNDRED };
    wholes_are_themselves(n);
    wholes_are_themselves(0);
    share_values();
    if zero(w, percent.bits) {
        reveal(Real::nearest_to);
        no_share(n, percent);
        order_is_by_value(Real::nearest_to(0), a);
    } else {
        assert(!negative(w, percent.bits));
        order_is_by_value(Real { bits: TEN }, percent);
        order_is_by_value(percent, percent);
        let (m, c) = (n as real, value(percent));
        assert(0real <= m * c <= 10real * m) by (nonlinear_arith)
            requires
                m >= 0real,
                0real <= c <= 10real,
        ;
        slack_is_small(m * c, 10real * m);
        product_rounds(a, percent);
        let p = a.times(percent);
        let x = value(p);
        order_is_by_value(p, p);
        little(10real * m, m);
        assert(x <= 11real * m);
        slack_is_small(x / 100real, m);
        little(m, m);
        quotient_rounds(p, hundred);
        let t = p.over(hundred);
        order_is_by_value(t, a);
        order_is_by_value(t, Real::nearest_to(0));
    }
}

} // verus!
