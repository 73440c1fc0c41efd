//! Numbers near values of ordinary size: each operation adds at most a trace to the error.
use vstd::prelude::*;

use crate::binary::Real;
use crate::nearness::{grain, near, near_difference, near_quotient, near_sum, near_times};
use crate::value::size;

verus! {

/// One part in a million million.
pub open spec fn trace() -> real {
    1real / 1000000000000real
}

/// A sum.
pub proof fn near_plus(a: Real, x: real, ea: real, b: Real, y: real, eb: real, e: real)
    requires
        near(a, x, ea),
        near(b, y, eb),
        size(x) + ea <= 1000real,
        size(y) + eb <= 1000real,
        ea + eb + trace() <= e,
    ensures
        near(a.plus(b), x + y, e),
{
    assert((2real * 1000real + 1real) * grain() <= trace()) by (nonlinear_arith)
        requires
            grain() == 1real / 9007199254740992real,
            trace() == 1real / 1000000000000real,
    ;
    near_sum(a, x, ea, b, y, eb, 1000real, e);
}

/// A difference.
pub proof fn near_minus(a: Real, x: real, ea: real, b: Real, y: real, eb: real, e: real)
    requires
        near(a, x, ea),
        near(b, y, eb),
        size(x) + ea <= 1000real,
        size(y) + eb <= 1000real,
        ea + eb + trace() <= e,
    ensures
        near(a.minus(b), x - y, e),
{
    assert((2real * 1000real + 1real) * grain() <= trace()) by (nonlinear_arith)
        requires
            grain() == 1real / 9007199254740992real,
            trace() == 1real / 1000000000000real,
    ;
    near_difference(a, x, ea, b, y, eb, 1000real, e);
}

/// A product.
pub proof fn near_by(
    a: Real,
    x: real,
    ea: real,
    bound: real,
    b: Real,
    y: real,
    eb: real,
    other: real,
    e: real,
)
    requires
        near(a, x, ea),
        near(b, y, eb),
        size(x) + ea <= bound,
        size(y) + eb <= other,
        ea >= 0real,
        eb >= 0real,
        bound <= 1000real,
        other <= 1000real,
        bound * other <= 2000real,
        bound * eb + other * ea + trace() <= e,
    ensures
        near(a.times(b), x * y, e),
{
    assert((2000real + 1real) * grain() <= trace());
    near_times(a, x, ea, bound, b, y, eb, other, 2000real, e);
}

/// A quotient: the divisor is at least one part in `inv` of 1, and the quotient at most
/// `ratio` in size.
pub proof fn near_over(
    a: Real,
    x: real,
    ea: real,
    b: Real,
    y: real,
    eb: real,
    inv: real,
    ratio: real,
    e: real,
)
    requires
        near(a, x, ea),
        near(b, y, eb),
        ea >= 0real,
        eb >= 0real,
        0real < y <= 1000real,
        y * inv >= 1real,
        1real <= inv <= 1000real,
        2real * (eb * inv) <= 1real,
        size(x) <= ratio * y,
        size(x) + ea <= 1000000real,
        0real <= ratio <= 1000real,
        2real * inv * (ea + ratio * eb) <= 1real,
        2real * inv * (ea + ratio * eb) + trace() <= e,
    ensures
        near(a.over(b), x / y, e),
{
    assert((ratio + 2real) * grain() <= trace()) by (nonlinear_arith)
        requires
            0real <= ratio <= 1000real,
            grain() == 1real / 9007199254740992real,
            trace() == 1real / 1000000000000real,
    ;
    near_quotient(a, x, ea, b, y, eb, inv, ratio, e);
}

} // verus!
