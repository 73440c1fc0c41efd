//! Numbers near values: what sums, products and quotients of them are near.
use vstd::arithmetic::power2::*;
use vstd::prelude::*;

use crate::binary::Real;
use crate::exact::is_number;
use crate::value::{
    difference_rounds, modest, power, product_rounds, quotient_rounds, size, slack, sum_rounds,
    value,
};

verus! {

/// One part in 2^53.
pub open spec fn grain() -> real {
    1real / 9007199254740992real
}

/// A number is at most `e` away from a value.
pub open spec fn near(v: Real, x: real, e: real) -> bool {
    is_number(v) && -e <= value(v) - x <= e
}

/// Rounding moves a value by at most one part in 2^53 of it and of 1.
pub proof fn slack_is_small(x: real, bound: real)
    requires
        size(x) <= bound,
    ensures
        0real <= slack(x) <= (bound + 1real) * grain(),
        power(60) == 1152921504606846976real,
{
    lemma2_to64();
    lemma2_to64_rest();
    lemma_pow2_strictly_increases(53, 1074);
    let (p, q, s) = (power(53), power(1074), size(x));
    assert(p == 9007199254740992real);
    assert(0real <= s / p + 1real / q <= (bound + 1real) / p) by (nonlinear_arith)
        requires
            0real <= s <= bound,
            q > p,
            p > 0real,
    ;
    assert((bound + 1real) / p == (bound + 1real) * grain()) by (nonlinear_arith)
        requires
            p == 9007199254740992real,
            grain() == 1real / 9007199254740992real,
    ;
}

/// What is near a value of known size is not large.
proof fn near_is_modest(a: Real, x: real, e: real, bound: real)
    requires
        near(a, x, e),
        size(x) + e <= bound,
        bound <= 1000000000000real,
    ensures
        modest(a),
        size(value(a)) <= bound,
{
    slack_is_small(0real, 0real);
}

/// A sum.
pub proof fn near_sum(a: Real, x: real, ea: real, b: Real, y: real, eb: real, bound: real, e: real)
    requires
        near(a, x, ea),
        near(b, y, eb),
        size(x) + ea <= bound,
        size(y) + eb <= bound,
        bound <= 1000000000real,
        ea + eb + (2real * bound + 1real) * grain() <= e,
    ensures
        near(a.plus(b), x + y, e),
{
    near_is_modest(a, x, ea, bound);
    near_is_modest(b, y, eb, bound);
    sum_rounds(a, b);
    slack_is_small(value(a) + value(b), 2real * bound);
}

/// A difference.
pub proof fn near_difference(
    a: Real,
    x: real,
    ea: real,
    b: Real,
    y: real,
    eb: real,
    bound: real,
    e: real,
)
    requires
        near(a, x, ea),
        near(b, y, eb),
        size(x) + ea <= bound,
        size(y) + eb <= bound,
        bound <= 1000000000real,
        ea + eb + (2real * bound + 1real) * grain() <= e,
    ensures
        near(a.minus(b), x - y, e),
{
    near_is_modest(a, x, ea, bound);
    near_is_modest(b, y, eb, bound);
    difference_rounds(a, b);
    slack_is_small(value(a) - value(b), 2real * bound);
}

/// A product.
pub proof fn near_product(
    a: Real,
    x: real,
    ea: real,
    bound: real,
    b: Real,
    y: real,
    eb: real,
    other: real,
    e: real,
)
    requires
        near(a, x, ea),
        near(b, y, eb),
        size(x) + ea <= bound,
        size(y) + eb <= other,
        ea >= 0real,
        eb >= 0real,
        bound <= 1000000real,
        other <= 1000000real,
        bound * eb + other * ea + (bound * other + 1real) * grain() <= e,
    ensures
        near(a.times(b), x * y, e),
{
    near_is_modest(a, x, ea, bound);
    near_is_modest(b, y, eb, other);
    product_rounds(a, b);
    let (p, q) = (value(a), value(b));
    assert(size(p * q) <= bound * other) by (nonlinear_arith)
        requires
            -bound <= p <= bound,
            -other <= q <= other,
            size(p * q) == p * q || size(p * q) == -(p * q),
    ;
    slack_is_small(p * q, bound * other);
    let d = p * q - x * y;
    assert(-(bound * eb + other * ea) <= d <= bound * eb + other * ea) by (nonlinear_arith)
        requires
            d == p * q - x * y,
            -bound <= p <= bound,
            -other <= y <= other,
            -ea <= p - x <= ea,
            -eb <= q - y <= eb,
            ea >= 0real,
            eb >= 0real,
    {
        assert(d == p * (q - y) + y * (p - x));
        assert(-(bound * eb) <= p * (q - y) <= bound * eb);
        assert(-(other * ea) <= y * (p - x) <= other * ea);
    }
}

/// A product of factors whose product is at most `area` in size.
pub proof fn near_times(
    a: Real,
    x: real,
    ea: real,
    bound: real,
    b: Real,
    y: real,
    eb: real,
    other: real,
    area: real,
    e: real,
)
    requires
        near(a, x, ea),
        near(b, y, eb),
        size(x) + ea <= bound,
        size(y) + eb <= other,
        ea >= 0real,
        eb >= 0real,
        bound <= 1000000real,
        other <= 1000000real,
        bound * other <= area,
        bound * eb + other * ea + (area + 1real) * grain() <= e,
    ensures
        near(a.times(b), x * y, e),
{
    assert((bound * other + 1real) * grain() <= (area + 1real) * grain()) by (nonlinear_arith)
        requires
            bound * other <= area,
            grain() > 0real,
    ;
    near_product(a, x, ea, bound, b, y, eb, other, e);
}

/// A quotient: the divisor is at least one part in `inv` of 1, and the quotient at most
/// `ratio` in size.
pub proof fn near_quotient(
    a: Real,
    x: real,
    ea: real,
    b: Real,
    y: real,
    eb: real,
    inv: real,
    ratio: real,
    e: real,
)
    requires
        near(a, x, ea),
        near(b, y, eb),
        ea >= 0real,
        eb >= 0real,
        0real < y <= 1000real,
        y * inv >= 1real,
        1real <= inv <= 1000real,
        2real * (eb * inv) <= 1real,
        size(x) <= ratio * y,
        size(x) + ea <= 1000000real,
        0real <= ratio <= 1000real,
        2real * inv * (ea + ratio * eb) <= 1real,
        2real * inv * (ea + ratio * eb) + (ratio + 2real) * grain() <= e,
    ensures
        near(a.over(b), x / y, e),
{
    let (p, q) = (value(a), value(b));
    slack_is_small(0real, 0real);
    let d = ea + ratio * eb;
    // The divisor is not small.
    assert(eb <= 1real) by (nonlinear_arith)
        requires
            2real * (eb * inv) <= 1real,
            inv >= 1real,
            eb >= 0real,
    ;
    let f = q - y;
    assert(q * inv >= 1real / 2real) by (nonlinear_arith)
        requires
            y * inv >= 1real,
            2real * (eb * inv) <= 1real,
            q >= y - eb,
            inv >= 1real,
    ;
    assert(q > 0real) by (nonlinear_arith)
        requires
            q * inv >= 1real / 2real,
            inv >= 1real,
    ;
    assert(q * 1152921504606846976real >= 1real) by (nonlinear_arith)
        requires
            q * inv >= 1real / 2real,
            1real <= inv <= 1000real,
            q > 0real,
    ;
    quotient_rounds(a, b);
    let (r, t) = (x / y, p / q);
    assert(r * y == x && t * q == p) by (nonlinear_arith)
        requires
            r == x / y,
            t == p / q,
            y > 0real,
            q > 0real,
    ;
    ratio_is_bounded(r, y, x, ratio);
    quotients_differ(r, y, x, t, q, p, ea, eb, ratio);
    let g = t - r;
    less_by_divisor(g, q, d, inv);
    slack_is_small(t, ratio + 1real);
}

proof fn ratio_is_bounded(r: real, y: real, x: real, ratio: real)
    requires
        r * y == x,
        y > 0real,
        -(ratio * y) <= x <= ratio * y,
    ensures
        -ratio <= r <= ratio,
{
    if r > ratio {
        assert(r * y > ratio * y) by (nonlinear_arith)
            requires
                r > ratio,
                y > 0real,
        ;
    }
    if r < -ratio {
        assert(r * y < -(ratio * y)) by (nonlinear_arith)
            requires
                r < -ratio,
                y > 0real,
        ;
    }
}

proof fn quotients_differ(
    r: real,
    y: real,
    x: real,
    t: real,
    q: real,
    p: real,
    ea: real,
    eb: real,
    ratio: real,
)
    requires
        r * y == x,
        t * q == p,
        -ea <= p - x <= ea,
        -eb <= q - y <= eb,
        -ratio <= r <= ratio,
        eb >= 0real,
    ensures
        -(ea + ratio * eb) <= (t - r) * q <= ea + ratio * eb,
{
    let f = q - y;
    assert((t - r) * q == t * q - r * q) by (nonlinear_arith);
    assert(r * q == r * y + r * (q - y)) by (nonlinear_arith);
    assert(-(ratio * eb) <= r * f <= ratio * eb) by (nonlinear_arith)
        requires
            -ratio <= r <= ratio,
            -eb <= f <= eb,
            eb >= 0real,
    ;
}

proof fn less_by_divisor(g: real, q: real, d: real, inv: real)
    requires
        -d <= g * q <= d,
        q * inv >= 1real / 2real,
        q > 0real,
        inv >= 1real,
        d >= 0real,
    ensures
        -(2real * inv * d) <= g <= 2real * inv * d,
{
    let k = 2real * inv * d;
    assert(k * q >= d) by (nonlinear_arith)
        requires
            k == 2real * inv * d,
            q * inv >= 1real / 2real,
            d >= 0real,
    ;
    if g > k {
        assert(g * q > k * q) by (nonlinear_arith)
            requires
                g > k,
                q > 0real,
        ;
    }
    if g < -k {
        assert(g * q < -(k * q)) by (nonlinear_arith)
            requires
                g < -k,
                q > 0real,
        ;
    }
}

} // verus!
