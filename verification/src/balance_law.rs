//! White balance over the real numbers: what temperature and tint do to each channel.
use vstd::arithmetic::power2::*;
use vstd::prelude::*;

use crate::binary::{Real, Triple};
use crate::exact::{formats, is_number, product_commutes};
use crate::float::Width;
use crate::hsl_law::keeps_sign;
use crate::nearness::{near, near_times, slack_is_small};
use crate::number::{HUNDRED, ONE, ZERO};
use crate::ops::wb::{
    balanced, balanced_pixel, gained, raw_gains, TEMPERATURE_AMPLITUDE, TINT_AMPLITUDE,
};
use crate::ordering::{close, kept_within, on_grid_is_near, order_is_that_of_values, rounded_byte};
use crate::orderly::{
    grid_keeps_order, products_keep_order, quotients_keep_order, rounds_keep_order,
};
use crate::percentiles::digits;
use crate::raster::Rgba;
use crate::sides::sum_keeps_sides;
use crate::stats::{LUMA_B, LUMA_G, LUMA_R};
use crate::straight_law::negated_value;
use crate::tangents::is_positive;
use crate::tolerance::{near_by, near_minus, near_over, near_plus, trace};
use crate::value::{
    magnitude_by_parts, power, share_values, some_values, value, wholes_are_themselves,
    zero_is_zero,
};

verus! {

/// How much of red is let through at a temperature, before the balance is brought to 1.
pub open spec fn warmth(t: real) -> real {
    1real + 35real / 10000real * t
}

/// How much of blue is let through at a temperature, before the balance is brought to 1.
pub open spec fn coolness(t: real) -> real {
    1real - 35real / 10000real * t
}

/// How much of green is let through at a tint, before the balance is brought to 1.
pub open spec fn greenness(m: real) -> real {
    1real - 25real / 10000real * m
}

/// How bright a white is that is let through like that.
pub open spec fn brightness(t: real, m: real) -> real {
    2126real / 10000real * warmth(t) + 7152real / 10000real * greenness(m) + 722real / 10000real
        * coolness(t)
}

/// A slider is a number from -100 to 100.
pub open spec fn is_slider(v: Real) -> bool {
    is_number(v) && -100real <= value(v) <= 100real
}

/// The constants are the shares that they are meant to be.
pub proof fn shares()
    ensures
        near(Real { bits: TEMPERATURE_AMPLITUDE }, 35real / 100real, trace()),
        near(Real { bits: TINT_AMPLITUDE }, 25real / 100real, 0real),
        near(Real { bits: LUMA_R }, 2126real / 10000real, trace()),
        near(Real { bits: LUMA_G }, 7152real / 10000real, trace()),
        near(Real { bits: LUMA_B }, 722real / 10000real, trace()),
{
    let w = Width::Double;
    formats(w);
    lemma2_to64();
    lemma2_to64_rest();
    digits(TEMPERATURE_AMPLITUDE, 0x16_6666_6666_6666, 54);
    assert(power(53) == 9007199254740992real && power(54) == 18014398509481984real);
    assert(power(55) == 36028797018963968real && power(56) == 72057594037927936real);
    digits(TINT_AMPLITUDE, 0x10_0000_0000_0000, 54);
    assert(4503599627370496real / 18014398509481984real == 1real / 4real);
    digits(LUMA_R, 0x1B_367A_0F90_96BC, 55);
    digits(LUMA_G, 0x16_E2EB_1C43_2CA5, 53);
    digits(LUMA_B, 0x12_7BB2_FEC5_6D5D, 56);
    assert(value(Real { bits: TEMPERATURE_AMPLITUDE }) == 6305039478318694real
        / 18014398509481984real);
    assert(value(Real { bits: LUMA_R }) == 7659722246231740real / 36028797018963968real);
}

/// The gains before they are shared out.
proof fn raw_gains_are_near(temperature: Real, tint: Real)
    requires
        is_slider(temperature),
        is_slider(tint),
    ensures
        ({
            let raw = raw_gains(temperature, tint);
            let (t, m) = (value(temperature), value(tint));
            &&& near(raw.r, warmth(t), 10real * trace())
            &&& near(raw.g, greenness(m), 10real * trace())
            &&& near(raw.b, coolness(t), 10real * trace())
        }),
{
    shares();
    some_values();
    share_values();
    let (one, hundred) = (Real { bits: ONE }, Real { bits: HUNDRED });
    let (warm, magenta) = (Real { bits: TEMPERATURE_AMPLITUDE }, Real { bits: TINT_AMPLITUDE });
    let (t, m) = (value(temperature), value(tint));
    let e = trace();
    near_over(temperature, t, 0real, hundred, 100real, 0real, 1real, 1real, e);
    near_over(tint, m, 0real, hundred, 100real, 0real, 1real, 1real, e);
    let (p, q) = (temperature.over(hundred), tint.over(hundred));
    let (x, y) = (t / 100real, m / 100real);
    near_by(warm, 35real / 100real, e, 1real, p, x, e, 2real, 5real * e);
    near_by(magenta, 25real / 100real, 0real, 1real, q, y, e, 2real, 5real * e);
    assert(35real / 100real * x == 35real / 10000real * t) by (nonlinear_arith)
        requires
            x == t / 100real,
    ;
    assert(25real / 100real * y == 25real / 10000real * m) by (nonlinear_arith)
        requires
            y == m / 100real,
    ;
    let (a, b) = (warm.times(p), magenta.times(q));
    near_plus(one, 1real, 0real, a, 35real / 10000real * t, 5real * e, 10real * e);
    near_minus(one, 1real, 0real, a, 35real / 10000real * t, 5real * e, 10real * e);
    near_minus(one, 1real, 0real, b, 25real / 10000real * m, 5real * e, 10real * e);
}

/// The gains of temperature and tint over the real numbers: temperature raises red and lowers
/// blue, tint lowers green, and the whole is brought back to the brightness that it had.
pub proof fn gains_are_shares(temperature: Real, tint: Real)
    requires
        is_slider(temperature),
        is_slider(tint),
    ensures
        ({
            let g = balanced(temperature, tint);
            let (t, m) = (value(temperature), value(tint));
            let whole = brightness(t, m);
            &&& whole > 0real
            &&& near(g.r, warmth(t) / whole, 1real / 1000000real)
            &&& near(g.g, greenness(m) / whole, 1real / 1000000real)
            &&& near(g.b, coolness(t) / whole, 1real / 1000000real)
        }),
{
    shares();
    raw_gains_are_near(temperature, tint);
    let raw = raw_gains(temperature, tint);
    let (t, m) = (value(temperature), value(tint));
    let (r, g, b) = (warmth(t), greenness(m), coolness(t));
    let (lr, lg, lb) = (2126real / 10000real, 7152real / 10000real, 722real / 10000real);
    let e = 10real * trace();
    let f = trace();
    let (k, l, n) = (Real { bits: LUMA_R }, Real { bits: LUMA_G }, Real { bits: LUMA_B });
    near_by(k, lr, f, 1real, raw.r, r, e, 2real, 3real * e);
    near_by(l, lg, f, 1real, raw.g, g, e, 2real, 3real * e);
    near_by(n, lb, f, 1real, raw.b, b, e, 2real, 3real * e);
    let (x, y, z) = (k.times(raw.r), l.times(raw.g), n.times(raw.b));
    near_plus(x, lr * r, 3real * e, y, lg * g, 3real * e, 7real * e);
    near_plus(x.plus(y), lr * r + lg * g, 7real * e, z, lb * b, 3real * e, 11real * e);
    let mean = x.plus(y).plus(z);
    let whole = brightness(t, m);
    zero_is_zero();
    order_is_that_of_values(mean, Real { bits: ZERO });
    assert(whole >= 1real / 2real && whole <= 3real / 2real);
    near_over(raw.r, r, e, mean, whole, 11real * e, 2real, 4real, 200real * e);
    near_over(raw.g, g, e, mean, whole, 11real * e, 2real, 4real, 200real * e);
    near_over(raw.b, b, e, mean, whole, 11real * e, 2real, 4real, 200real * e);
    let (p, q, s) = (r / whole, g / whole, b / whole);
    quotient_is_small(r, whole);
    quotient_is_small(g, whole);
    quotient_is_small(b, whole);
    on_grid_is_near(raw.r.over(mean), p, 200real * e);
    on_grid_is_near(raw.g.over(mean), q, 200real * e);
    on_grid_is_near(raw.b.over(mean), s, 200real * e);
}

proof fn quotient_is_small(x: real, y: real)
    requires
        y >= 1real / 2real,
        0real <= x <= 2real,
    ensures
        0real <= x / y <= 4real,
{
    assert(0real <= x / y <= 4real) by (nonlinear_arith)
        requires
            y >= 1real / 2real,
            0real <= x <= 2real,
    ;
}

/// A byte that a gain is applied to is within a unit of their product, kept in range.
proof fn gained_is_near(i: u8, gain: Real, x: real)
    requires
        near(gain, x, 1real / 1000000real),
        0real <= x <= 4real,
    ensures
        close(
            gained(i as int, gain) as real,
            kept_within(i as real * x, 0real, 255real),
            501real / 1000real,
        ),
{
    let b = Real::nearest_to(i as int);
    wholes_are_themselves(i as nat);
    let e = 1real / 1000000real;
    near_by(b, i as real, 0real, 255real, gain, x, e, 5real, 1real / 1000real);
    rounded_byte(b.times(gain));
}

/// White balance over the real numbers. Each channel of the result is, to the nearest byte,
/// the channel times its share: red is let through by `1 + 0.35 t / 100` at a temperature `t`,
/// blue by `1 - 0.35 t / 100` and green by `1 - 0.25 m / 100` at a tint `m`, each over the
/// brightness of a white that is let through like that. Opacity stays.
pub proof fn balance_is_by_shares(temperature: Real, tint: Real, p: Rgba)
    requires
        is_slider(temperature),
        is_slider(tint),
    ensures
        ({
            let q = balanced_pixel(temperature, tint, p);
            let (t, m) = (value(temperature), value(tint));
            let whole = brightness(t, m);
            let e = 501real / 1000real;
            &&& whole > 0real
            &&& close(
                q.r as real,
                kept_within(p.r as real * (warmth(t) / whole), 0real, 255real),
                e,
            )
            &&& close(
                q.g as real,
                kept_within(p.g as real * (greenness(m) / whole), 0real, 255real),
                e,
            )
            &&& close(
                q.b as real,
                kept_within(p.b as real * (coolness(t) / whole), 0real, 255real),
                e,
            )
            &&& q.a == p.a
        }),
{
    let (t, m) = (value(temperature), value(tint));
    let whole = brightness(t, m);
    let g = balanced(temperature, tint);
    let zero = Real { bits: ZERO };
    zero_is_zero();
    order_is_that_of_values(temperature, zero);
    order_is_that_of_values(tint, zero);
    gains_are_shares(temperature, tint);
    assert(whole >= 1real / 2real);
    quotient_is_small(warmth(t), whole);
    quotient_is_small(greenness(m), whole);
    quotient_is_small(coolness(t), whole);
    if temperature.same(zero) && tint.same(zero) {
        assert(whole == 1real);
        assert(warmth(t) == 1real && greenness(m) == 1real && coolness(t) == 1real);
        assert(1real / whole == 1real) by (nonlinear_arith)
            requires
                whole == 1real,
        ;
    } else {
        gained_is_near(p.r, g.r, warmth(t) / whole);
        gained_is_near(p.g, g.g, greenness(m) / whole);
        gained_is_near(p.b, g.b, coolness(t) / whole);
    }
}

/// The brightness of a white is a number near what it is over the real numbers.
proof fn mean_is_near(raw: Triple, r: real, g: real, b: real) -> (mean: Real)
    requires
        near(raw.r, r, 10real * trace()) && 0real <= r <= 3real / 2real,
        near(raw.g, g, 10real * trace()) && 0real <= g <= 3real / 2real,
        near(raw.b, b, 10real * trace()) && 0real <= b <= 3real / 2real,
    ensures
        mean == (Real { bits: LUMA_R }).times(raw.r).plus(
            (Real { bits: LUMA_G }).times(raw.g),
        ).plus((Real { bits: LUMA_B }).times(raw.b)),
        near(
            mean,
            2126real / 10000real * r + 7152real / 10000real * g + 722real / 10000real * b,
            200real * trace(),
        ),
{
    shares();
    let e = 10real * trace();
    let f = trace();
    let (lr, lg, lb) = (2126real / 10000real, 7152real / 10000real, 722real / 10000real);
    let (k, l, n) = (Real { bits: LUMA_R }, Real { bits: LUMA_G }, Real { bits: LUMA_B });
    near_by(k, lr, f, 1real, raw.r, r, e, 2real, 3real * e);
    near_by(l, lg, f, 1real, raw.g, g, e, 2real, 3real * e);
    near_by(n, lb, f, 1real, raw.b, b, e, 2real, 3real * e);
    let (x, y, z) = (k.times(raw.r), l.times(raw.g), n.times(raw.b));
    near_plus(x, lr * r, 3real * e, y, lg * g, 3real * e, 7real * e);
    near_plus(x.plus(y), lr * r + lg * g, 7real * e, z, lb * b, 3real * e, 11real * e);
    x.plus(y).plus(z)
}

/// The gains before they are shared out lie on either side of 1: with a temperature that is not
/// below zero, that of red is not below it and that of blue not above it; with one that is not
/// above zero, the other way. Without a tint that of green is 1.
proof fn raw_gains_part(temperature: Real, tint: Real)
    requires
        is_slider(temperature),
        is_slider(tint),
        value(tint) == 0real,
    ensures
        ({
            let raw = raw_gains(temperature, tint);
            &&& value(raw.g) == 1real
            &&& value(temperature) >= 0real ==> value(raw.r) >= 1real && value(raw.b) <= 1real
            &&& value(temperature) <= 0real ==> value(raw.r) <= 1real && value(raw.b) >= 1real
        }),
{
    let w = Width::Double;
    shares();
    some_values();
    share_values();
    slack_is_small(0real, 0real);
    let (one, hundred) = (Real { bits: ONE }, Real { bits: HUNDRED });
    let (warm, magenta) = (Real { bits: TEMPERATURE_AMPLITUDE }, Real { bits: TINT_AMPLITUDE });
    let e = trace();
    near_over(temperature, value(temperature), 0real, hundred, 100real, 0real, 1real, 1real, e);
    near_over(tint, 0real, 0real, hundred, 100real, 0real, 1real, 1real, e);
    let (t, m) = (temperature.over(hundred), tint.over(hundred));
    keeps_sign(temperature, hundred);
    keeps_sign(tint, hundred);
    keeps_sign(t, warm);
    keeps_sign(m, magenta);
    assert(warm.times(t) == t.times(warm) && magenta.times(m) == m.times(magenta)) by {
        reveal(Real::spec_times);
        product_commutes(w, warm.bits, t.bits);
        product_commutes(w, magenta.bits, m.bits);
    }
    let (x, y) = (warm.times(t), magenta.times(m));
    near_by(warm, 35real / 100real, e, 1real, t, value(t), 0real, 2real, 5real * e);
    near_by(magenta, 25real / 100real, 0real, 1real, m, value(m), 0real, 2real, 5real * e);
    let k = 35real / 100real * value(t);
    assert(-1real <= k <= 1real);
    let l = 25real / 100real * value(m);
    assert(-1real <= l <= 1real);
    negated_value(x);
    negated_value(y);
    sum_keeps_sides(one, x, one);
    sum_keeps_sides(one, x.negated(), one);
    sum_keeps_sides(one, y.negated(), one);
}

/// A larger gain makes no smaller byte.
proof fn gained_in_order(v: u8, a: Real, b: Real)
    requires
        is_positive(a),
        is_positive(b),
        value(a) <= value(b) <= 10real,
    ensures
        gained(v as int, a) <= gained(v as int, b),
{
    slack_is_small(0real, 0real);
    magnitude_by_parts(a.bits);
    magnitude_by_parts(b.bits);
    let n = Real::nearest_to(v as int);
    wholes_are_themselves(v as nat);
    products_keep_order(a, b, n);
    near_times(n, v as real, 0real, 255real, b, value(b), 0real, 10real, 2550real, 1real);
    let x = v as real * value(b);
    assert(x <= 2550real) by (nonlinear_arith)
        requires
            x == v as real * value(b),
            0real <= v as real <= 255real,
            0real <= value(b) <= 10real,
    ;
    rounds_keep_order(n.times(a), n.times(b));
}

/// A gain over the brightness, on the grid.
proof fn gains_in_order(a: Real, b: Real, mean: Real)
    requires
        is_number(a) && 1real / 10real <= value(a) <= value(b),
        is_number(b) && value(b) <= 2real,
        is_number(mean) && 1real / 3real <= value(mean) <= 3real,
    ensures
        is_positive(a.over(mean).on_grid()),
        is_positive(b.over(mean).on_grid()),
        value(a.over(mean).on_grid()) <= value(b.over(mean).on_grid()) <= 10real,
{
    slack_is_small(0real, 0real);
    magnitude_by_parts(a.bits);
    magnitude_by_parts(b.bits);
    magnitude_by_parts(mean.bits);
    quotients_keep_order(a, b, mean);
    let (x, y) = (value(b), value(mean));
    near_over(b, x, 0real, mean, y, 0real, 3real, 6real, trace());
    assert(x / y <= 6real) by (nonlinear_arith)
        requires
            0real <= x <= 2real,
            y >= 1real / 3real,
    ;
    assert(x / y >= 0real) by (nonlinear_arith)
        requires
            x >= 0real,
            y > 0real,
    ;
    grid_keeps_order(a.over(mean), b.over(mean));
    on_grid_is_near(b.over(mean), x / y, trace());
}

/// A grey becomes warm with a temperature above zero and cool with one below: without a tint,
/// its red comes out no smaller than its green and that no smaller than its blue, or the other
/// way round.
pub proof fn temperature_tips_greys(temperature: Real, tint: Real, v: u8, a: u8)
    requires
        is_slider(temperature),
        is_slider(tint),
        value(tint) == 0real,
    ensures
        ({
            let q = balanced_pixel(temperature, tint, Rgba { r: v, g: v, b: v, a });
            &&& value(temperature) >= 0real ==> q.r >= q.g && q.g >= q.b
            &&& value(temperature) <= 0real ==> q.r <= q.g && q.g <= q.b
        }),
{
    let zero = Real { bits: ZERO };
    zero_is_zero();
    let (t, m) = (value(temperature), value(tint));
    raw_gains_are_near(temperature, tint);
    raw_gains_part(temperature, tint);
    let raw = raw_gains(temperature, tint);
    let mean = mean_is_near(raw, warmth(t), greenness(m), coolness(t));
    order_is_that_of_values(mean, zero);
    let g = balanced(temperature, tint);
    if t >= 0real {
        gains_in_order(raw.g, raw.r, mean);
        gains_in_order(raw.b, raw.g, mean);
        gained_in_order(v, g.g, g.r);
        gained_in_order(v, g.b, g.g);
    }
    if t <= 0real {
        gains_in_order(raw.r, raw.g, mean);
        gains_in_order(raw.g, raw.b, mean);
        gained_in_order(v, g.r, g.g);
        gained_in_order(v, g.g, g.b);
    }
}

} // verus!
