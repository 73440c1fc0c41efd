//! Colours by hue, saturation and lightness over the real numbers, and the bands of the wheel.
use vstd::arithmetic::power2::*;
use vstd::prelude::*;

use crate::binary::Real;
use crate::elimination::absolute_value;
use crate::exact::{formats, is_number, nearest_has_a_pattern};
use crate::float::{
    common_exponent, exponent, nearest, negative, signed, significand,
    unsigned, Width,
};
use crate::hsl_law::is_share;
use crate::nearness::{near, slack_is_small};
use crate::number::{BYTE_MAX, FULL_TURN, HALF, ONE, SIXTY, THIRTY, TWO, ZERO};
use crate::ops::hsl::{
    band_center, bands_from, in_turn, part_to_byte, rgb_of, way_is_a_part,
};
use crate::ordering::{
    clamps_are_close, close, kept_within, order_is_that_of_values, rounded_byte,
};
use crate::percentiles::{digits, half_value};
use crate::remainders::{floor_is_near, remainder_is_exact};
use crate::sides::sum_keeps_sides;
use crate::straight_law::negated_value;
use crate::tangents::is_positive;
use crate::tolerance::{near_by, near_minus, near_over, near_plus, trace};
use crate::units::units;
use crate::value::{
    magnitude_by_parts, modest, power, quotient_rounds, size, some_values, value, wheel_values,
    zero_is_zero,
};

verus! {

/// How much red a hue holds, by sixths of the wheel.
pub open spec fn red_part(y: real) -> real {
    kept_within(size(y - 3real) - 1real, 0real, 1real)
}

/// How much green a hue holds, by sixths of the wheel.
pub open spec fn green_part(y: real) -> real {
    kept_within(2real - size(y - 2real), 0real, 1real)
}

/// How much blue a hue holds, by sixths of the wheel.
pub open spec fn blue_part(y: real) -> real {
    kept_within(2real - size(y - 4real), 0real, 1real)
}

/// How far the channels of a colour lie apart.
pub open spec fn width_of(s: real, l: real) -> real {
    (1real - size(2real * l - 1real)) * s
}

/// A channel of a colour, from 0 to 1.
pub open spec fn level_of(part: real, s: real, l: real) -> real {
    l + width_of(s, l) * (part - 1real / 2real)
}

/// What is left of a number below zero after a turn is taken away is what is left of its size,
/// below zero.
proof fn left_below_zero(a: Real, b: Real)
    requires
        is_number(a) && modest(a),
        negative(Width::Double, a.bits),
        is_positive(b) && modest(b),
        value(b) > 0real,
        -value(a) < value(b),
    ensures
        is_number(a.left_of(b)),
        value(a.left_of(b)) == value(a),
{
    let w = Width::Double;
    let c = a.absolute();
    assert(unsigned(w, c.bits) == unsigned(w, a.bits) && !negative(w, c.bits));
    assert(units(w, c.bits) == units(w, a.bits));
    magnitude_by_parts(a.bits);
    let k = remainder_is_exact(c, b);
    let (x, y) = (value(c), value(b));
    if k >= 1 {
        let j = k as real;
        assert(j * y >= y) by (nonlinear_arith)
            requires
                j >= 1real,
                y > 0real,
        ;
    }
    assert(0real * y == 0real) by (nonlinear_arith);
    assert(value(c.left_of(b)) == x);
    reveal(Real::spec_left_of);
    let (p, q) = (a.left_of(b), c.left_of(b));
    assert(significand(w, a.bits) == significand(w, c.bits));
    assert(exponent(w, a.bits) == exponent(w, c.bits));
    let e = common_exponent(w, a.bits, b.bits);
    let n = significand(w, a.bits) * pow2((exponent(w, a.bits) - e) as nat);
    let d = significand(w, b.bits) * pow2((exponent(w, b.bits) - e) as nat);
    nearest_has_a_pattern(w, n % d, false, e);
    let m = nearest(w, n % d, false, e);
    assert(q.bits == signed(w, false, m) && p.bits == signed(w, true, m));
    assert(unsigned(w, p.bits) == unsigned(w, q.bits));
    assert(negative(w, p.bits));
    assert(units(w, p.bits) == units(w, q.bits));
}

/// A hue brought into the turn is the hue, or that a turn away.
proof fn in_turn_is_near(h: Real)
    requires
        is_number(h),
        -60real <= value(h) <= 420real,
        value(h) == 0real ==> !negative(Width::Double, h.bits),
    ensures
        ({
            let r = in_turn(h);
            &&& is_positive(r)
            &&& 0real <= value(r) < 360real
            &&& close(value(r), value(h), trace()) || close(value(r), value(h) + 360real, trace())
                || close(value(r), value(h) - 360real, trace())
        }),
{
    let w = Width::Double;
    let (turn, zero) = (Real { bits: FULL_TURN }, Real { bits: ZERO });
    wheel_values();
    zero_is_zero();
    slack_is_small(0real, 0real);
    magnitude_by_parts(h.bits);
    let left = h.left_of(turn);
    if negative(w, h.bits) {
        left_below_zero(h, turn);
        order_is_that_of_values(left, zero);
        near_plus(left, value(h), 0real, turn, 360real, 0real, trace());
        let up = left.plus(turn);
        order_is_that_of_values(turn, up);
        magnitude_by_parts(up.bits);
    } else {
        let k = remainder_is_exact(h, turn);
        order_is_that_of_values(left, zero);
        order_is_that_of_values(turn, left);
        let j = k as real;
        if k >= 2 {
            assert(j * 360real >= 720real);
        }
        assert(k == 0 || k == 1);
    }
}

/// The sixth of the wheel that a hue lies in, and what of it is left of pairs of sixths.
proof fn sixths(hp: Real) -> (k: nat)
    requires
        is_positive(hp),
        value(hp) <= 6real + trace(),
    ensures
        hp.floor_integer() == k,
        k <= 6,
        k as real <= value(hp) < k as real + 1real,
        near(
            hp.left_of(Real { bits: TWO }),
            value(hp) - (if k < 2 {
                0real
            } else if k < 4 {
                2real
            } else if k < 6 {
                4real
            } else {
                6real
            }),
            0real,
        ),
{
    some_values();
    slack_is_small(0real, 0real);
    let two = Real { bits: TWO };
    let k = floor_is_near(hp);
    let j = remainder_is_exact(hp, two);
    let (y, x) = (value(hp), j as real);
    assert(x * 2real <= y < x * 2real + 2real);
    k
}

/// A part of 255 as a byte.
proof fn part_as_byte(v: Real, x: real)
    requires
        near(v, x, 100real * trace()),
        -1real <= x <= 2real,
    ensures
        close(
            part_to_byte(v) as real,
            255real * kept_within(x, 0real, 1real),
            1real / 2real + 1real / 1000000real,
        ),
{
    wheel_values();
    let top = Real { bits: BYTE_MAX };
    let t = trace();
    near_by(v, x, 100real * t, 3real, top, 255real, 0real, 255real, 26000real * t);
    assert(x * 255real == 255real * x) by (nonlinear_arith);
    let a = v.times(top);
    rounded_byte(a);
    clamps_are_close(value(a), 255real * x, 0real, 255real, 26000real * t);
}

/// One channel from its part of the width.
proof fn channel_is(comp: Real, part: real, m: Real, width: real, l: real)
    requires
        near(comp, width * part, 20real * trace()),
        near(m, l - width / 2real, 20real * trace()),
        0real <= width <= 1real,
        0real <= part <= 1real,
        0real <= l <= 1real,
    ensures
        close(
            part_to_byte(comp.plus(m)) as real,
            255real * kept_within(l + width * (part - 1real / 2real), 0real, 1real),
            1real / 2real + 1real / 1000000real,
        ),
{
    let t = trace();
    assert(0real <= width * part <= 1real) by (nonlinear_arith)
        requires
            0real <= width <= 1real,
            0real <= part <= 1real,
    ;
    near_plus(comp, width * part, 20real * t, m, l - width / 2real, 20real * t, 41real * t);
    assert(width * (part - 1real / 2real) == width * part - width / 2real) by (nonlinear_arith);
    part_as_byte(comp.plus(m), width * part + (l - width / 2real));
}

/// Channels are near what is said of them at a place that is slightly off.
proof fn places_are_close(y: real, z: real, s: real, l: real, e: real)
    requires
        close(y, z, e),
        e >= 0real,
        0real <= s <= 1real,
        0real <= l <= 1real,
    ensures
        close(level_of(red_part(y), s, l), level_of(red_part(z), s, l), e),
        close(level_of(green_part(y), s, l), level_of(green_part(z), s, l), e),
        close(level_of(blue_part(y), s, l), level_of(blue_part(z), s, l), e),
{
    width_is_a_part(s, l);
    let w = width_of(s, l);
    parts_are_close(w, red_part(y), red_part(z), e);
    parts_are_close(w, green_part(y), green_part(z), e);
    parts_are_close(w, blue_part(y), blue_part(z), e);
}

proof fn parts_are_close(w: real, p: real, q: real, e: real)
    requires
        0real <= w <= 1real,
        close(p, q, e),
        e >= 0real,
    ensures
        close(w * (p - 1real / 2real), w * (q - 1real / 2real), e),
{
    let d = p - q;
    assert(w * (p - 1real / 2real) - w * (q - 1real / 2real) == w * (p - q)) by (nonlinear_arith);
    assert(-e <= w * d <= e) by (nonlinear_arith)
        requires
            0real <= w <= 1real,
            -e <= d <= e,
            e >= 0real,
    ;
}

/// The width of a colour is a part, and leaves room on either side of its lightness.
pub proof fn width_is_a_part(s: real, l: real)
    requires
        0real <= s <= 1real,
        0real <= l <= 1real,
    ensures
        0real <= width_of(s, l) <= 1real,
        0real <= width_of(s, l) / 2real <= l,
        width_of(s, l) / 2real <= 1real - l,
{
    let k = 1real - size(2real * l - 1real);
    assert(0real <= k * s <= k) by (nonlinear_arith)
        requires
            0real <= k,
            0real <= s <= 1real,
    ;
}

/// How far a hue is along its sixth, up or down.
spec fn slope_at(k: int, y: real) -> real {
    let from = if k < 2 {
        0real
    } else if k < 4 {
        2real
    } else if k < 6 {
        4real
    } else {
        6real
    };
    1real - size(y - from - 1real)
}

/// The channels, less the least of them, by the sixth of the wheel.
spec fn by_sixth(k: int, c: Real, x: Real) -> (Real, Real, Real) {
    let zero = Real { bits: ZERO };
    if k <= 0 {
        (c, x, zero)
    } else if k == 1 {
        (x, c, zero)
    } else if k == 2 {
        (zero, c, x)
    } else if k == 3 {
        (zero, x, c)
    } else if k == 4 {
        (x, zero, c)
    } else {
        (c, zero, x)
    }
}

/// The channel between the largest and the least.
proof fn slanted(hp: Real, k: nat, c: Real, w: real) -> (x: Real)
    requires
        is_positive(hp),
        k <= 6,
        k as real <= value(hp) < k as real + 1real,
        value(hp) <= 6real + trace(),
        near(
            hp.left_of(Real { bits: TWO }),
            value(hp) - (if k < 2 {
                0real
            } else if k < 4 {
                2real
            } else if k < 6 {
                4real
            } else {
                6real
            }),
            0real,
        ),
        near(c, w, 3real * trace()),
        0real <= w <= 1real,
    ensures
        x == c.times(
            (Real { bits: ONE }).minus(
                hp.left_of(Real { bits: TWO }).minus(Real { bits: ONE }).absolute(),
            ),
        ),
        near(x, w * slope_at(k as int, value(hp)), 10real * trace()),
        0real <= slope_at(k as int, value(hp)) <= 1real,
{
    some_values();
    let t = trace();
    let (one, two) = (Real { bits: ONE }, Real { bits: TWO });
    let z = value(hp.left_of(two));
    near_minus(hp.left_of(two), z, 0real, one, 1real, 0real, t);
    let d = hp.left_of(two).minus(one);
    absolute_value(d);
    near_minus(one, 1real, 0real, d.absolute(), size(z - 1real), t, 2real * t);
    let slant = 1real - size(z - 1real);
    let g = one.minus(d.absolute());
    let b = 11real / 10real;
    near_by(c, w, 3real * t, b, g, slant, 2real * t, b, 10real * t);
    c.times(g)
}

/// In each sixth the channels are what the hue holds of them.
proof fn sixth_is_near(k: nat, y: real, c: Real, x: Real, w: real)
    requires
        k <= 6,
        k as real <= y < k as real + 1real,
        y <= 6real + trace(),
        near(c, w, 3real * trace()),
        near(x, w * slope_at(k as int, y), 10real * trace()),
        0real <= w <= 1real,
    ensures
        ({
            let (r, g, b) = by_sixth(k as int, c, x);
            &&& near(r, w * red_part(y), 20real * trace())
            &&& near(g, w * green_part(y), 20real * trace())
            &&& near(b, w * blue_part(y), 20real * trace())
            &&& 0real <= red_part(y) <= 1real
            &&& 0real <= green_part(y) <= 1real
            &&& 0real <= blue_part(y) <= 1real
        }),
{
    zero_is_zero();
    whole_and_none(w);
    let t = trace();
    let (pr, pg, pb, slant) = (red_part(y), green_part(y), blue_part(y), slope_at(k as int, y));
    if k == 0 {
        assert(pr == 1real && pg == slant && pb == 0real);
    } else if k == 1 {
        assert(pr == slant && pg == 1real && pb == 0real);
    } else if k == 2 {
        assert(pr == 0real && pg == 1real && pb == slant);
    } else if k == 3 {
        assert(pr == 0real && pg == slant && pb == 1real);
    } else if k == 4 {
        assert(pr == slant && pg == 0real && pb == 1real);
    } else if k == 5 {
        assert(pr == 1real && pg == 0real && pb == slant);
    } else {
        assert(pr == 1real && pg == 0real && pb == 0real && 0real <= slant <= t);
        assert(0real <= w * slant <= slant) by (nonlinear_arith)
            requires
                0real <= w <= 1real,
                slant >= 0real,
        ;
    }
}

/// A colour on the wheel: at a hue `h`, by degrees, each channel is the lightness, and as much
/// more or less as the hue holds of it more or less than a half, by the width of the colour.
pub open spec fn is_colour_at(q: (u8, u8, u8), h: real, s: real, l: real, e: real) -> bool {
    let y = h / 60real;
    &&& close(q.0 as real, 255real * level_of(red_part(y), s, l), e)
    &&& close(q.1 as real, 255real * level_of(green_part(y), s, l), e)
    &&& close(q.2 as real, 255real * level_of(blue_part(y), s, l), e)
}

/// A hue, or the same one a turn away, that lies in the turn.
pub open spec fn is_same_hue(x: real, h: real) -> bool {
    &&& 0real <= x <= 360real
    &&& x == h || x == h + 360real || x == h - 360real
}

/// What hue, saturation and lightness make, over the real numbers: the wheel of colours with
/// red at 0, green at 120 and blue at 240 degrees.
#[verifier::rlimit(30)]
pub proof fn wheel_has_colours(h: Real, s: Real, l: Real, x: real)
    requires
        is_number(h),
        -59real <= value(h) <= 419real,
        value(h) == 0real ==> !negative(Width::Double, h.bits),
        is_share(s),
        is_share(l),
        is_same_hue(x, value(h)),
    ensures
        is_colour_at(
            rgb_of(h, s, l),
            x,
            value(s),
            value(l),
            1real / 2real + 1real / 100000real,
        ),
{
    let t = trace();
    let (zero, one, two, half, sixty) = (
        Real { bits: ZERO },
        Real { bits: ONE },
        Real { bits: TWO },
        Real { bits: HALF },
        Real { bits: SIXTY },
    );
    zero_is_zero();
    some_values();
    half_value();
    wheel_values();
    slack_is_small(0real, 0real);
    let (sv, lv) = (value(s), value(l));
    let w = width_of(sv, lv);
    width_is_a_part(sv, lv);
    order_is_that_of_values(s, zero);
    order_is_that_of_values(l, half);
    if s.at_most(zero) {
        let k = 1real - size(2real * lv - 1real);
        assert(w == 0real) by (nonlinear_arith)
            requires
                w == k * sv,
                sv == 0real,
        ;
        part_as_byte(l, lv);
        let y = x / 60real;
        no_width(w, red_part(y));
        no_width(w, green_part(y));
        no_width(w, blue_part(y));
    } else {
        in_turn_is_near(h);
        let r = in_turn(h);
        near_over(r, value(r), 0real, sixty, 60real, 0real, 1real, 6real, t);
        let hp = r.over(sixty);
        quotient_rounds(r, sixty);
        magnitude_by_parts(hp.bits);
        let k = sixths(hp);
        let y = value(hp);
        // The width.
        near_by(two, 2real, 0real, 2real, l, lv, 0real, 1real, t);
        near_minus(two, 2real, 0real, two.times(l), 2real * lv, t, 2real * t);
        let c = if l.at_most(half) {
            near_by(two.times(l), 2real * lv, t, 2real, s, sv, 0real, 1real, 3real * t);
            two.times(l).times(s)
        } else {
            let f = two.minus(two.times(l));
            near_by(f, 2real - 2real * lv, 2real * t, 2real, s, sv, 0real, 1real, 3real * t);
            f.times(s)
        };
        assert(near(c, w, 3real * t));
        let xx = slanted(hp, k, c, w);
        near_over(c, w, 3real * t, two, 2real, 0real, 1real, 1real, 8real * t);
        near_minus(l, lv, 0real, c.over(two), w / 2real, 8real * t, 10real * t);
        let m = l.minus(c.over(two));
        let (pr, pg, pb) = (red_part(y), green_part(y), blue_part(y));
        let (cr, cg, cb) = by_sixth(k as int, c, xx);
        sixth_is_near(k, y, c, xx, w);
        channel_is(cr, pr, m, w, lv);
        channel_is(cg, pg, m, w, lv);
        channel_is(cb, pb, m, w, lv);
        assert(rgb_of(h, s, l) == (
            part_to_byte(cr.plus(m)),
            part_to_byte(cg.plus(m)),
            part_to_byte(cb.plus(m)),
        ));
        // The hue over the real numbers.
        let a = x / 60real;
        turn_is_closed(y, a, value(r), x, sv, lv, t);
        levels_are_parts(pr, sv, lv);
        levels_are_parts(pg, sv, lv);
        levels_are_parts(pb, sv, lv);
    }
}

proof fn levels_are_parts(p: real, s: real, l: real)
    requires
        0real <= p <= 1real,
        0real <= s <= 1real,
        0real <= l <= 1real,
    ensures
        0real <= level_of(p, s, l) <= 1real,
{
    width_is_a_part(s, l);
    let (w, d) = (width_of(s, l), p - 1real / 2real);
    assert(-(w / 2real) <= w * d <= w / 2real) by (nonlinear_arith)
        requires
            w >= 0real,
            -(1real / 2real) <= d <= 1real / 2real,
    ;
}

proof fn whole_and_none(w: real)
    ensures
        w * 1real == w,
        w * 0real == 0real,
{
    assert(w * 1real == w && w * 0real == 0real) by (nonlinear_arith);
}

proof fn no_width(w: real, p: real)
    requires
        w == 0real,
    ensures
        w * (p - 1real / 2real) == 0real,
{
    let d = p - 1real / 2real;
    assert(w * d == 0real) by (nonlinear_arith)
        requires
            w == 0real,
    ;
}

/// Over the end of the turn the colours go on.
pub proof fn turn_is_closed(y: real, a: real, r: real, x: real, s: real, l: real, e: real)
    requires
        close(y, r / 60real, e),
        a == x / 60real,
        0real <= r <= 360real,
        0real <= x <= 360real,
        0real <= e <= 1real / 1000real,
        close(r, x, e) || close(r, x + 360real, e) || close(r, x - 360real, e) || close(
            r,
            x + 720real,
            e,
        ) || close(r, x - 720real, e),
        0real <= s <= 1real,
        0real <= l <= 1real,
    ensures
        close(level_of(red_part(y), s, l), level_of(red_part(a), s, l), 10real * e),
        close(level_of(green_part(y), s, l), level_of(green_part(a), s, l), 10real * e),
        close(level_of(blue_part(y), s, l), level_of(blue_part(a), s, l), 10real * e),
{
    if close(r, x, e) {
        places_are_close(y, a, s, l, 10real * e);
    } else {
        // One is next to the start of the turn, the other next to its end.
        assert(red_part(0real) == red_part(6real));
        assert(green_part(0real) == green_part(6real));
        assert(blue_part(0real) == blue_part(6real));
        if x <= 180real {
            places_are_close(y, 6real, s, l, 3real * e);
            places_are_close(0real, a, s, l, 3real * e);
        } else {
            places_are_close(y, 0real, s, l, 3real * e);
            places_are_close(6real, a, s, l, 3real * e);
        }
    }
}

/// The middle of a band, in degrees.
pub open spec fn center(i: int) -> real {
    if i == 0 {
        0real
    } else if i == 1 {
        30real
    } else if i == 2 {
        60real
    } else if i == 3 {
        120real
    } else if i == 4 {
        180real
    } else if i == 5 {
        240real
    } else if i == 6 {
        280real
    } else if i == 7 {
        320real
    } else {
        360real
    }
}

/// The middles of the bands have their values.
proof fn centers(i: int)
    requires
        0 <= i <= 8,
    ensures
        is_number(band_center(i as usize)),
        !negative(Width::Double, band_center(i as usize).bits),
        value(band_center(i as usize)) == center(i),
{
    formats(Width::Double);
    lemma2_to64();
    lemma2_to64_rest();
    zero_is_zero();
    wheel_values();
    assert(power(48) == 281474976710656real && power(46) == 70368744177664real && power(45)
        == 35184372088832real && power(44) == 17592186044416real);
    if i == 1 {
        digits(THIRTY, 0x1E_0000_0000_0000, 48);
        assert(8444249301319680real / 281474976710656real == 30real);
    } else if i == 3 {
        digits(0x405E_0000_0000_0000, 0x1E_0000_0000_0000, 46);
        assert(8444249301319680real / 70368744177664real == 120real);
    } else if i == 4 {
        digits(0x4066_8000_0000_0000, 0x16_8000_0000_0000, 45);
        assert(6333186975989760real / 35184372088832real == 180real);
    } else if i == 5 {
        digits(0x406E_0000_0000_0000, 0x1E_0000_0000_0000, 45);
        assert(8444249301319680real / 35184372088832real == 240real);
    } else if i == 6 {
        digits(0x4071_8000_0000_0000, 0x11_8000_0000_0000, 44);
        assert(4925812092436480real / 17592186044416real == 280real);
    } else if i == 7 {
        digits(0x4074_0000_0000_0000, 0x14_0000_0000_0000, 44);
        assert(5629499534213120real / 17592186044416real == 320real);
    }
}

/// The two bands that a hue lies between, and how far it is from the first: the band before it,
/// the next one round the wheel, and weights that make up one.
pub open spec fn are_bands(bands: ((int, Real), (int, Real)), h: real) -> bool {
    let ((i, wi), (j, wj)) = bands;
    let part = (h - center(i)) / (center(i + 1) - center(i));
    &&& 0 <= i < 8
    &&& j == if i < 7 {
        i + 1
    } else {
        0
    }
    &&& center(i) <= h < center(i + 1)
    &&& is_share(wi) && near(wi, 1real - part, 10real * trace())
    &&& is_share(wj) && near(wj, part, 10real * trace())
}

/// A hue is shared by the bands before and after it: the nearer it is to one, the more.
pub proof fn hues_are_shared(h: Real)
    requires
        is_number(h),
        0real <= value(h) < 360real,
    ensures
        are_bands(bands_from(h, 0), value(h)),
{
    shared_from(h, 0);
}

proof fn shared_from(h: Real, i: int)
    requires
        is_number(h),
        0 <= i < 8,
        center(i) <= value(h) < 360real,
    ensures
        are_bands(bands_from(h, i), value(h)),
    decreases 8 - i,
{
    let (low, high) = (band_center(i as usize), band_center((i + 1) as usize));
    centers(i);
    centers(i + 1);
    order_is_that_of_values(low, h);
    order_is_that_of_values(h, high);
    if value(h) < center(i + 1) {
        let t = trace();
        let (x, a, b) = (value(h), center(i), center(i + 1));
        way_is_a_part(h, low, high);
        near_minus(h, x, 0real, low, a, 0real, t);
        near_minus(high, b, 0real, low, a, 0real, t);
        let (p, q) = (h.minus(low), high.minus(low));
        near_over(p, x - a, t, q, b - a, t, 1real, 1real, 5real * t);
        let part = (x - a) / (b - a);
        let (u, v) = (x - a, b - a);
        assert(0real <= part <= 1real) by (nonlinear_arith)
            requires
                part == u / v,
                0real <= u <= v,
                v > 0real,
        ;
        let w = p.over(q);
        some_values();
        zero_is_zero();
        let (one, zero) = (Real { bits: ONE }, Real { bits: ZERO });
        order_is_that_of_values(zero, w);
        order_is_that_of_values(w, one);
        magnitude_by_parts(w.bits);
        near_minus(one, 1real, 0real, w, part, 5real * t, 6real * t);
        slack_is_small(0real, 0real);
        negated_value(w);
        sum_keeps_sides(one, w.negated(), one);
        sum_keeps_sides(one, w.negated(), zero);
    } else {
        assert(i < 7);
        shared_from(h, i + 1);
    }
}

} // verus!
