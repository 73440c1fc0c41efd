//! The sliders of a colour band over the real numbers.
use vstd::arithmetic::power2::*;
use vstd::prelude::*;

use crate::binary::Real;
use crate::exact::{formats, is_number, parts_of, product_by_zero};
use crate::float::{negative, significand, unsigned, zero, Width};
use crate::nearness::{near, slack_is_small};
use crate::number::{HALF, HUNDRED, ONE, ZERO};
use crate::ops::hsl::{mixed, shifted, Hsl, Shift, FACTOR_MIN, HUE_DEGREES_PER_UNIT};
use crate::ordering::{clamped_value, kept_within, order_is_that_of_values};
use crate::percentiles::{digits, half_value};
use crate::sides::{product_keeps_sides, sum_keeps_sides};
use crate::tolerance::{near_by, near_over, near_plus, trace};
use crate::units::units;
use crate::value::{
    magnitude_by_parts, modest, power, product_rounds, quotient_rounds, share_values, some_values,
    value, zero_is_zero,
};

verus! {

/// Two sliders, each by its weight.
pub open spec fn mix(wi: Real, a: Real, wj: Real, b: Real) -> real {
    value(wi) * value(a) + value(wj) * value(b)
}

/// A number from 0 to 1.
pub open spec fn is_share(v: Real) -> bool {
    is_number(v) && 0real <= value(v) <= 1real
}

/// The sliders of a band are numbers from -100 to 100.
pub open spec fn are_sliders(s: Shift) -> bool {
    &&& is_number(s.hue) && -100real <= value(s.hue) <= 100real
    &&& is_number(s.saturation) && -100real <= value(s.saturation) <= 100real
    &&& is_number(s.luminance) && -100real <= value(s.luminance) <= 100real
}

/// A part from 0 to 1 that is made larger or smaller by a share of itself: at least a
/// twentieth of it stays, and it is at most doubled and never above 1.
pub open spec fn made_more(part: real, by: real) -> real {
    kept_within(part * (1real + kept_within(by, -(95real / 100real), 1real)), 0real, 1real)
}

/// The constants.
proof fn constants()
    ensures
        near(Real { bits: HUE_DEGREES_PER_UNIT }, 3real / 10real, trace()),
        value(Real { bits: HUE_DEGREES_PER_UNIT }) >= 0real,
        near(Real { bits: FACTOR_MIN }, -(95real / 100real), trace()),
        value(Real { bits: FACTOR_MIN }) <= 0real,
{
    let w = Width::Double;
    formats(w);
    lemma2_to64();
    lemma2_to64_rest();
    assert(power(53) == 9007199254740992real && power(54) == 18014398509481984real);
    digits(HUE_DEGREES_PER_UNIT, 0x13_3333_3333_3333, 54);
    let low: u64 = 0x3FEE_6666_6666_6666;
    digits(low, 0x1E_6666_6666_6666, 53);
    assert(value(Real { bits: low }) == 8556839292003942real / 9007199254740992real);
    assert(unsigned(w, FACTOR_MIN) == unsigned(w, low));
    assert(units(w, FACTOR_MIN) == units(w, low));
    assert(negative(w, FACTOR_MIN));
}

proof fn sizes(w: real, s: real)
    requires
        0real <= w <= 1real,
        -100real <= s <= 100real,
    ensures
        -100real <= w * s <= 100real,
{
    assert(-100real <= w * s <= 100real) by (nonlinear_arith)
        requires
            0real <= w <= 1real,
            -100real <= s <= 100real,
    ;
}

/// A mean of two sliders is near the one over the real numbers.
proof fn mixed_is_near(wi: Real, a: Real, wj: Real, b: Real)
    requires
        is_share(wi),
        is_share(wj),
        is_number(a) && -100real <= value(a) <= 100real,
        is_number(b) && -100real <= value(b) <= 100real,
    ensures
        near(mixed(wi, a, wj, b), mix(wi, a, wj, b), 3real * trace()),
        -200real <= mix(wi, a, wj, b) <= 200real,
{
    let (x, y) = (value(wi) * value(a), value(wj) * value(b));
    sizes(value(wi), value(a));
    sizes(value(wj), value(b));
    near_by(wi, value(wi), 0real, 1real, a, value(a), 0real, 100real, trace());
    near_by(wj, value(wj), 0real, 1real, b, value(b), 0real, 100real, trace());
    near_plus(wi.times(a), x, trace(), wj.times(b), y, trace(), 3real * trace());
}

/// Making a part larger or smaller.
proof fn made_more_is_near(part: Real, v: Real, by: real, e: real)
    requires
        is_share(part),
        near(v, by, e),
        0real <= e <= 1real / 1000000real,
    ensures
        ({
            let one = Real { bits: ONE };
            let f = v.clamped(Real { bits: FACTOR_MIN }, one);
            let r = part.times(one.plus(f)).clamped(Real { bits: ZERO }, one);
            &&& near(r, made_more(value(part), by), e + 3real * trace())
            &&& is_share(r)
            &&& value(v) <= 0real ==> value(r) <= value(part)
            &&& value(v) >= 0real ==> value(r) >= value(part)
        }),
{
    let (zero, one, low) = (Real { bits: ZERO }, Real { bits: ONE }, Real { bits: FACTOR_MIN });
    zero_is_zero();
    some_values();
    constants();
    let f = v.clamped(low, one);
    clamped_value(v, low, one);
    let c = kept_within(by, -(95real / 100real), 1real);
    assert(near(f, c, e + trace()));
    near_plus(one, 1real, 0real, f, c, e + trace(), e + 2real * trace());
    let g = one.plus(f);
    let s = value(part);
    let m = e + 2real * trace();
    near_by(part, s, 0real, 1real, g, 1real + c, m, 3real, e + 3real * trace());
    let p = part.times(g);
    clamped_value(p, zero, one);
    // The direction.
    slack_is_small(0real, 0real);
    assert(modest(one) && modest(f));
    sum_keeps_sides(one, f, one);
    assert(modest(part) && modest(g));
    let h = value(g);
    if value(v) <= 0real {
        assert(s * h <= s) by (nonlinear_arith)
            requires
                0real <= s,
                h <= 1real,
        ;
        product_keeps_sides(part, g, part);
    }
    if value(v) >= 0real {
        assert(s * h >= s) by (nonlinear_arith)
            requires
                0real <= s,
                h >= 1real,
        ;
        product_keeps_sides(part, g, part);
    }
}

/// A quotient or a product with a number above zero keeps the sign.
pub proof fn keeps_sign(v: Real, c: Real)
    requires
        modest(v),
        modest(c),
        value(c) >= 1real / 10real,
    ensures
        value(v) <= 0real ==> value(v.over(c)) <= 0real && value(v.times(c)) <= 0real,
        value(v) >= 0real ==> value(v.over(c)) >= 0real && value(v.times(c)) >= 0real,
{
    slack_is_small(0real, 0real);
    quotient_rounds(v, c);
    product_rounds(v, c);
    magnitude_by_parts(v.bits);
    magnitude_by_parts(c.bits);
    magnitude_by_parts(v.over(c).bits);
    magnitude_by_parts(v.times(c).bits);
    let (x, y) = (value(v), value(c));
    if x == 0real {
        let w = Width::Double;
        reveal(Real::spec_over);
        reveal(Real::spec_times);
        zero_is_zero();
        order_is_that_of_values(v, Real { bits: ZERO });
        order_is_that_of_values(c, Real { bits: ZERO });
        assert(zero(w, v.bits) && !zero(w, c.bits));
        product_by_zero(w, c.bits, v.bits);
        parts_of(w, v.bits);
        parts_of(w, c.bits);
        let d = significand(w, c.bits);
        assert(0nat * pow2(128) == 0) by (nonlinear_arith);
        assert(0nat / d == 0 && 0nat % d == 0) by (nonlinear_arith)
            requires
                d > 0,
        ;
        assert(zero(w, v.over(c).bits));
        order_is_that_of_values(v.over(c), Real { bits: ZERO });
        order_is_that_of_values(v.times(c), Real { bits: ZERO });
    }
}

/// What the sliders of two bands do to a colour, over the real numbers: hue moves by three
/// tenths of a degree for each step, saturation by a hundredth of itself and lightness by two
/// hundredths less; none is driven out of its range.
pub proof fn sliders_shift(at: Hsl, a: Shift, wi: Real, b: Shift, wj: Real)
    requires
        is_number(at.h) && 0real <= value(at.h) <= 360real,
        is_share(at.s),
        is_share(at.l),
        is_share(wi),
        is_share(wj),
        are_sliders(a),
        are_sliders(b),
    ensures
        ({
            let to = shifted(at, a, wi, b, wj);
            let e = 1real / 1000000000real;
            &&& near(
                to.h,
                value(at.h) + 3real / 10real * mix(wi, a.hue, wj, b.hue),
                e,
            )
            &&& near(
                to.s,
                made_more(
                    value(at.s),
                    mix(wi, a.saturation, wj, b.saturation) / 100real,
                ),
                e,
            )
            &&& near(
                to.l,
                made_more(value(at.l), mix(wi, a.luminance, wj, b.luminance) / 200real),
                e,
            )
            &&& is_share(to.s)
            &&& is_share(to.l)
        }),
{
    constants();
    share_values();
    half_value();
    let hundred = Real { bits: HUNDRED };
    let half = Real { bits: HALF };
    let t = trace();
    mixed_is_near(wi, a.hue, wj, b.hue);
    mixed_is_near(wi, a.saturation, wj, b.saturation);
    mixed_is_near(wi, a.luminance, wj, b.luminance);
    let (u, v, x) = (
        mix(wi, a.hue, wj, b.hue),
        mix(wi, a.saturation, wj, b.saturation),
        mix(wi, a.luminance, wj, b.luminance),
    );
    let per = Real { bits: HUE_DEGREES_PER_UNIT };
    let dh = mixed(wi, a.hue, wj, b.hue);
    near_by(dh, u, 3real * t, 201real, per, 3real / 10real, t, 1real, 205real * t);
    assert(u * (3real / 10real) == 3real / 10real * u) by (nonlinear_arith);
    near_plus(at.h, value(at.h), 0real, dh.times(per), 3real / 10real * u, 205real * t, 206real * t);
    let ms = mixed(wi, a.saturation, wj, b.saturation);
    near_over(ms, v, 3real * t, hundred, 100real, 0real, 1real, 2real, 7real * t);
    made_more_is_near(at.s, ms.over(hundred), v / 100real, 7real * t);
    let ml = mixed(wi, a.luminance, wj, b.luminance);
    near_over(ml, x, 3real * t, hundred, 100real, 0real, 1real, 2real, 7real * t);
    let y = x / 100real;
    near_by(ml.over(hundred), y, 7real * t, 3real, half, 1real / 2real, 0real, 1real, 8real * t);
    assert(y * (1real / 2real) == x / 200real) by (nonlinear_arith)
        requires
            y == x / 100real,
    ;
    made_more_is_near(at.l, ml.over(hundred).times(half), x / 200real, 8real * t);
}

/// Sliders that agree on a direction go that way: with none above zero, the hue does not move
/// up, and the colour becomes neither more saturated nor lighter; with none below zero, the
/// other way.
pub proof fn sliders_go_their_way(at: Hsl, a: Shift, wi: Real, b: Shift, wj: Real)
    requires
        is_number(at.h) && 0real <= value(at.h) <= 360real,
        is_share(at.s),
        is_share(at.l),
        is_share(wi),
        is_share(wj),
        are_sliders(a),
        are_sliders(b),
    ensures
        ({
            let to = shifted(at, a, wi, b, wj);
            &&& value(a.hue) <= 0real && value(b.hue) <= 0real ==> value(to.h) <= value(at.h)
            &&& value(a.hue) >= 0real && value(b.hue) >= 0real ==> value(to.h) >= value(at.h)
            &&& value(a.saturation) <= 0real && value(b.saturation) <= 0real ==> value(to.s)
                <= value(at.s)
            &&& value(a.saturation) >= 0real && value(b.saturation) >= 0real ==> value(to.s)
                >= value(at.s)
            &&& value(a.luminance) <= 0real && value(b.luminance) <= 0real ==> value(to.l)
                <= value(at.l)
            &&& value(a.luminance) >= 0real && value(b.luminance) >= 0real ==> value(to.l)
                >= value(at.l)
        }),
{
    mixture_goes_its_way(at, a, wi, b, wj);
    mixed_keeps_sign(wi, a.hue, wj, b.hue);
    mixed_keeps_sign(wi, a.saturation, wj, b.saturation);
    mixed_keeps_sign(wi, a.luminance, wj, b.luminance);
}

/// A mean of sliders that agree on a direction has it too.
proof fn mixed_keeps_sign(wi: Real, a: Real, wj: Real, b: Real)
    requires
        is_share(wi),
        is_share(wj),
        is_number(a) && -100real <= value(a) <= 100real,
        is_number(b) && -100real <= value(b) <= 100real,
    ensures
        value(a) <= 0real && value(b) <= 0real ==> value(mixed(wi, a, wj, b)) <= 0real,
        value(a) >= 0real && value(b) >= 0real ==> value(mixed(wi, a, wj, b)) >= 0real,
{
    slack_is_small(0real, 0real);
    share_keeps_sign(wi, a);
    share_keeps_sign(wj, b);
    zero_is_zero();
    sizes(value(wi), value(a));
    sizes(value(wj), value(b));
    let t = trace();
    near_by(wi, value(wi), 0real, 1real, a, value(a), 0real, 100real, t);
    near_by(wj, value(wj), 0real, 1real, b, value(b), 0real, 100real, t);
    sum_keeps_sides(wi.times(a), wj.times(b), Real { bits: ZERO });
}

/// A share of a number has its sign.
proof fn share_keeps_sign(w: Real, a: Real)
    requires
        is_share(w),
        is_number(a) && -100real <= value(a) <= 100real,
    ensures
        value(a) <= 0real ==> value(w.times(a)) <= 0real,
        value(a) >= 0real ==> value(w.times(a)) >= 0real,
{
    let d = Width::Double;
    slack_is_small(0real, 0real);
    zero_is_zero();
    let z = Real { bits: ZERO };
    if value(w) > 0real && value(a) != 0real {
        product_rounds(w, a);
        magnitude_by_parts(w.bits);
        magnitude_by_parts(a.bits);
        magnitude_by_parts(w.times(a).bits);
    } else {
        reveal(Real::spec_times);
        order_is_that_of_values(w, z);
        order_is_that_of_values(a, z);
        if zero(d, a.bits) {
            product_by_zero(d, w.bits, a.bits);
        } else {
            product_by_zero(d, a.bits, w.bits);
        }
        order_is_that_of_values(w.times(a), z);
    }
}

/// The mean of the sliders of two bands decides which way a colour goes: with one that is not
/// above zero its hue, saturation or lightness does not rise, and with one that is not below
/// zero it does not fall.
pub proof fn mixture_goes_its_way(at: Hsl, a: Shift, wi: Real, b: Shift, wj: Real)
    requires
        is_number(at.h) && 0real <= value(at.h) <= 360real,
        is_share(at.s),
        is_share(at.l),
        is_share(wi),
        is_share(wj),
        are_sliders(a),
        are_sliders(b),
    ensures
        ({
            let to = shifted(at, a, wi, b, wj);
            let h = value(mixed(wi, a.hue, wj, b.hue));
            let s = value(mixed(wi, a.saturation, wj, b.saturation));
            let l = value(mixed(wi, a.luminance, wj, b.luminance));
            &&& h <= 0real ==> value(to.h) <= value(at.h)
            &&& h >= 0real ==> value(to.h) >= value(at.h)
            &&& s <= 0real ==> value(to.s) <= value(at.s)
            &&& s >= 0real ==> value(to.s) >= value(at.s)
            &&& l <= 0real ==> value(to.l) <= value(at.l)
            &&& l >= 0real ==> value(to.l) >= value(at.l)
        }),
{
    constants();
    share_values();
    half_value();
    slack_is_small(0real, 0real);
    let hundred = Real { bits: HUNDRED };
    let half = Real { bits: HALF };
    let per = Real { bits: HUE_DEGREES_PER_UNIT };
    let t = trace();
    mixed_is_near(wi, a.hue, wj, b.hue);
    mixed_is_near(wi, a.saturation, wj, b.saturation);
    mixed_is_near(wi, a.luminance, wj, b.luminance);
    let (dh, ms, ml) = (
        mixed(wi, a.hue, wj, b.hue),
        mixed(wi, a.saturation, wj, b.saturation),
        mixed(wi, a.luminance, wj, b.luminance),
    );
    let (x, y, z) = (value(dh), value(ms), value(ml));
    keeps_sign(dh, per);
    near_by(dh, x, 0real, 201real, per, 3real / 10real, t, 1real, 205real * t);
    sum_keeps_sides(at.h, dh.times(per), at.h);
    keeps_sign(ms, hundred);
    near_over(ms, y, 0real, hundred, 100real, 0real, 1real, 3real, 7real * t);
    made_more_is_near(at.s, ms.over(hundred), y / 100real, 7real * t);
    keeps_sign(ml, hundred);
    near_over(ml, z, 0real, hundred, 100real, 0real, 1real, 3real, 7real * t);
    let q = ml.over(hundred);
    keeps_sign(q, half);
    near_by(q, z / 100real, 7real * t, 4real, half, 1real / 2real, 0real, 1real, 8real * t);
    made_more_is_near(at.l, q.times(half), z / 100real * (1real / 2real), 8real * t);
}

} // verus!
