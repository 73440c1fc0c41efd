//! Fitting to an aspect ratio comes to rest.
use vstd::arithmetic::power2::*;
use vstd::prelude::*;

use crate::binary::Real;
use crate::exact::{product_by_one, quotient_by_itself, quotient_by_one};
use crate::float::Width;
use crate::nearness::slack_is_small;
use crate::number::ONE;
use crate::pixel_ops::{
    bounded_step, fitted, fitted_from, fitting_again_changes_nothing, length_of,
    length_or_none, real_of, rests,
};
use crate::recipe::CropMode;
use crate::tangents::is_positive;
use crate::thresholds::{product_reaches, quotient_reaches};
use crate::value::{
    order_is_by_value, power, power_adds, product_rounds, quotient_rounds, size, slack, value,
    wholes_are_themselves,
};
use crate::whole_steps::round_goes_up;
use crate::wholes::wholes_are_in_order;

verus! {

/// One part in 2^52.
pub open spec fn hair() -> real {
    1real / 4503599627370496real
}

/// A ratio of two sides.
pub open spec fn is_target(t: Real) -> bool {
    &&& is_positive(t)
    &&& value(t) * 17179869184real >= 1real
    &&& value(t) <= 17179869184real
}

/// Rounding moves a value that is not tiny by less than a hair of it.
proof fn slack_is_a_hair(x: real)
    requires
        x * 68719476736real >= 1real,
    ensures
        0real <= slack(x) <= x * hair(),
        power(60) == 1152921504606846976real,
{
    slack_is_small(0real, 0real);
    lemma2_to64_rest();
    power_adds(60, 60);
    lemma_pow2_strictly_increases(120, 1074);
    let (p, q, r) = (power(53), power(1074), power(120));
    assert(p == 9007199254740992real);
    assert(1real / q <= 1real / r) by (nonlinear_arith)
        requires
            q > r,
            r > 0real,
    ;
    assert(0real <= 1real / q) by (nonlinear_arith)
        requires
            q > 0real,
    ;
    assert(1real / r == 1real / 1329227995784915872903807060280344576real);
    assert(x > 0real);
    let e = hair();
    assert(x * e == 2real * (x / p)) by (nonlinear_arith)
        requires
            p == 9007199254740992real,
            e == 1real / 4503599627370496real,
    ;
    assert(x / p >= 1real / 1329227995784915872903807060280344576real) by (nonlinear_arith)
        requires
            p == 9007199254740992real,
            x * 68719476736real >= 1real,
    ;
}

/// A length is the nearest whole number, where there is one in range.
proof fn length_is(v: Real)
    requires
        is_positive(v),
    ensures
        ({
            let n = length_or_none(v);
            &&& n >= 1
            &&& n > 1 ==> value(v) >= n as real - 1real / 2real
            &&& n < 0xFFFF_FFFF ==> value(v) < n as real + 1real / 2real
        }),
{
    let n = round_goes_up(v);
}

/// The width for a height.
pub open spec fn width_for(b: u32, t: Real) -> u32 {
    length_or_none(real_of(b).times(t))
}

/// The height for a width.
spec fn height_for(a: u32, t: Real) -> u32 {
    length_or_none(real_of(a).over(t))
}

/// A width is the nearest whole number to the height times the ratio, but for a hair.
pub proof fn width_is(b: u32, t: Real)
    requires
        b >= 1,
        is_target(t),
    ensures
        ({
            let n = width_for(b, t);
            let x = b as real * value(t);
            &&& n == length_of(real_of(b).times(t))
            &&& n >= 1
            &&& n > 1 ==> x * (1real + hair()) >= n as real - 1real / 2real
            &&& n < 0xFFFF_FFFF ==> x < n as real + 1real / 2real
        }),
{
    let n = width_for(b, t);
    let (y, v) = (b as real, value(t));
    let x = y * v;
    wholes_are_themselves(b as nat);
    assert(x >= v) by (nonlinear_arith)
        requires
            x == y * v,
            y >= 1real,
            v >= 0real,
    ;
    slack_is_a_hair(x);
    product_rounds(real_of(b), t);
    let p = real_of(b).times(t);
    assert(size(x) == x);
    length_is(p);
    assert(x * (1real + hair()) == x + x * hair()) by (nonlinear_arith);
    if n < 0xFFFF_FFFF && x >= n as real + 1real / 2real {
        product_reaches(b, t, n as nat);
    }
}

proof fn height_is(a: u32, t: Real)
    requires
        a >= 1,
        is_target(t),
    ensures
        ({
            let n = height_for(a, t);
            let (x, v) = (a as real, value(t));
            &&& n >= 1
            &&& n > 1 ==> x * (1real + hair()) >= (n as real - 1real / 2real) * v
            &&& n < 0xFFFF_FFFF ==> x < (n as real + 1real / 2real) * v
        }),
{
    let n = height_for(a, t);
    let (x, v) = (a as real, value(t));
    let r = x / v;
    wholes_are_themselves(a as nat);
    assert(v > 0real);
    assert(r * v == x) by (nonlinear_arith)
        requires
            r == x / v,
            v > 0real,
    ;
    assert(r * 17179869184real >= 1real) by (nonlinear_arith)
        requires
            r * v == x,
            x >= 1real,
            0real < v <= 17179869184real,
    ;
    slack_is_a_hair(r);
    assert(v * 1152921504606846976real >= 1real);
    quotient_rounds(real_of(a), t);
    let p = real_of(a).over(t);
    length_is(p);
    if n > 1 {
        let m = n as real - 1real / 2real;
        let h = 1real + hair();
        assert(r * h == r + r * hair()) by (nonlinear_arith)
            requires
                h == 1real + hair(),
        ;
        assert(r * h * v >= m * v) by (nonlinear_arith)
            requires
                r * h >= m,
                v > 0real,
        ;
        assert(r * h * v == r * v * h) by (nonlinear_arith);
    }
    if n < 0xFFFF_FFFF && x >= (n as real + 1real / 2real) * v {
        quotient_reaches(a, t, n as nat);
    }
}

/// Whether an image is wider than the ratio, but for a hair.
proof fn wide_is(a: u32, b: u32, t: Real)
    requires
        a >= 1,
        b >= 1,
        is_target(t),
    ensures
        ({
            let (x, y, v) = (a as real, b as real, value(t));
            if t.below(real_of(a).over(real_of(b))) {
                y * v <= x * (1real + hair())
            } else {
                x * (1real - hair()) <= y * v
            }
        }),
{
    let (x, y, v) = (a as real, b as real, value(t));
    wholes_are_themselves(a as nat);
    wholes_are_themselves(b as nat);
    let r = x / y;
    assert(r * y == x) by (nonlinear_arith)
        requires
            r == x / y,
            y >= 1real,
    ;
    assert(r * 68719476736real >= 1real) by (nonlinear_arith)
        requires
            r * y == x,
            x >= 1real,
            1real <= y <= 68719476736real,
    ;
    slack_is_a_hair(r);
    quotient_rounds(real_of(a), real_of(b));
    let q = real_of(a).over(real_of(b));
    order_is_by_value(t, q);
    let (e, up, down) = (hair(), 1real + hair(), 1real - hair());
    assert(r * up == r + r * e && r * down == r - r * e) by (nonlinear_arith)
        requires
            up == 1real + e,
            down == 1real - e,
    ;
    if t.below(q) {
        assert(v * y <= r * up * y) by (nonlinear_arith)
            requires
                v <= r * up,
                y >= 1real,
        ;
        assert(r * up * y == r * y * up) by (nonlinear_arith);
        assert(v * y == y * v) by (nonlinear_arith);
    } else {
        assert(r * down * y <= v * y) by (nonlinear_arith)
            requires
                r * down <= v,
                y >= 1real,
        ;
        assert(r * down * y == r * y * down) by (nonlinear_arith);
        assert(v * y == y * v) by (nonlinear_arith);
    }
}

/// A ratio of whole numbers is one to aim for.
pub proof fn target_is(p: u32, q: u32)
    requires
        p >= 1,
        q >= 1,
    ensures
        ({
            let t = real_of(p).over(real_of(q));
            let (x, y, v) = (p as real, q as real, value(t));
            &&& is_target(t)
            &&& x * (1real - hair()) <= y * v <= x * (1real + hair())
        }),
{
    let (x, y) = (p as real, q as real);
    wholes_are_themselves(p as nat);
    wholes_are_themselves(q as nat);
    let t = real_of(p).over(real_of(q));
    let r = x / y;
    assert(r * y == x) by (nonlinear_arith)
        requires
            r == x / y,
            y >= 1real,
    ;
    assert(r * 4294967296real >= 1real) by (nonlinear_arith)
        requires
            r * y == x,
            x >= 1real,
            1real <= y <= 4294967296real,
    ;
    assert(r <= 4294967296real) by (nonlinear_arith)
        requires
            r * y == x,
            x <= 4294967296real,
            y >= 1real,
            r >= 0real,
    ;
    slack_is_a_hair(r);
    quotient_rounds(real_of(p), real_of(q));
    let (v, e, up, down) = (value(t), hair(), 1real + hair(), 1real - hair());
    assert(r * up == r + r * e && r * down == r - r * e) by (nonlinear_arith)
        requires
            up == 1real + e,
            down == 1real - e,
    ;
    assert(r * down * y <= v * y <= r * up * y) by (nonlinear_arith)
        requires
            r * down <= v <= r * up,
            y >= 1real,
    ;
    assert(r * up * y == r * y * up) by (nonlinear_arith);
    assert(r * down * y == r * y * down) by (nonlinear_arith);
    assert(v * y == y * v) by (nonlinear_arith);
}

/// A larger multiple is larger.
pub proof fn multiples_keep_order(i: real, j: real, v: real)
    requires
        i <= j,
        v >= 0real,
    ensures
        i * v <= j * v,
{
    assert(i * v <= j * v) by (nonlinear_arith)
        requires
            i <= j,
            v >= 0real,
    ;
}

/// `x` with a hair more, or less.
pub proof fn by_a_hair(x: real)
    requires
        0real <= x <= 17179869184real,
    ensures
        x * (1real + hair()) == x + x * hair(),
        x * (1real - hair()) == x - x * hair(),
        0real <= x * hair() <= 1real / 100000real,
{
    let e = hair();
    assert(x * (1real + e) == x + x * e && x * (1real - e) == x - x * e) by (nonlinear_arith);
    assert(0real <= x * e <= 1real / 100000real) by (nonlinear_arith)
        requires
            0real <= x <= 17179869184real,
            e == 1real / 4503599627370496real,
    ;
}

proof fn halves(n: real, v: real)
    ensures
        (n + 1real / 2real) * v == n * v + v / 2real,
        (n - 1real / 2real) * v == n * v - v / 2real,
        (n + 1real) * v == n * v + v,
{
    assert((n + 1real / 2real) * v == n * v + v / 2real) by (nonlinear_arith);
    assert((n - 1real / 2real) * v == n * v - v / 2real) by (nonlinear_arith);
    assert((n + 1real) * v == n * v + v) by (nonlinear_arith);
}

/// A cut that made the height shorter leaves the width as it is.
proof fn cut_keeps_width(h: u32, w1: u32, h1: u32, t: Real)
    requires
        h >= 1,
        is_target(t),
        w1 == width_for(h, t),
        w1 < 0xFFFF_FFFF,
        h1 == height_for(w1, t),
        h1 < h,
        t.below(real_of(w1).over(real_of(h1))),
    ensures
        width_for(h1, t) == w1,
{
    width_is(h, t);
    height_is(w1, t);
    width_is(h1, t);
    wide_is(w1, h1, t);
    let (v, a, b, c) = (value(t), w1 as real, h1 as real, h as real);
    let n = width_for(h1, t);
    halves(b, v);
    halves(c, v);
    multiples_keep_order(b + 1real, c, v);
    let x = b * v;
    // The ratio is below one.
    assert(a < x + v / 2real);
    assert(c * v < a + 1real / 2real);
    assert(v < 1real);
    by_a_hair(a);
    by_a_hair(x);
    if n < w1 {
        assert(x < n as real + 1real / 2real);
    }
    if n > w1 {
        assert(x * (1real + hair()) >= n as real - 1real / 2real);
    }
}

/// A cut that made the width shorter leaves the height as it is.
proof fn cut_keeps_height(w: u32, w1: u32, h1: u32, t: Real)
    requires
        w >= 1,
        is_target(t),
        h1 == height_for(w, t),
        h1 < 0xFFFF_FFFF,
        w1 == width_for(h1, t),
        w1 < w,
        !t.below(real_of(w1).over(real_of(h1))),
    ensures
        height_for(w1, t) == h1,
{
    height_is(w, t);
    width_is(h1, t);
    height_is(w1, t);
    wide_is(w1, h1, t);
    let (v, a, b, c) = (value(t), w1 as real, h1 as real, w as real);
    let n = height_for(w1, t);
    let m = n as real;
    halves(b, v);
    halves(m, v);
    let x = b * v;
    by_a_hair(a);
    if n < h1 {
        multiples_keep_order(m + 1real, b, v);
        assert(false);
    }
    if n > h1 {
        multiples_keep_order(b + 1real, m, v);
        let e = hair();
        assert(a + a * e >= x + v / 2real);
        assert(a - a * e <= x);
        // The height would be of a size that no side has.
        assert(2real * (a * e) >= v / 2real);
        assert(a <= 2real * x) by {
            assert(a * e <= a / 2real) by (nonlinear_arith)
                requires
                    a >= 1real,
                    e == 1real / 4503599627370496real,
            ;
        }
        assert(8real * (b * e) < 1real) by (nonlinear_arith)
            requires
                0real <= b <= 4294967296real,
                e == 1real / 4503599627370496real,
        ;
        assert(a * e <= 2real * (b * e) * v) by (nonlinear_arith)
            requires
                a <= 2real * (b * v),
                e == 1real / 4503599627370496real,
        ;
        let g = 8real * (b * e);
        assert(g * v < v) by (nonlinear_arith)
            requires
                g < 1real,
                v > 0real,
        ;
        assert(2real * (b * e) * v == g * v / 4real) by (nonlinear_arith)
            requires
                g == 8real * (b * e),
        ;
    }
}

/// A cut comes to rest after two steps.
proof fn cuts_come_to_rest(w: u32, h: u32, t: Real)
    requires
        w >= 1,
        h >= 1,
        is_target(t),
    ensures
        ({
            let one = bounded_step(w, h, (w, h), t, CropMode::Crop);
            let two = bounded_step(w, h, one, t, CropMode::Crop);
            bounded_step(w, h, two, t, CropMode::Crop) == two
        }),
{
    let one = bounded_step(w, h, (w, h), t, CropMode::Crop);
    let two = bounded_step(w, h, one, t, CropMode::Crop);
    width_is(h, t);
    height_is(w, t);
    if one != (w, h) && two != one {
        width_is(one.1, t);
        height_is(one.0, t);
        if t.below(real_of(w).over(real_of(h))) {
            if t.below(real_of(two.0).over(real_of(two.1))) {
                cut_keeps_width(h, two.0, two.1, t);
            }
        } else {
            if !t.below(real_of(two.0).over(real_of(two.1))) {
                cut_keeps_height(w, two.0, two.1, t);
            }
        }
    }
}

/// A ratio that is not so near to one that rounding can tell on a side.
spec fn is_clear(v: real, side: real) -> bool {
    v >= 1real + 16real * (side * hair()) || v <= 1real - 16real * (side * hair())
}

/// A pad that made the width longer leaves the height as it is.
proof fn pad_keeps_height(w: u32, h: u32, w1: u32, h1: u32, t: Real)
    requires
        w >= 1,
        h >= 1,
        is_target(t),
        is_clear(value(t), w as real),
        t.below(real_of(w).over(real_of(h))),
        h1 == height_for(w, t),
        h1 > h,
        w1 == width_for(h1, t),
        w1 > w,
        t.below(real_of(w1).over(real_of(h1))),
    ensures
        height_for(w1, t) == h1,
{
    wide_is(w, h, t);
    height_is(w, t);
    width_is(h1, t);
    height_is(w1, t);
    wide_is(w1, h1, t);
    let (v, a, b, c, e) = (value(t), w1 as real, h1 as real, w as real, hair());
    let n = height_for(w1, t);
    let m = n as real;
    let x = b * v;
    halves(b, v);
    halves(m, v);
    by_a_hair(c);
    by_a_hair(a);
    multiples_keep_order(1real, h as real, v);
    assert(1real * v == v);
    assert(v <= c + c * e);
    assert(x <= 2real * c);
    by_a_hair(x);
    multiples_keep_order(x, 2real * c, e);
    assert(2real * c * e == 2real * (c * e)) by (nonlinear_arith);
    assert(v >= 1real - 6real * (c * e));
    assert(c * e >= e) by (nonlinear_arith)
        requires
            c >= 1real,
            e >= 0real,
    ;
    assert(v >= 1real + 16real * (c * e));
    if n > h1 {
        multiples_keep_order(b + 1real, m, v);
        assert(a + a * e >= x + v / 2real);
        assert(a <= x + x * e + 1real / 2real);
        multiples_keep_order(a, x + x * e + 1real / 2real, e);
        assert((x + x * e + 1real / 2real) * e == x * e + (x * e) * e + e / 2real)
            by (nonlinear_arith);
        assert((x * e) * e <= x * e) by (nonlinear_arith)
            requires
                x * e >= 0real,
                0real <= e <= 1real,
        ;
        assert(false);
    }
    if n < h1 {
        multiples_keep_order(m + 1real, b, v);
        assert(a < x - v / 2real);
        assert(x <= a + a * e);
        assert(false);
    }
}

/// A pad that made the height longer leaves the width as it is.
proof fn pad_keeps_width(w: u32, h: u32, w1: u32, h1: u32, t: Real)
    requires
        w >= 1,
        h >= 1,
        is_target(t),
        is_clear(value(t), h as real),
        w1 == width_for(h, t),
        w1 > w,
        h1 == height_for(w1, t),
        h1 > h,
        !t.below(real_of(w1).over(real_of(h1))),
    ensures
        width_for(h1, t) == w1,
{
    width_is(h, t);
    height_is(w1, t);
    width_is(h1, t);
    wide_is(w1, h1, t);
    let (v, a, b, c, e) = (value(t), w1 as real, h1 as real, h as real, hair());
    let n = width_for(h1, t);
    let m = n as real;
    let (x, y) = (b * v, c * v);
    halves(b, v);
    halves(c, v);
    multiples_keep_order(c + 1real, b, v);
    by_a_hair(a);
    assert(y <= 17179869184real);
    assert(y >= 0real) by (nonlinear_arith)
        requires
            y == c * v,
            c >= 0real,
            v >= 0real,
    ;
    by_a_hair(y);
    by_a_hair(c);
    assert(a + a * e >= y + v / 2real);
    assert(a <= y + y * e + 1real / 2real);
    assert(v <= 11real / 10real);
    // The ratio is not above one.
    multiples_keep_order(v, 11real / 10real, c);
    assert(v * c == c * v) by (nonlinear_arith);
    assert(y <= 2real * c);
    multiples_keep_order(y, 2real * c, e);
    assert(2real * c * e == 2real * (c * e)) by (nonlinear_arith);
    multiples_keep_order(a, y + y * e + 1real / 2real, e);
    assert((y + y * e + 1real / 2real) * e == y * e + (y * e) * e + e / 2real) by (nonlinear_arith);
    assert(0real <= (y * e) * e <= y * e) by (nonlinear_arith)
        requires
            y * e >= 0real,
            0real <= e <= 1real,
    ;
    assert(c * e >= e) by (nonlinear_arith)
        requires
            c >= 1real,
            e >= 0real,
    ;
    assert(v <= 1real - 16real * (c * e));
    if n > w1 {
        assert(x <= a + a * e + v / 2real);
        by_a_hair(x);
        assert(x + x * e >= a + 1real / 2real);
        multiples_keep_order(x, a + a * e + v / 2real, e);
        assert((a + a * e + v / 2real) * e == a * e + (a * e) * e + v * e / 2real)
            by (nonlinear_arith);
        assert((a * e) * e <= a * e) by (nonlinear_arith)
            requires
                a * e >= 0real,
                0real <= e <= 1real,
        ;
        assert(v * e <= e) by (nonlinear_arith)
            requires
                v <= 1real,
                e >= 0real,
        ;
        assert(a * e <= 3real * (c * e) + e);
        assert(false);
    }
}

/// A pad to a ratio that is clear of one comes to rest after two steps.
proof fn pads_come_to_rest(w: u32, h: u32, t: Real)
    requires
        w >= 1,
        h >= 1,
        is_target(t),
        is_clear(value(t), w as real),
        is_clear(value(t), h as real),
    ensures
        ({
            let one = bounded_step(w, h, (w, h), t, CropMode::Pad);
            let two = bounded_step(w, h, one, t, CropMode::Pad);
            bounded_step(w, h, two, t, CropMode::Pad) == two
        }),
{
    let one = bounded_step(w, h, (w, h), t, CropMode::Pad);
    let two = bounded_step(w, h, one, t, CropMode::Pad);
    if one != (w, h) && two != one {
        if t.below(real_of(w).over(real_of(h))) {
            if t.below(real_of(two.0).over(real_of(two.1))) {
                pad_keeps_height(w, h, two.0, two.1, t);
            }
        } else {
            if !t.below(real_of(two.0).over(real_of(two.1))) {
                pad_keeps_width(w, h, two.0, two.1, t);
            }
        }
    }
}

/// Padding to a square comes to rest after a step.
proof fn squares_come_to_rest(w: u32, h: u32, n: u32)
    requires
        w >= 1,
        h >= 1,
        n >= 1,
    ensures
        ({
            let t = real_of(n).over(real_of(n));
            let one = bounded_step(w, h, (w, h), t, CropMode::Pad);
            let two = bounded_step(w, h, one, t, CropMode::Pad);
            bounded_step(w, h, two, t, CropMode::Pad) == two
        }),
{
    let t = real_of(n).over(real_of(n));
    let one = bounded_step(w, h, (w, h), t, CropMode::Pad);
    wholes_are_in_order(n as nat, n as nat);
    assert(t == (Real { bits: ONE })) by {
        reveal(Real::spec_over);
        quotient_by_itself(Width::Double, real_of(n).bits);
    }
    sides_of_a_square(w);
    sides_of_a_square(h);
}

proof fn sides_of_a_square(b: u32)
    requires
        b >= 1,
    ensures
        width_for(b, Real { bits: ONE }) == b,
        height_for(b, Real { bits: ONE }) == b,
{
    wholes_are_themselves(b as nat);
    let v = real_of(b);
    assert(v.times(Real { bits: ONE }) == v) by {
        reveal(Real::spec_times);
        product_by_one(Width::Double, v.bits);
    }
    assert(v.over(Real { bits: ONE }) == v) by {
        reveal(Real::spec_over);
        quotient_by_one(Width::Double, v.bits);
    }
    length_is(v);
}

/// A ratio is that of a square, or so far from it that the rounding of binary64 numbers cannot
/// take it for one on a side of this length. Where the two numbers of a ratio are below 2^15
/// this holds of every length.
pub open spec fn tells_apart(ratio: (u32, u32), side: u32) -> bool {
    let gap = if ratio.0 > ratio.1 {
        ratio.0 - ratio.1
    } else {
        ratio.1 - ratio.0
    };
    gap == 0 || gap * 0x8000_0000_0000 >= side * ratio.1
}

/// Ratios of small numbers are told apart on every side.
pub proof fn small_ratios_are_told_apart(ratio: (u32, u32), side: u32)
    requires
        ratio.1 <= 0x8000,
    ensures
        tells_apart(ratio, side),
{
    assert(side * ratio.1 <= 0x8000_0000_0000) by (nonlinear_arith)
        requires
            side <= 0xFFFF_FFFF,
            ratio.1 <= 0x8000,
    ;
}

/// What is told apart is clear of one.
proof fn apart_is_clear(p: u32, q: u32, side: u32)
    requires
        p >= 1,
        q >= 1,
        p != q,
        side >= 1,
        tells_apart((p, q), side),
    ensures
        is_clear(value(real_of(p).over(real_of(q))), side as real),
{
    target_is(p, q);
    let (x, y, s, e) = (p as real, q as real, side as real, hair());
    let v = value(real_of(p).over(real_of(q)));
    let d = if p > q {
        (p - q) as real
    } else {
        (q - p) as real
    };
    let sy = side * q;
    assert(sy as real == s * y) by (nonlinear_arith)
        requires
            sy == side * q,
            s == side as real,
            y == q as real,
    ;
    let k = s * e;
    assert(d >= 32real * (k * y)) by (nonlinear_arith)
        requires
            d * 140737488355328real >= s * y,
            k == s * e,
            e == 1real / 4503599627370496real,
    ;
    by_a_hair(x);
    by_a_hair(y);
    by_a_hair(d);
    assert(k >= e) by (nonlinear_arith)
        requires
            k == s * e,
            s >= 1real,
            e >= 0real,
    ;
    multiples_keep_order(e, k, y);
    assert(e * y == y * e) by (nonlinear_arith);
    assert(x * e <= y * e + d * e) by (nonlinear_arith)
        requires
            x <= y + d,
            e >= 0real,
    ;
    assert(d * e <= d / 32real) by (nonlinear_arith)
        requires
            d >= 0real,
            e == 1real / 4503599627370496real,
    ;
    let g = 16real * k;
    assert(g * y == 16real * (k * y)) by (nonlinear_arith)
        requires
            g == 16real * k,
    ;
    if p > q {
        assert(y * v >= y + g * y);
        assert(v >= 1real + g) by (nonlinear_arith)
            requires
                y * v >= y + g * y,
                y >= 1real,
        ;
    } else {
        assert(y * v <= y - g * y);
        assert(v <= 1real - g) by (nonlinear_arith)
            requires
                y * v <= y - g * y,
                y >= 1real,
        ;
    }
}

/// Cutting or padding to an aspect ratio comes to rest: one step more would change nothing.
/// A pad needs a ratio that is told apart from that of a square on both sides: padding
/// 1601619594 by 1601619594 to 3203239185:3203239188 is still growing after eight steps.
pub proof fn fitting_comes_to_rest(w: u32, h: u32, ratio: (u32, u32), mode: CropMode)
    requires
        w >= 1,
        h >= 1,
        ratio.0 >= 1,
        ratio.1 >= 1,
        mode == CropMode::Pad ==> tells_apart(ratio, w) && tells_apart(ratio, h),
    ensures
        rests(w, h, ratio, mode),
{
    let t = real_of(ratio.0).over(real_of(ratio.1));
    target_is(ratio.0, ratio.1);
    match mode {
        CropMode::Crop => {
            cuts_come_to_rest(w, h, t);
        },
        CropMode::Pad => {
            if ratio.0 == ratio.1 {
                squares_come_to_rest(w, h, ratio.0);
            } else {
                apart_is_clear(ratio.0, ratio.1, w);
                apart_is_clear(ratio.0, ratio.1, h);
                pads_come_to_rest(w, h, t);
            }
        },
    }
    reveal_with_fuel(fitted_from, 4);
}

/// A cut leaves at least one pixel and adds none; a pad takes none away.
pub proof fn fitting_stays_in_bounds(w: u32, h: u32, ratio: (u32, u32), mode: CropMode)
    requires
        w >= 1,
        h >= 1,
        ratio.0 >= 1,
        ratio.1 >= 1,
    ensures
        ({
            let size = fitted(w, h, ratio, mode);
            &&& mode == CropMode::Crop ==> 1 <= size.0 <= w && 1 <= size.1 <= h
            &&& mode == CropMode::Pad ==> size.0 >= w && size.1 >= h
        }),
{
    target_is(ratio.0, ratio.1);
    steps_stay_in_bounds(w, h, (w, h), real_of(ratio.0).over(real_of(ratio.1)), mode, 8);
}

proof fn steps_stay_in_bounds(
    w: u32,
    h: u32,
    from: (u32, u32),
    t: Real,
    mode: CropMode,
    n: nat,
)
    requires
        w >= 1,
        h >= 1,
        from.0 >= 1,
        from.1 >= 1,
        mode == CropMode::Crop ==> from.0 <= w && from.1 <= h,
        mode == CropMode::Pad ==> from.0 >= w && from.1 >= h,
        is_target(t),
    ensures
        ({
            let size = fitted_from(w, h, from, t, mode, n);
            &&& mode == CropMode::Crop ==> 1 <= size.0 <= w && 1 <= size.1 <= h
            &&& mode == CropMode::Pad ==> size.0 >= w && size.1 >= h
        }),
    decreases n,
{
    if n > 0 {
        width_is(from.1, t);
        height_is(from.0, t);
        let next = bounded_step(w, h, from, t, mode);
        steps_stay_in_bounds(w, h, next, t, mode, (n - 1) as nat);
    }
}

/// Fitting twice to an aspect ratio is fitting once. A pad needs a ratio that is told apart
/// from that of a square on both sides, or to have come to rest all the same.
pub proof fn fitting_twice_is_fitting_once(w: u32, h: u32, ratio: (u32, u32), mode: CropMode)
    requires
        w >= 1,
        h >= 1,
        ratio.0 >= 1,
        ratio.1 >= 1,
        mode == CropMode::Pad ==> (tells_apart(ratio, w) && tells_apart(ratio, h)) || rests(
            w,
            h,
            ratio,
            mode,
        ),
    ensures
        ({
            let size = fitted(w, h, ratio, mode);
            fitted(size.0, size.1, ratio, mode) == size
        }),
{
    if !rests(w, h, ratio, mode) {
        fitting_comes_to_rest(w, h, ratio, mode);
    }
    fitting_again_changes_nothing(w, h, ratio, mode);
}

} // verus!
