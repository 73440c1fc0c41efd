//! Brightness, contrast and saturation over the real numbers.
use vstd::arithmetic::power2::*;
use vstd::prelude::*;

use crate::adjust::{
    luma, saturated, spread, tone_of, toned, Tone, CONTRAST_PIVOT, LUMA_BLUE, LUMA_GREEN, LUMA_RED,
};
use crate::binary::{Real, Real32};
use crate::blend_law::is_part;
use crate::exact::{self, formats};
use crate::float::Width;
use crate::number::{ONE, SHORT_ONE, SHORT_ZERO, ZERO};
use crate::ops::blend::in_unit;
use crate::ordering::{self, clamps_are_close, kept_within};
use crate::raster::Rgba32;
use crate::single::{is_number, value};
use crate::single_near::{
    clamped_value, digits, mote, near, near_by, near_minus, near_plus, short_values,
};
use crate::tolerance::{self, trace};
use crate::value::{self, power};
use crate::widths::narrowed_is_near;

verus! {

/// The value that contrast leaves where it is: that of the byte 128.
pub open spec fn middle_grey() -> real {
    128real / 255real
}

/// A channel made brighter, and its distance from the middle grey made larger.
pub open spec fn contrasted(v: real, brightness: real, contrast: real) -> real {
    middle_grey() + (1real + contrast) * (v + brightness - middle_grey())
}

/// The luma of a colour.
pub open spec fn luma_of(r: real, g: real, b: real) -> real {
    299real / 1000real * r + 587real / 1000real * g + 114real / 1000real * b
}

/// A channel with its distance from the luma made larger, kept from 0 to 1.
pub open spec fn enriched(v: real, luma: real, saturation: real) -> real {
    kept_within(luma + (1real + saturation) * (v - luma), 0real, 1real)
}

/// A slider from -1 to 1.
pub open spec fn is_slider(v: Real) -> bool {
    exact::is_number(v) && -1real <= value::value(v) <= 1real
}

proof fn constants()
    ensures
        near(Real32 { bits: CONTRAST_PIVOT }, middle_grey(), mote() / 10real),
        near(Real32 { bits: LUMA_RED }, 299real / 1000real, mote() / 10real),
        near(Real32 { bits: LUMA_GREEN }, 587real / 1000real, mote() / 10real),
        near(Real32 { bits: LUMA_BLUE }, 114real / 1000real, mote() / 10real),
{
    formats(Width::Single);
    lemma2_to64();
    assert(power(24) == 16777216real && power(25) == 33554432real && power(27) == 134217728real);
    digits(CONTRAST_PIVOT, 0x80_8081, 24);
    digits(LUMA_RED, 0x99_1687, 25);
    digits(LUMA_GREEN, 0x96_45A2, 24);
    digits(LUMA_BLUE, 0xE9_78D5, 27);
    assert(value(Real32 { bits: CONTRAST_PIVOT }) == 8421505real / 16777216real);
    assert(value(Real32 { bits: LUMA_RED }) == 10032775real / 33554432real);
    assert(value(Real32 { bits: LUMA_GREEN }) == 9848226real / 16777216real);
    assert(value(Real32 { bits: LUMA_BLUE }) == 15300821real / 134217728real);
}

/// A tone that stands for sliders.
spec fn stands_for(tone: Tone, b: real, c: real, s: real) -> bool {
    &&& near(tone.shift, b, 2real * mote())
    &&& near(tone.contrast, 1real + c, 2real * mote())
    &&& match tone.saturation {
        Some(k) => near(k, 1real + s, 2real * mote()),
        None => s == 0real,
    }
}

/// The tone of sliders stands for them.
proof fn tone_stands(brightness: Real, contrast: Real, saturation: Real)
    requires
        is_slider(brightness),
        is_slider(contrast),
        is_slider(saturation),
    ensures
        ({
            let (b, c, s) = (
                value::value(brightness),
                value::value(contrast),
                value::value(saturation),
            );
            match tone_of(brightness, contrast, saturation) {
                None => b == 0real && c == 0real && s == 0real,
                Some(tone) => stands_for(tone, b, c, s),
            }
        }),
{
    let (zero, one) = (Real { bits: ZERO }, Real { bits: ONE });
    value::zero_is_zero();
    value::some_values();
    ordering::order_is_that_of_values(brightness, zero);
    ordering::order_is_that_of_values(contrast, zero);
    ordering::order_is_that_of_values(saturation, zero);
    let (c, s) = (value::value(contrast), value::value(saturation));
    let t = trace();
    tolerance::near_plus(one, 1real, 0real, contrast, c, 0real, t);
    tolerance::near_plus(one, 1real, 0real, saturation, s, 0real, t);
    narrowed_is_near(brightness);
    narrowed_is_near(one.plus(contrast));
    narrowed_is_near(one.plus(saturation));
}

proof fn stretch_is_bounded(d: real, k: real, bound: real)
    requires
        0real <= k <= 2real,
        -bound <= d <= bound,
    ensures
        -(2real * bound) <= k * d <= 2real * bound,
{
    assert(-(2real * bound) <= k * d <= 2real * bound) by (nonlinear_arith)
        requires
            0real <= k <= 2real,
            -bound <= d <= bound,
    ;
}

/// A channel brightened and spread about the middle grey.
proof fn spread_is_near(v: Real32, tone: Tone, b: real, c: real, s: real)
    requires
        is_part(v),
        stands_for(tone, b, c, s),
        -1real <= b <= 1real,
        -1real <= c <= 1real,
    ensures
        near(spread(v, tone), contrasted(value(v), b, c), 16real * mote()),
        -(26real / 10real) <= contrasted(value(v), b, c) <= 36real / 10real,
{
    constants();
    let m = mote();
    let pivot = Real32 { bits: CONTRAST_PIVOT };
    let (x, p, k) = (value(v), middle_grey(), 1real + c);
    near_plus(v, x, 0real, tone.shift, b, 2real * m, 3real * m);
    let u = v.plus(tone.shift);
    near_minus(u, x + b, 3real * m, pivot, p, m / 10real, 42real / 10real * m);
    let d = x + b - p;
    let w = u.minus(pivot);
    let (i, j) = (16real / 10real, 21real / 10real);
    near_by(w, d, 42real / 10real * m, i, tone.contrast, k, 2real * m, j, 14real * m);
    assert(d * k == k * d) by (nonlinear_arith);
    stretch_is_bounded(d, k, 152real / 100real);
    near_plus(w.times(tone.contrast), k * d, 14real * m, pivot, p, m / 10real, 16real * m);
}

/// Two channels of a spread colour are at most 2 apart.
proof fn channels_are_close(x: real, y: real, b: real, c: real)
    requires
        0real <= x <= 1real,
        0real <= y <= 1real,
        -1real <= c <= 1real,
    ensures
        -2real <= contrasted(x, b, c) - contrasted(y, b, c) <= 2real,
{
    let (k, p) = (1real + c, middle_grey());
    let (u, v) = (x + b - p, y + b - p);
    stretch_is_bounded(x - y, k, 1real);
    assert(k * u - k * v == k * (u - v)) by (nonlinear_arith);
}

/// One channel with its saturation.
proof fn saturated_is_near(
    v: Real32,
    x: real,
    y: Real32,
    l: real,
    tone: Tone,
    b: real,
    c: real,
    s: real,
)
    requires
        near(v, x, 16real * mote()),
        -(26real / 10real) <= x <= 36real / 10real,
        near(y, l, 36real * mote()),
        -(26real / 10real) <= l <= 36real / 10real,
        -2real <= x - l <= 2real,
        stands_for(tone, b, c, s),
        -1real <= s <= 1real,
    ensures
        near(in_unit(saturated(v, y, tone.saturation)), enriched(x, l, s), 170real * mote()),
{
    short_values();
    let m = mote();
    let (zero, one) = (Real32 { bits: SHORT_ZERO }, Real32 { bits: SHORT_ONE });
    let d = x - l;
    let k = 1real + s;
    let r = saturated(v, y, tone.saturation);
    match tone.saturation {
        None => {
            assert(k * d == d) by (nonlinear_arith)
                requires
                    k == 1real,
            ;
        },
        Some(t) => {
            near_minus(v, x, 16real * m, y, l, 36real * m, 53real * m);
            let (i, j) = (21real / 10real, 21real / 10real);
            near_by(v.minus(y), d, 53real * m, i, t, k, 2real * m, j, 120real * m);
            assert(d * k == k * d) by (nonlinear_arith);
            stretch_is_bounded(d, k, 2real);
            near_plus(y, l, 36real * m, v.minus(y).times(t), k * d, 120real * m, 160real * m);
        },
    }
    clamped_value(r, zero, one);
    clamps_are_close(value(r), l + k * d, 0real, 1real, 160real * m);
}

/// The luma of a colour that is slightly off.
proof fn luma_is_near(r: Real32, x: real, g: Real32, y: real, b: Real32, z: real)
    requires
        near(r, x, 16real * mote()) && -(26real / 10real) <= x <= 36real / 10real,
        near(g, y, 16real * mote()) && -(26real / 10real) <= y <= 36real / 10real,
        near(b, z, 16real * mote()) && -(26real / 10real) <= z <= 36real / 10real,
    ensures
        near(luma(r, g, b), luma_of(x, y, z), 36real * mote()),
{
    constants();
    let m = mote();
    let (wr, wg, wb) = (
        Real32 { bits: LUMA_RED },
        Real32 { bits: LUMA_GREEN },
        Real32 { bits: LUMA_BLUE },
    );
    let (a, c, d) = (299real / 1000real, 587real / 1000real, 114real / 1000real);
    let (h, e) = (37real / 10real, m / 10real);
    near_by(wr, a, e, 3real / 10real, r, x, 16real * m, h, 7real * m);
    near_by(wg, c, e, 6real / 10real, g, y, 16real * m, h, 12real * m);
    near_by(wb, d, e, 2real / 10real, b, z, 16real * m, h, 5real * m);
    near_plus(wr.times(r), a * x, 7real * m, wg.times(g), c * y, 12real * m, 20real * m);
    near_plus(
        wr.times(r).plus(wg.times(g)),
        a * x + c * y,
        20real * m,
        wb.times(b),
        d * z,
        5real * m,
        26real * m,
    );
}

/// What the sliders do to a colour, over the real numbers: brightness is added, contrast
/// spreads the channels about the middle grey, and saturation about their luma. Opacity stays.
pub proof fn sliders_tone(brightness: Real, contrast: Real, saturation: Real, p: Rgba32)
    requires
        is_slider(brightness),
        is_slider(contrast),
        is_slider(saturation),
        is_part(p.r) && is_part(p.g) && is_part(p.b),
    ensures
        ({
            let q = match tone_of(brightness, contrast, saturation) {
                None => p,
                Some(tone) => toned(p, tone),
            };
            let (b, c, s) = (
                value::value(brightness),
                value::value(contrast),
                value::value(saturation),
            );
            let (x, y, z) = (
                contrasted(value(p.r), b, c),
                contrasted(value(p.g), b, c),
                contrasted(value(p.b), b, c),
            );
            let l = luma_of(x, y, z);
            &&& near(q.r, enriched(x, l, s), 170real * mote())
            &&& near(q.g, enriched(y, l, s), 170real * mote())
            &&& near(q.b, enriched(z, l, s), 170real * mote())
            &&& q.a == p.a
        }),
{
    let (b, c, s) = (value::value(brightness), value::value(contrast), value::value(saturation));
    tone_stands(brightness, contrast, saturation);
    let (u, v, w) = (value(p.r), value(p.g), value(p.b));
    let (x, y, z) = (contrasted(u, b, c), contrasted(v, b, c), contrasted(w, b, c));
    let l = luma_of(x, y, z);
    match tone_of(brightness, contrast, saturation) {
        None => {
            one_times(u + b - middle_grey(), 1real + c);
            one_times(v + b - middle_grey(), 1real + c);
            one_times(w + b - middle_grey(), 1real + c);
            one_times(x - l, 1real + s);
            one_times(y - l, 1real + s);
            one_times(z - l, 1real + s);
        },
        Some(tone) => {
            spread_is_near(p.r, tone, b, c, s);
            spread_is_near(p.g, tone, b, c, s);
            spread_is_near(p.b, tone, b, c, s);
            let (i, j, k) = (spread(p.r, tone), spread(p.g, tone), spread(p.b, tone));
            luma_is_near(i, x, j, y, k, z);
            channels_are_close(u, v, b, c);
            channels_are_close(v, w, b, c);
            channels_are_close(u, w, b, c);
            let f = luma(i, j, k);
            saturated_is_near(i, x, f, l, tone, b, c, s);
            saturated_is_near(j, y, f, l, tone, b, c, s);
            saturated_is_near(k, z, f, l, tone, b, c, s);
        },
    }
}

proof fn one_times(x: real, k: real)
    requires
        k == 1real,
    ensures
        k * x == x,
{
    assert(k * x == x) by (nonlinear_arith)
        requires
            k == 1real,
    ;
}

} // verus!
