//! What the sliders of the colour bands make of a pixel, over the real numbers.
use vstd::prelude::*;

use crate::binary::Real;
use crate::exact::is_number;
use crate::hsl_law::{are_sliders, is_share, made_more, mix, sliders_shift};
use crate::hue_law::{
    blue_part, center, green_part, hues_are_shared, is_colour_at, is_same_hue, level_of, red_part,
    turn_is_closed, wheel_has_colours, width_of,
};
use crate::nearness::near;
use crate::ops::hsl::{band_pixel, bands_from, hsl_of, is_still, shifted, Hsl, Shift};
use crate::ordering::{clamps_are_close, close, kept_within};
use crate::raster::Rgba;
use crate::tolerance::trace;
use crate::value::{size, value};

verus! {

/// The band after another one, round the wheel.
pub open spec fn next_band(i: int) -> int {
    if i < 7 {
        i + 1
    } else {
        0
    }
}

/// How far a hue lies from the middle of its band toward the next one.
pub open spec fn way_on(h: real, i: int) -> real {
    (h - center(i)) / (center(i + 1) - center(i))
}

/// The mean of two sliders at a hue between two bands.
pub open spec fn mean_at(a: Real, b: Real, part: real) -> real {
    (1real - part) * value(a) + part * value(b)
}

/// Where the sliders of two bands take a hue, by three tenths of a degree for each step.
pub open spec fn new_hue(h: real, a: Shift, b: Shift, part: real) -> real {
    h + 3real / 10real * mean_at(a.hue, b.hue, part)
}

/// Where the sliders of two bands take a saturation, by a hundredth of it for each step.
pub open spec fn new_saturation(s: real, a: Shift, b: Shift, part: real) -> real {
    made_more(s, mean_at(a.saturation, b.saturation, part) / 100real)
}

/// Where the sliders of two bands take a lightness, by half as much for each step.
pub open spec fn new_lightness(l: real, a: Shift, b: Shift, part: real) -> real {
    made_more(l, mean_at(a.luminance, b.luminance, part) / 200real)
}

/// A colour by numbers in their ranges.
pub open spec fn is_plain(at: Hsl) -> bool {
    is_number(at.h) && 0real <= value(at.h) < 360real && is_share(at.s) && is_share(at.l)
}

/// Means by weights that are slightly off.
proof fn means_are_close(wi: Real, a: Real, wj: Real, b: Real, part: real)
    requires
        near(wi, 1real - part, 10real * trace()),
        near(wj, part, 10real * trace()),
        -100real <= value(a) <= 100real,
        -100real <= value(b) <= 100real,
        0real <= part <= 1real,
    ensures
        close(mix(wi, a, wj, b), mean_at(a, b, part), 2000real * trace()),
        -100real <= mean_at(a, b, part) <= 100real,
{
    let (x, y) = (value(a), value(b));
    let (u, v) = (value(wi) - (1real - part), value(wj) - part);
    off_by(value(wi), 1real - part, u, x);
    off_by(value(wj), part, v, y);
    let q = 1real - part;
    assert(-(100real * q) <= q * x <= 100real * q) by (nonlinear_arith)
        requires
            0real <= q <= 1real,
            -100real <= x <= 100real,
    ;
    assert(-(100real * part) <= part * y <= 100real * part) by (nonlinear_arith)
        requires
            0real <= part <= 1real,
            -100real <= y <= 100real,
    ;
}

proof fn off_by(w: real, q: real, u: real, x: real)
    requires
        u == w - q,
        -(10real * trace()) <= u <= 10real * trace(),
        -100real <= x <= 100real,
    ensures
        w * x == q * x + u * x,
        -(1000real * trace()) <= u * x <= 1000real * trace(),
{
    assert(w * x == q * x + u * x) by (nonlinear_arith)
        requires
            u == w - q,
    ;
    let t = trace();
    assert(-(1000real * t) <= u * x <= 1000real * t) by (nonlinear_arith)
        requires
            -(10real * t) <= u <= 10real * t,
            -100real <= x <= 100real,
            t >= 0real,
    ;
}

/// Making more of a part by what is slightly off.
proof fn made_more_is_close(part: real, x: real, y: real, e: real)
    requires
        0real <= part <= 1real,
        close(x, y, e),
        e >= 0real,
    ensures
        close(made_more(part, x), made_more(part, y), e),
        0real <= made_more(part, y) <= 1real,
{
    let low = -(95real / 100real);
    clamps_are_close(x, y, low, 1real, e);
    let (p, q) = (kept_within(x, low, 1real), kept_within(y, low, 1real));
    let d = p - q;
    assert(part * (1real + p) == part * (1real + q) + part * d) by (nonlinear_arith)
        requires
            d == p - q,
    ;
    assert(-e <= part * d <= e) by (nonlinear_arith)
        requires
            0real <= part <= 1real,
            -e <= d <= e,
            e >= 0real,
    ;
    clamps_are_close(part * (1real + p), part * (1real + q), 0real, 1real, e);
}

/// Channels of colours whose saturation and lightness are close.
proof fn levels_are_close(p: real, s: real, l: real, ss: real, ll: real, e: real)
    requires
        0real <= p <= 1real,
        0real <= s <= 1real,
        0real <= l <= 1real,
        0real <= ss <= 1real,
        0real <= ll <= 1real,
        close(s, ss, e),
        close(l, ll, e),
        e >= 0real,
    ensures
        close(level_of(p, s, l), level_of(p, ss, ll), 4real * e),
{
    let (j, k) = (1real - size(2real * l - 1real), 1real - size(2real * ll - 1real));
    let (u, v, h) = (s - ss, j - k, p - 1real / 2real);
    assert(j * s == k * ss + j * u + v * ss) by (nonlinear_arith)
        requires
            u == s - ss,
            v == j - k,
    ;
    assert(-e <= j * u <= e) by (nonlinear_arith)
        requires
            0real <= j <= 1real,
            -e <= u <= e,
            e >= 0real,
    ;
    assert(-(2real * e) <= v * ss <= 2real * e) by (nonlinear_arith)
        requires
            -(2real * e) <= v <= 2real * e,
            0real <= ss <= 1real,
            e >= 0real,
    ;
    let (a, b) = (width_of(s, l), width_of(ss, ll));
    let d = a - b;
    assert(a * h == b * h + d * h) by (nonlinear_arith)
        requires
            d == a - b,
    ;
    assert(-(3real * e) <= d * h <= 3real * e) by (nonlinear_arith)
        requires
            -(3real * e) <= d <= 3real * e,
            -1real <= h <= 1real,
            e >= 0real,
    ;
}

/// A colour that is at one place on the wheel is at a place close to it too.
proof fn moves_little(
    q: (u8, u8, u8),
    x: real,
    s: real,
    l: real,
    y: real,
    ss: real,
    ll: real,
    e: real,
)
    requires
        is_colour_at(q, x, s, l, 1real / 2real + 1real / 100000real),
        0real <= x <= 360real,
        0real <= y <= 360real,
        0real <= s <= 1real,
        0real <= l <= 1real,
        0real <= ss <= 1real,
        0real <= ll <= 1real,
        close(s, ss, e),
        close(l, ll, e),
        close(x, y, e) || close(x, y + 360real, e) || close(x, y - 360real, e) || close(
            x,
            y + 720real,
            e,
        ) || close(x, y - 720real, e),
        0real <= e <= 1real / 100000000real,
    ensures
        is_colour_at(q, y, ss, ll, 1real / 2real + 1real / 10000real),
{
    let (a, b) = (x / 60real, y / 60real);
    turn_is_closed(a, b, x, y, s, l, e);
    levels_are_close(red_part(b), s, l, ss, ll, e);
    levels_are_close(green_part(b), s, l, ss, ll, e);
    levels_are_close(blue_part(b), s, l, ss, ll, e);
}

/// A pixel between two bands comes out with its hue, its saturation and its lightness moved by
/// the mean of the sliders of the two bands, each counting the more the nearer it is. Opacity
/// stays. A hue that comes to lie at the very start of the wheel is left aside.
pub proof fn bands_shift_colours(shifts: Seq<Shift>, p: Rgba, i: int, x: real)
    requires
        shifts.len() == 8,
        forall|k: int| 0 <= k < 8 ==> are_sliders(#[trigger] shifts[k]),
        hsl_of(p.r, p.g, p.b) is Some,
        is_plain(hsl_of(p.r, p.g, p.b)->0),
        0 <= i < 8,
        center(i) <= value(hsl_of(p.r, p.g, p.b)->0.h) < center(i + 1),
        !(is_still(shifts[i]) && is_still(shifts[next_band(i)])),
        ({
            let h = value(hsl_of(p.r, p.g, p.b)->0.h);
            let to = new_hue(h, shifts[i], shifts[next_band(i)], way_on(h, i));
            &&& size(to) >= 1real / 1000000real
            &&& is_same_hue(x, to)
        }),
    ensures
        ({
            let at = hsl_of(p.r, p.g, p.b)->0;
            let (a, b) = (shifts[i], shifts[next_band(i)]);
            let part = way_on(value(at.h), i);
            let q = band_pixel(shifts, p);
            &&& is_colour_at(
                (q.r, q.g, q.b),
                x,
                new_saturation(value(at.s), a, b, part),
                new_lightness(value(at.l), a, b, part),
                1real / 2real + 1real / 10000real,
            )
            &&& q.a == p.a
        }),
{
    let t = trace();
    let at = hsl_of(p.r, p.g, p.b)->0;
    hues_are_shared(at.h);
    let ((k, wi), (j, wj)) = bands_from(at.h, 0);
    assert(k == i);
    assert(j == next_band(i));
    let (a, b) = (shifts[i], shifts[j]);
    assert(are_sliders(a) && are_sliders(b));
    let part = way_on(value(at.h), i);
    let (u, v) = (value(at.h) - center(i), center(i + 1) - center(i));
    assert(0real <= part <= 1real) by (nonlinear_arith)
        requires
            part == u / v,
            0real <= u <= v,
            v > 0real,
    ;
    sliders_shift(at, a, wi, b, wj);
    means_are_close(wi, a.hue, wj, b.hue, part);
    means_are_close(wi, a.saturation, wj, b.saturation, part);
    means_are_close(wi, a.luminance, wj, b.luminance, part);
    let to = shifted(at, a, wi, b, wj);
    let (s, l) = (value(at.s), value(at.l));
    let e = 2000real * t;
    made_more_is_close(
        s,
        mix(wi, a.saturation, wj, b.saturation) / 100real,
        mean_at(a.saturation, b.saturation, part) / 100real,
        e,
    );
    made_more_is_close(
        l,
        mix(wi, a.luminance, wj, b.luminance) / 200real,
        mean_at(a.luminance, b.luminance, part) / 200real,
        e,
    );
    let h = new_hue(value(at.h), a, b, part);
    let f = 1real / 100000000real;
    assert(close(value(to.h), h, f));
    // The hue that comes out, in the turn.
    let c = value(to.h);
    let y = if c < 0real {
        c + 360real
    } else if c > 360real {
        c - 360real
    } else {
        c
    };
    wheel_has_colours(to.h, to.s, to.l, y);
    let q = band_pixel(shifts, p);
    moves_little(
        (q.r, q.g, q.b),
        y,
        value(to.s),
        value(to.l),
        x,
        new_saturation(s, a, b, part),
        new_lightness(l, a, b, part),
        f,
    );
}

} // verus!
