//! Blending and compositing over the real numbers.
use vstd::prelude::*;

use crate::binary::Real32;
use crate::number::{
    SHORT_FOUR, SHORT_HALF, SHORT_ONE, SHORT_QUARTER, SHORT_SIXTEEN, SHORT_TWELVE, SHORT_TWO,
    SHORT_ZERO,
};
use crate::ops::blend::{
    blend_channel, burn, composite_channel, composite_pixel, dodge, doubled, hard_light, in_unit,
    screen, soft_curve, soft_light,
};
use crate::ordering::{close, kept_within};
use crate::raster::Rgba32;
use crate::recipe::BlendMode;
use crate::single::{difference_rounds, is_number, quotient_rounds, slack, value};
use crate::single_near::{
    clamped_value, mite, mote, near, near_by, near_minus, near_plus, order_is_that_of_values,
    quotient_times_divisor, root_is_near, short_values, slack_is_small,
};
use crate::value::{power, size};

verus! {

/// A number from 0 to 1.
pub open spec fn is_part(v: Real32) -> bool {
    is_number(v) && 0real <= value(v) <= 1real
}

/// The lesser of two values.
pub open spec fn lesser(x: real, y: real) -> real {
    if x <= y {
        x
    } else {
        y
    }
}

/// Multiply where the upper colour is dark, screen where it is light.
pub open spec fn lit(b: real, s: real) -> real {
    if s <= 1real / 2real {
        2real * (b * s)
    } else {
        1real - 2real * ((1real - b) * (1real - s))
    }
}

/// How light a colour can become under soft light; `root` stands for its square root.
pub open spec fn softened(b: real, root: real) -> real {
    if b <= 1real / 4real {
        ((16real * b - 12real) * b + 4real) * b
    } else {
        root
    }
}

/// What a mode makes of a backdrop `b` under a source `s`; `root` stands for the square root
/// of the backdrop.
pub open spec fn blended(mode: BlendMode, b: real, s: real, root: real) -> real {
    match mode {
        BlendMode::Normal => s,
        BlendMode::Multiply => b * s,
        BlendMode::Screen => b + s - b * s,
        BlendMode::Overlay => lit(s, b),
        BlendMode::Darken => lesser(b, s),
        BlendMode::Lighten => b + s - lesser(b, s),
        BlendMode::ColorDodge => if b == 0real {
            0real
        } else if s == 1real {
            1real
        } else {
            lesser(1real, b / (1real - s))
        },
        BlendMode::ColorBurn => if b == 1real {
            1real
        } else if s == 0real {
            0real
        } else {
            1real - lesser(1real, (1real - b) / s)
        },
        BlendMode::HardLight => lit(b, s),
        BlendMode::SoftLight => if s <= 1real / 2real {
            b - (1real - 2real * s) * b * (1real - b)
        } else {
            b + (2real * s - 1real) * (softened(b, root) - b)
        },
        BlendMode::Difference => size(b - s),
        BlendMode::Exclusion => b + s - 2real * (b * s),
    }
}

/// A part that is 0, 1 or not all too close to them, as those of bytes are.
pub open spec fn is_plain(x: real) -> bool {
    x == 0real || x == 1real || 1real / 1000real <= x <= 999real / 1000real
}

/// Products of parts are parts.
proof fn parts_multiply(x: real, y: real)
    requires
        0real <= x <= 1real,
        0real <= y <= 1real,
    ensures
        0real <= x * y <= x,
        x * y <= y,
{
    assert(0real <= x * y && x * y <= x && x * y <= y) by (nonlinear_arith)
        requires
            0real <= x <= 1real,
            0real <= y <= 1real,
    ;
}

/// Rounding moves what is not tiny by a small part of it.
proof fn slack_is_relative(x: real)
    requires
        1real / 1000real <= x <= 1real,
    ensures
        0real <= slack(x) <= x / 8000000real,
{
    slack_is_small(x, x);
    let (p, q) = (power(24), power(149));
    vstd::arithmetic::power2::lemma2_to64();
    vstd::arithmetic::power2::lemma2_to64_rest();
    vstd::arithmetic::power2::lemma_pow2_strictly_increases(64, 149);
    assert(1real / q <= 1real / 18446744073709551616real) by (nonlinear_arith)
        requires
            q > 18446744073709551616real,
    ;
    assert(p == 16777216real);
    assert(x / p == x / 16777216real) by (nonlinear_arith)
        requires
            p == 16777216real,
    ;
}

/// Screen with a second part that may be slightly off.
proof fn screen_is_near(a: Real32, x: real, b: Real32, y: real, e: real)
    requires
        near(a, x, 0real) && 0real <= x <= 1real,
        near(b, y, e) && 0real <= y <= 1real,
        0real <= e <= 10real * mote(),
    ensures
        near(screen(a, b), x + y - x * y, 2real * e + 3real * mote()),
{
    let m = mote();
    parts_multiply(x, y);
    near_plus(a, x, 0real, b, y, e, e + m);
    near_by(a, x, 0real, 1real, b, y, e, 2real, e + m);
    near_minus(a.plus(b), x + y, e + m, a.times(b), x * y, e + m, 2real * e + 3real * m);
}

/// Hard light.
proof fn hard_light_is_near(a: Real32, b: Real32)
    requires
        is_part(a),
        is_part(b),
    ensures
        near(hard_light(a, b), lit(value(a), value(b)), 7real * mote()),
        -2real <= lit(value(a), value(b)) <= 2real,
{
    short_values();
    let m = mote();
    let (half, one, two) = (
        Real32 { bits: SHORT_HALF },
        Real32 { bits: SHORT_ONE },
        Real32 { bits: SHORT_TWO },
    );
    let (x, y) = (value(a), value(b));
    order_is_that_of_values(b, half);
    near_by(two, 2real, 0real, 2real, b, y, 0real, 1real, m);
    let d = doubled(b);
    if y <= 1real / 2real {
        near_by(a, x, 0real, 1real, d, 2real * y, m, 2real, 2real * m);
        parts_multiply(x, y);
        assert(x * (2real * y) == 2real * (x * y)) by (nonlinear_arith);
    } else {
        let z = 2real * y - 1real;
        near_minus(d, 2real * y, m, one, 1real, 0real, 2real * m);
        screen_is_near(a, x, d.minus(one), z, 2real * m);
        assert(x + z - x * z == 1real - 2real * ((1real - x) * (1real - y))) by (nonlinear_arith)
            requires
                z == 2real * y - 1real,
        ;
        parts_multiply(1real - x, 1real - y);
    }
}

/// Dodge, on parts that are not all too close to 0 and 1.
proof fn dodge_is_near(a: Real32, b: Real32)
    requires
        is_part(a),
        is_part(b),
        is_plain(value(b)),
    ensures
        near(
            dodge(a, b),
            blended(BlendMode::ColorDodge, value(a), value(b), 0real),
            2real * mote(),
        ),
{
    short_values();
    let (zero, one) = (Real32 { bits: SHORT_ZERO }, Real32 { bits: SHORT_ONE });
    let (x, y) = (value(a), value(b));
    order_is_that_of_values(a, zero);
    order_is_that_of_values(b, one);
    if x != 0real && y != 1real {
        slack_is_small(0real, 0real);
        let z = 1real - y;
        difference_rounds(one, b);
        slack_is_relative(z);
        let w = one.minus(b);
        quotient_rounds(a, w);
        quotients_meet(x, z, value(w), a.over(w), mote());
        order_is_that_of_values(a.over(w), one);
    }
}

/// A quotient of a divisor that is slightly off, kept below 1.
proof fn quotients_meet(x: real, z: real, w: real, q: Real32, m: real)
    requires
        0real <= x <= 1real,
        1real / 1000real <= z <= 1real,
        -(z / 8000000real) <= w - z <= z / 8000000real,
        is_number(q),
        -slack(x / w) <= value(q) - x / w <= slack(x / w),
        m == mote(),
    ensures
        value(q) < 1real ==> close(value(q), lesser(1real, x / z), m),
        value(q) >= 1real ==> close(1real, lesser(1real, x / z), m),
        value(q) >= -m,
{
    let (t, g) = (x / w, x / z);
    assert(w > 0real);
    assert(t * w == x && g * z == x && t >= 0real && g >= 0real) by (nonlinear_arith)
        requires
            t == x / w,
            g == x / z,
            w > 0real,
            z > 0real,
            x >= 0real,
    ;
    // The two quotients differ by a small part of one of them.
    let d = w - z;
    let r = t - g;
    assert(r * z == -(t * d)) by (nonlinear_arith)
        requires
            t * w == x,
            g * z == x,
            d == w - z,
            r == t - g,
    ;
    let c = 1real / 8000000real;
    assert(-(t * (c * z)) <= t * d <= t * (c * z)) by (nonlinear_arith)
        requires
            t >= 0real,
            -(c * z) <= d <= c * z,
    ;
    assert(-(c * t) <= r <= c * t) by (nonlinear_arith)
        requires
            -(t * (c * z)) <= r * z <= t * (c * z),
            z > 0real,
    {
        assert(t * (c * z) == (c * t) * z);
        if r > c * t {
            assert(r * z > (c * t) * z);
        }
        if r < -(c * t) {
            assert(r * z < -((c * t) * z));
        }
    }
    slack_is_small(t, t);
    assert((t + 1real) * mite() == t * mite() + mite()) by (nonlinear_arith);
    assert(t * mite() == t / 16777216real) by (nonlinear_arith)
        requires
            mite() == 1real / 16777216real,
    ;
}

/// Burn, on parts that are not all too close to 0 and 1.
proof fn burn_is_near(a: Real32, b: Real32)
    requires
        is_part(a),
        is_part(b),
        is_plain(value(a)),
        is_plain(value(b)),
    ensures
        near(
            burn(a, b),
            blended(BlendMode::ColorBurn, value(a), value(b), 0real),
            5real * mote(),
        ),
{
    short_values();
    let (zero, one) = (Real32 { bits: SHORT_ZERO }, Real32 { bits: SHORT_ONE });
    let (x, y) = (value(a), value(b));
    let m = mote();
    order_is_that_of_values(a, one);
    order_is_that_of_values(b, zero);
    if x != 1real && y != 0real {
        slack_is_small(0real, 0real);
        let z = 1real - x;
        difference_rounds(one, a);
        slack_is_relative(z);
        let w = one.minus(a);
        quotient_rounds(w, b);
        let q = w.over(b);
        order_is_that_of_values(q, one);
        dividends_meet(z, value(w), y, q, m);
        if value(q) < 1real {
            near_minus(one, 1real, 0real, q, lesser(1real, z / y), 2real * m, 4real * m);
        }
    }
}

/// A quotient of a dividend that is slightly off, kept below 1.
proof fn dividends_meet(z: real, w: real, y: real, q: Real32, m: real)
    requires
        0real <= z <= 1real,
        1real / 1000real <= y <= 1real,
        -(z / 8000000real) <= w - z <= z / 8000000real,
        is_number(q),
        -slack(w / y) <= value(q) - w / y <= slack(w / y),
        m == mote(),
    ensures
        value(q) < 1real ==> close(value(q), lesser(1real, z / y), m),
        value(q) >= 1real ==> close(1real, lesser(1real, z / y), m),
        value(q) >= -m,
        0real <= lesser(1real, z / y),
{
    let (t, g) = (w / y, z / y);
    assert(t * y == w && g * y == z && t >= 0real && g >= 0real) by (nonlinear_arith)
        requires
            t == w / y,
            g == z / y,
            y > 0real,
            w >= 0real,
            z >= 0real,
    ;
    let r = t - g;
    let c = 1real / 8000000real;
    assert(r * y == w - z) by (nonlinear_arith)
        requires
            t * y == w,
            g * y == z,
            r == t - g,
    ;
    assert(-(c * g) <= r <= c * g) by (nonlinear_arith)
        requires
            -(c * (g * y)) <= r * y <= c * (g * y),
            y > 0real,
    {
        assert(c * (g * y) == (c * g) * y);
        if r > c * g {
            assert(r * y > (c * g) * y);
        }
        if r < -(c * g) {
            assert(r * y < -((c * g) * y));
        }
    }
    slack_is_small(t, t);
    assert((t + 1real) * mite() == t * mite() + mite()) by (nonlinear_arith);
    assert(t * mite() == t / 16777216real) by (nonlinear_arith)
        requires
            mite() == 1real / 16777216real,
    ;
}

/// Soft light.
proof fn soft_light_is_near(a: Real32, b: Real32) -> (root: real)
    requires
        is_part(a),
        is_part(b),
    ensures
        near(
            soft_light(a, b),
            blended(BlendMode::SoftLight, value(a), value(b), root),
            16real * mote(),
        ),
        -3real <= blended(BlendMode::SoftLight, value(a), value(b), root) <= 3real,
        value(a) > 1real / 4real ==> root >= 0real && close(root * root, value(a), mote()),
{
    short_values();
    let m = mote();
    let (quarter, half, one, two, four, twelve, sixteen) = (
        Real32 { bits: SHORT_QUARTER },
        Real32 { bits: SHORT_HALF },
        Real32 { bits: SHORT_ONE },
        Real32 { bits: SHORT_TWO },
        Real32 { bits: SHORT_FOUR },
        Real32 { bits: SHORT_TWELVE },
        Real32 { bits: SHORT_SIXTEEN },
    );
    let (x, y) = (value(a), value(b));
    order_is_that_of_values(b, half);
    order_is_that_of_values(a, quarter);
    near_by(two, 2real, 0real, 2real, b, y, 0real, 1real, m);
    let d = doubled(b);
    let root = if x > 1real / 4real {
        root_is_near(a);
        value(a.root())
    } else {
        0real
    };
    if y <= 1real / 2real {
        let k = 1real - 2real * y;
        near_minus(one, 1real, 0real, d, 2real * y, m, 2real * m);
        near_by(one.minus(d), k, 2real * m, 2real, a, x, 0real, 1real, 3real * m);
        near_minus(one, 1real, 0real, a, x, 0real, m);
        parts_multiply(k, x);
        let (u, v) = (one.minus(d).times(a), one.minus(a));
        near_by(u, k * x, 3real * m, 2real, v, 1real - x, m, 2real, 9real * m);
        parts_multiply(k * x, 1real - x);
        near_minus(a, x, 0real, u.times(v), k * x * (1real - x), 9real * m, 10real * m);
    } else {
        let k = 2real * y - 1real;
        near_minus(d, 2real * y, m, one, 1real, 0real, 2real * m);
        let s = softened(x, root);
        if x <= 1real / 4real {
            near_by(sixteen, 16real, 0real, 16real, a, x, 0real, 1real, m);
            let p = sixteen.times(a);
            near_minus(p, 16real * x, m, twelve, 12real, 0real, 2real * m);
            let f = 16real * x - 12real;
            let g = p.minus(twelve);
            near_by(g, f, 2real * m, 13real, a, x, 0real, 1real, 3real * m);
            assert(-12real <= f * x <= 0real) by (nonlinear_arith)
                requires
                    0real <= x <= 1real,
                    -12real <= f <= 0real,
            ;
            assert(f * x >= -3real) by (nonlinear_arith)
                requires
                    0real <= x <= 1real / 4real,
                    -12real <= f <= 0real,
            ;
            let h = g.times(a);
            near_plus(h, f * x, 3real * m, four, 4real, 0real, 4real * m);
            let l = f * x + 4real;
            near_by(h.plus(four), l, 4real * m, 5real, a, x, 0real, 1real, 5real * m);
            assert(0real <= l * x <= 1real) by (nonlinear_arith)
                requires
                    0real <= x <= 1real / 4real,
                    0real <= l <= 4real,
            ;
        }
        let c = soft_curve(a);
        assert(near(c, s, 5real * m));
        near_minus(c, s, 5real * m, a, x, 0real, 6real * m);
        let r = s - x;
        near_by(d.minus(one), k, 2real * m, 2real, c.minus(a), r, 6real * m, 2real, 17real * m);
        assert(-(1real + m) <= k * r <= 1real + m) by (nonlinear_arith)
            requires
                0real <= k <= 1real,
                -(1real + m) <= r <= 1real + m,
                m >= 0real,
        ;
        soft_product(d.minus(one), k, c.minus(a), r);
        near_plus(a, x, 0real, d.minus(one).times(c.minus(a)), k * r, 12real * m, 13real * m);
    }
    root
}

/// The last product of soft light, whose factors are hardly above 1.
proof fn soft_product(u: Real32, k: real, v: Real32, r: real)
    requires
        near(u, k, 2real * mote()),
        near(v, r, 6real * mote()),
        0real <= k <= 1real,
        -(1real + mote()) <= r <= 1real + mote(),
    ensures
        near(u.times(v), k * r, 12real * mote()),
{
    let m = mote();
    let (b, o) = (101real / 100real, 101real / 100real);
    near_by(u, k, 2real * m, b, v, r, 6real * m, o, 12real * m);
}

/// What a mode makes of two colours is near what it makes of them over the real numbers.
pub proof fn blend_is_near(mode: BlendMode, a: Real32, b: Real32) -> (root: real)
    requires
        is_part(a),
        is_part(b),
        mode == BlendMode::ColorDodge ==> is_plain(value(b)),
        mode == BlendMode::ColorBurn ==> is_plain(value(a)) && is_plain(value(b)),
    ensures
        near(blend_channel(mode, a, b), blended(mode, value(a), value(b), root), 16real * mote()),
        -3real <= blended(mode, value(a), value(b), root) <= 3real,
        value(a) > 1real / 4real ==> root >= 0real && close(root * root, value(a), mote()),
{
    let m = mote();
    let (x, y) = (value(a), value(b));
    short_values();
    order_is_that_of_values(a, b);
    order_is_that_of_values(b, a);
    parts_multiply(x, y);
    let root = soft_light_is_near(a, b);
    match mode {
        BlendMode::Normal => {},
        BlendMode::Multiply => {
            near_by(a, x, 0real, 1real, b, y, 0real, 1real, m);
        },
        BlendMode::Screen => {
            screen_is_near(a, x, b, y, 0real);
        },
        BlendMode::Overlay => {
            hard_light_is_near(b, a);
        },
        BlendMode::Darken => {},
        BlendMode::Lighten => {},
        BlendMode::ColorDodge => {
            dodge_is_near(a, b);
            quotient_not_negative(x, 1real - y);
        },
        BlendMode::ColorBurn => {
            burn_is_near(a, b);
            quotient_not_negative(1real - x, y);
        },
        BlendMode::HardLight => {
            hard_light_is_near(a, b);
        },
        BlendMode::SoftLight => {},
        BlendMode::Difference => {
            near_minus(a, x, 0real, b, y, 0real, m);
            near_minus(b, y, 0real, a, x, 0real, m);
        },
        BlendMode::Exclusion => {
            near_plus(a, x, 0real, b, y, 0real, m);
            near_by(a, x, 0real, 1real, b, y, 0real, 1real, m);
            let two = Real32 { bits: SHORT_TWO };
            let p = a.times(b);
            near_by(two, 2real, 0real, 2real, p, x * y, m, 2real, 3real * m);
            near_minus(a.plus(b), x + y, m, doubled(p), 2real * (x * y), 3real * m, 5real * m);
        },
    }
    root
}

proof fn quotient_not_negative(x: real, y: real)
    requires
        x >= 0real,
        y >= 0real,
    ensures
        y > 0real ==> x / y >= 0real,
{
    if y > 0real {
        assert(x / y >= 0real) by (nonlinear_arith)
            requires
                x >= 0real,
                y > 0real,
        ;
    }
}

/// The three weighted terms of a composite channel: the source alone, both blended, and the
/// backdrop alone.
pub open spec fn weighted(a_s: real, a_b: real, s: real, blend: real, b: real) -> real {
    a_s * (1real - a_b) * s + a_s * a_b * blend + (1real - a_s) * a_b * b
}

/// How opaque two layers are together.
pub open spec fn united(a_s: real, a_b: real) -> real {
    a_s + a_b - a_s * a_b
}

/// How opaque a source is once its opacity and a weight are counted in.
pub open spec fn source_opacity(src: Rgba32, opacity: Real32, weight: Real32) -> real {
    kept_within(value(src.a), 0real, 1real) * value(opacity) * value(weight)
}

/// Weighted terms are bounded by the opacities.
proof fn weighted_is_bounded(a_s: real, a_b: real, s: real, blend: real, b: real)
    requires
        0real <= a_s <= 1real,
        0real <= a_b <= 1real,
        0real <= s <= 1real,
        -3real <= blend <= 3real,
        0real <= b <= 1real,
    ensures
        0real <= a_s * (1real - a_b) * s <= 1real,
        0real <= a_s * (1real - a_b) <= 1real,
        -3real <= a_s * a_b * blend <= 3real,
        0real <= a_s * a_b <= 1real,
        0real <= (1real - a_s) * a_b * b <= 1real,
        0real <= (1real - a_s) * a_b <= 1real,
        -(3real * united(a_s, a_b)) <= weighted(a_s, a_b, s, blend, b) <= 3real * united(a_s, a_b),
        0real <= united(a_s, a_b) <= 1real,
{
    parts_multiply(a_s, 1real - a_b);
    parts_multiply(a_s, a_b);
    parts_multiply(1real - a_s, a_b);
    let (p, q, r) = (a_s * (1real - a_b), a_s * a_b, (1real - a_s) * a_b);
    parts_multiply(p, s);
    parts_multiply(r, b);
    assert(-(3real * q) <= q * blend <= 3real * q) by (nonlinear_arith)
        requires
            0real <= q,
            -3real <= blend <= 3real,
    ;
    assert(p == a_s - a_s * a_b) by (nonlinear_arith)
        requires
            p == a_s * (1real - a_b),
    ;
    assert(r == a_b - a_s * a_b) by (nonlinear_arith)
        requires
            r == (1real - a_s) * a_b,
    ;
}

/// The sum of the weighted terms.
proof fn terms_are_near(
    a_s: Real32,
    x: real,
    a_b: Real32,
    y: real,
    cs: Real32,
    s: real,
    blend: Real32,
    z: real,
    cb: Real32,
    b: real,
)
    requires
        near(a_s, x, 3real * mote()) && 0real <= x <= 1real,
        near(a_b, y, 0real) && 0real <= y <= 1real,
        near(cs, s, 0real) && 0real <= s <= 1real,
        near(blend, z, 16real * mote()) && -3real <= z <= 3real,
        near(cb, b, 0real) && 0real <= b <= 1real,
    ensures
        ({
            let one = Real32 { bits: SHORT_ONE };
            let sum = a_s.times(one.minus(a_b)).times(cs).plus(a_s.times(a_b).times(blend)).plus(
                one.minus(a_s).times(a_b).times(cb),
            );
            near(sum, weighted(x, y, s, z, b), 70real * mote())
        }),
{
    short_values();
    let m = mote();
    let one = Real32 { bits: SHORT_ONE };
    weighted_is_bounded(x, y, s, z, b);
    let t = 101real / 100real;
    near_minus(one, 1real, 0real, a_b, y, 0real, m);
    near_by(a_s, x, 3real * m, t, one.minus(a_b), 1real - y, m, t, 6real * m);
    let p = a_s.times(one.minus(a_b));
    near_by(p, x * (1real - y), 6real * m, t, cs, s, 0real, 1real, 7real * m);
    near_by(a_s, x, 3real * m, t, a_b, y, 0real, 1real, 4real * m);
    let q = a_s.times(a_b);
    near_by(q, x * y, 4real * m, t, blend, z, 16real * m, 4real, 35real * m);
    near_minus(one, 1real, 0real, a_s, x, 3real * m, 4real * m);
    near_by(one.minus(a_s), 1real - x, 4real * m, t, a_b, y, 0real, 1real, 5real * m);
    let r = one.minus(a_s).times(a_b);
    near_by(r, (1real - x) * y, 5real * m, t, cb, b, 0real, 1real, 6real * m);
    let (u, v, w) = (p.times(cs), q.times(blend), r.times(cb));
    let (f, g, h) = (x * (1real - y) * s, x * y * z, (1real - x) * y * b);
    near_plus(u, f, 7real * m, v, g, 35real * m, 43real * m);
    near_plus(u.plus(v), f + g, 43real * m, w, h, 6real * m, 50real * m);
}

/// One channel of a composite.
proof fn channel_is_near(
    mode: BlendMode,
    source: Real32,
    backdrop: Real32,
    a_s: Real32,
    x: real,
    a_b: Real32,
    a_o: Real32,
) -> (root: real)
    requires
        is_number(source),
        is_part(backdrop),
        near(a_s, x, 3real * mote()) && 0real <= x <= 1real,
        is_part(a_b),
        near(a_o, united(x, value(a_b)), 10real * mote()),
        united(x, value(a_b)) >= 1real / 1000real,
        suits(mode, source, backdrop),
    ensures
        ({
            let q = composite_channel(mode, source, backdrop, a_s, a_b, a_o);
            &&& is_number(q)
            &&& is_mixed(mode, source, backdrop, x, value(a_b), value(q), root)
        }),
{
    short_values();
    let m = mote();
    let (zero, one) = (Real32 { bits: SHORT_ZERO }, Real32 { bits: SHORT_ONE });
    let (cs, cb) = (in_unit(source), in_unit(backdrop));
    clamped_value(source, zero, one);
    clamped_value(backdrop, zero, one);
    let (s, b, y) = (value(cs), value(cb), value(a_b));
    assert(b == value(backdrop));
    let root = blend_is_near(mode, cb, cs);
    let z = blended(mode, b, s, root);
    let blend = blend_channel(mode, cb, cs);
    terms_are_near(a_s, x, a_b, y, cs, s, blend, z, cb, b);
    let sum = a_s.times(one.minus(a_b)).times(cs).plus(a_s.times(a_b).times(blend)).plus(
        one.minus(a_s).times(a_b).times(cb),
    );
    let n = weighted(x, y, s, z, b);
    weighted_is_bounded(x, y, s, z, b);
    let (o, u) = (value(a_o), united(x, y));
    quotient_times_divisor(sum, a_o);
    let q = value(sum.over(a_o));
    // The divisor is slightly off.
    let d = u - o;
    assert(-(11real * (10real * m)) <= q * d <= 11real * (10real * m)) by (nonlinear_arith)
        requires
            -11real <= q <= 11real,
            -(10real * m) <= d <= 10real * m,
            m >= 0real,
    ;
    assert(q * u == q * o + q * d) by (nonlinear_arith)
        requires
            d == u - o,
    ;
    assert(m * o <= 2real * m) by (nonlinear_arith)
        requires
            0real <= o <= 2real,
            m >= 0real,
    ;
    root
}

/// The parts of a channel suit a mode: those that divide want them not all too close to 0
/// and 1.
pub open spec fn suits(mode: BlendMode, source: Real32, backdrop: Real32) -> bool {
    let s = kept_within(value(source), 0real, 1real);
    &&& mode == BlendMode::ColorDodge ==> is_plain(s)
    &&& mode == BlendMode::ColorBurn ==> is_plain(s) && is_plain(value(backdrop))
}

/// A channel of a composite, times how opaque the composite is, is near the three weighted
/// terms; `root` is near the square root of the backdrop.
pub open spec fn is_mixed(
    mode: BlendMode,
    source: Real32,
    backdrop: Real32,
    a_s: real,
    a_b: real,
    channel: real,
    root: real,
) -> bool {
    let s = kept_within(value(source), 0real, 1real);
    let b = value(backdrop);
    &&& b > 1real / 4real ==> root >= 0real && close(root * root, b, mote())
    &&& close(
        channel * united(a_s, a_b),
        weighted(a_s, a_b, s, blended(mode, b, s, root), b),
        200real * mote(),
    )
}

/// A layer over a backdrop, over the real numbers. The composite is as opaque as the two are
/// together, and each of its channels, times that, is the three weighted terms: the source
/// where there is no backdrop, the two blended where there are both, and the backdrop where
/// there is no source.
pub proof fn composite_is_weighted(
    mode: BlendMode,
    opacity: Real32,
    weight: Real32,
    dst: Rgba32,
    src: Rgba32,
) -> (roots: (real, real, real))
    requires
        is_part(opacity),
        is_part(weight),
        is_part(dst.r) && is_part(dst.g) && is_part(dst.b) && is_part(dst.a),
        is_number(src.r) && is_number(src.g) && is_number(src.b) && is_number(src.a),
        suits(mode, src.r, dst.r),
        suits(mode, src.g, dst.g),
        suits(mode, src.b, dst.b),
        united(source_opacity(src, opacity, weight), value(dst.a)) >= 1real / 1000real,
    ensures
        ({
            let q = composite_pixel(mode, opacity, weight, dst, src);
            let a_s = source_opacity(src, opacity, weight);
            let a_b = value(dst.a);
            &&& is_number(q.r) && is_number(q.g) && is_number(q.b)
            &&& near(q.a, united(a_s, a_b), 10real * mote())
            &&& is_mixed(mode, src.r, dst.r, a_s, a_b, value(q.r), roots.0)
            &&& is_mixed(mode, src.g, dst.g, a_s, a_b, value(q.g), roots.1)
            &&& is_mixed(mode, src.b, dst.b, a_s, a_b, value(q.b), roots.2)
        }),
{
    reveal(composite_pixel);
    short_values();
    let m = mote();
    let (zero, one) = (Real32 { bits: SHORT_ZERO }, Real32 { bits: SHORT_ONE });
    clamped_value(src.a, zero, one);
    clamped_value(dst.a, zero, one);
    let (a, ab) = (in_unit(src.a), in_unit(dst.a));
    let (p, o, w, y) = (value(a), value(opacity), value(weight), value(ab));
    parts_multiply(p, o);
    parts_multiply(p * o, w);
    near_by(a, p, 0real, 1real, opacity, o, 0real, 1real, m);
    near_by(a.times(opacity), p * o, m, 2real, weight, w, 0real, 1real, 2real * m);
    let a_s = a.times(opacity).times(weight);
    let x = p * o * w;
    near_minus(one, 1real, 0real, a_s, x, 2real * m, 3real * m);
    near_by(ab, y, 0real, 1real, one.minus(a_s), 1real - x, 3real * m, 2real, 4real * m);
    parts_multiply(y, 1real - x);
    near_plus(
        a_s,
        x,
        2real * m,
        ab.times(one.minus(a_s)),
        y * (1real - x),
        4real * m,
        7real * m,
    );
    let a_o = a_s.plus(ab.times(one.minus(a_s)));
    let u = united(x, y);
    assert(x + y * (1real - x) == u) by (nonlinear_arith)
        requires
            u == x + y - x * y,
    ;
    assert(ab.bits == dst.a.bits) by {
        order_is_that_of_values(dst.a, zero);
        order_is_that_of_values(one, dst.a);
    }
    order_is_that_of_values(a_s, zero);
    order_is_that_of_values(a_o, zero);
    if a_s.same(zero) {
        let r0 = nothing_over(mode, src.r, dst.r, x, y);
        let r1 = nothing_over(mode, src.g, dst.g, x, y);
        let r2 = nothing_over(mode, src.b, dst.b, x, y);
        parts_multiply(x, y);
        (r0, r1, r2)
    } else {
        let r0 = channel_is_near(mode, src.r, dst.r, a_s, x, ab, a_o);
        let r1 = channel_is_near(mode, src.g, dst.g, a_s, x, ab, a_o);
        let r2 = channel_is_near(mode, src.b, dst.b, a_s, x, ab, a_o);
        (r0, r1, r2)
    }
}

/// A source of which nothing is left hardly changes a channel.
proof fn nothing_over(mode: BlendMode, source: Real32, backdrop: Real32, x: real, y: real) -> (root:
    real)
    requires
        is_number(source),
        is_part(backdrop),
        0real <= x <= 2real * mote(),
        0real <= y <= 1real,
        suits(mode, source, backdrop),
    ensures
        is_mixed(mode, source, backdrop, x, y, value(backdrop), root),
{
    short_values();
    let (zero, one) = (Real32 { bits: SHORT_ZERO }, Real32 { bits: SHORT_ONE });
    let cs = in_unit(source);
    clamped_value(source, zero, one);
    let root = blend_is_near(mode, backdrop, cs);
    let (b, s) = (value(backdrop), value(cs));
    let z = blended(mode, b, s, root);
    parts_multiply(x, y);
    let q = x * y;
    assert(x * (1real - y) == x - q) by (nonlinear_arith)
        requires
            q == x * y,
    ;
    assert((1real - x) * y == y - q) by (nonlinear_arith)
        requires
            q == x * y,
    ;
    parts_multiply(x - q, s);
    assert(-(3real * q) <= q * z <= 3real * q) by (nonlinear_arith)
        requires
            q >= 0real,
            -3real <= z <= 3real,
    ;
    assert((y - q) * b == b * (x + y - q) - b * x) by (nonlinear_arith);
    parts_multiply(b, x);
    root
}

/// On an opaque backdrop each channel is the blended colour by the opacity of the source, and
/// the backdrop by the rest; so it stays as it is wherever blending makes nothing else of it.
pub proof fn composite_on_opaque(
    mode: BlendMode,
    opacity: Real32,
    weight: Real32,
    dst: Rgba32,
    src: Rgba32,
) -> (roots: (real, real, real))
    requires
        is_part(opacity),
        is_part(weight),
        is_part(dst.r) && is_part(dst.g) && is_part(dst.b),
        is_number(dst.a) && value(dst.a) == 1real,
        is_number(src.r) && is_number(src.g) && is_number(src.b) && is_number(src.a),
        suits(mode, src.r, dst.r),
        suits(mode, src.g, dst.g),
        suits(mode, src.b, dst.b),
    ensures
        ({
            let q = composite_pixel(mode, opacity, weight, dst, src);
            let a = source_opacity(src, opacity, weight);
            &&& near(q.a, 1real, 10real * mote())
            &&& is_laid_over(mode, src.r, dst.r, a, q.r, roots.0)
            &&& is_laid_over(mode, src.g, dst.g, a, q.g, roots.1)
            &&& is_laid_over(mode, src.b, dst.b, a, q.b, roots.2)
        }),
{
    let a = source_opacity(src, opacity, weight);
    assert(united(a, 1real) == 1real) by (nonlinear_arith)
        requires
            united(a, 1real) == a + 1real - a * 1real,
    ;
    let roots = composite_is_weighted(mode, opacity, weight, dst, src);
    let q = composite_pixel(mode, opacity, weight, dst, src);
    laid_over(mode, src.r, dst.r, a, q.r, roots.0);
    laid_over(mode, src.g, dst.g, a, q.g, roots.1);
    laid_over(mode, src.b, dst.b, a, q.b, roots.2);
    roots
}

/// A channel is the blended colour by an opacity, and the backdrop by the rest; `root` is near
/// the square root of the backdrop.
pub open spec fn is_laid_over(
    mode: BlendMode,
    source: Real32,
    backdrop: Real32,
    a: real,
    channel: Real32,
    root: real,
) -> bool {
    let s = kept_within(value(source), 0real, 1real);
    let b = value(backdrop);
    let blend = blended(mode, b, s, root);
    &&& b > 1real / 4real ==> root >= 0real && close(root * root, b, mote())
    &&& near(channel, a * blend + (1real - a) * b, 200real * mote())
    &&& blend == b ==> near(channel, b, 200real * mote())
}

proof fn laid_over(
    mode: BlendMode,
    source: Real32,
    backdrop: Real32,
    a: real,
    channel: Real32,
    root: real,
)
    requires
        is_number(channel),
        is_mixed(mode, source, backdrop, a, 1real, value(channel), root),
    ensures
        is_laid_over(mode, source, backdrop, a, channel, root),
{
    let s = kept_within(value(source), 0real, 1real);
    let b = value(backdrop);
    let z = blended(mode, b, s, root);
    let q = value(channel);
    assert(united(a, 1real) == 1real) by (nonlinear_arith)
        requires
            united(a, 1real) == a + 1real - a * 1real,
    ;
    let u = united(a, 1real);
    assert(q * u == q) by (nonlinear_arith)
        requires
            u == 1real,
    ;
    assert(a * (1real - 1real) * s == 0real && a * 1real * z == a * z && (1real - a) * 1real * b
        == (1real - a) * b) by (nonlinear_arith);
    if z == b {
        assert(a * z + (1real - a) * b == b) by (nonlinear_arith)
            requires
                z == b,
        ;
    }
}

} // verus!
