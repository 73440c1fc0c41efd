//! What single pixels become, over the real numbers: colour matrices, levels, sharpening,
//! gradients, stretched levels and mixtures.
use vstd::prelude::*;

use crate::balance_law;
use crate::binary::{Real, Real32, Triple};
use crate::blend_law::is_part;
use crate::exact::is_number;
use crate::float::{negative, of_integer, unsigned, Width};
use crate::hsl_law::is_share;
use crate::nearness::{grain, near, near_sum, slack_is_small};
use crate::linear::{quantize_1e9, BILLION};
use crate::number::{BYTE_MAX, ONE, SHORT_ONE, SHORT_ZERO, ZERO};
use crate::ops::auto_levels::stretched;
use crate::ops::blur::sharper;
use crate::ops::clone_heal::{healed_channel, laid_over};
use crate::ops::color::{grid_byte, level_entry, level_input, matrix_row};
use crate::ops::gradient::{between_stops, colour_from, gradient_colour, luma_of, Stop};
use crate::ops::mask::blended;
use crate::ordering::{
    clamped_value, clamps_are_close, close, kept_within, nearest_byte, order_is_that_of_values,
    rounded_byte,
};
use crate::raster::{Rgba, Rgba32};
use crate::single;
use crate::single_near::{self, mote};
use crate::stats::{exact_luma, LUMA_B, LUMA_G, LUMA_R};
use crate::tolerance::{near_by, near_minus, near_over, near_plus, trace};
use crate::units::units;
use crate::value::{
    product_rounds, quotient_rounds, size, some_values, value, wheel_values, wholes_are_themselves, zero_is_zero,
};
use crate::whole_steps::round_is_close;
use crate::wholes::million_and_billion;
use crate::widths::{narrowed_is_near, widened_value};

verus! {

/// An entry of a colour matrix.
pub open spec fn is_weight(v: Real) -> bool {
    is_number(v) && -8real <= value(v) <= 8real
}

/// A byte as a part of 255.
proof fn byte_part(c: u8)
    ensures
        near(
            Real::of_byte(c).over(Real { bits: BYTE_MAX }),
            c as real / 255real,
            trace(),
        ),
        0real <= c as real / 255real <= 1real,
{
    wheel_values();
    wholes_are_themselves(c as nat);
    near_over(
        Real::of_byte(c),
        c as real,
        0real,
        Real { bits: BYTE_MAX },
        255real,
        0real,
        1real,
        1real,
        trace(),
    );
}

/// One entry of a matrix times a channel.
proof fn weighted_part(m: Real, c: u8)
    requires
        is_weight(m),
    ensures
        near(
            m.times(Real::of_byte(c).over(Real { bits: BYTE_MAX })),
            value(m) * (c as real / 255real),
            10real * trace(),
        ),
        -8real <= value(m) * (c as real / 255real) <= 8real,
{
    byte_part(c);
    let (x, y) = (value(m), c as real / 255real);
    let v = Real::of_byte(c).over(Real { bits: BYTE_MAX });
    near_by(m, x, 0real, 8real, v, y, trace(), 2real, 10real * trace());
    assert(-8real <= x * y <= 8real) by (nonlinear_arith)
        requires
            -8real <= x <= 8real,
            0real <= y <= 1real,
    ;
}

/// A row of a colour matrix gives the channels, as parts of 255, each by its weight, and a
/// constant, kept from 0 to 1 and rounded to a byte.
pub proof fn matrix_row_is_linear(m0: Real, m1: Real, m2: Real, m3: Real, m4: Real, p: Rgba)
    requires
        is_weight(m0) && is_weight(m1) && is_weight(m2) && is_weight(m3) && is_weight(m4),
    ensures
        ({
            let v = value(m0) * (p.r as real / 255real) + value(m1) * (p.g as real / 255real)
                + value(m2) * (p.b as real / 255real) + value(m3) * (p.a as real / 255real)
                + value(m4);
            close(
                matrix_row(m0, m1, m2, m3, m4, p) as real,
                255real * kept_within(v, 0real, 1real),
                1real / 2real + 1real / 1000000real,
            )
        }),
{
    let t = trace();
    let (zero, one, top) = (Real { bits: ZERO }, Real { bits: ONE }, Real { bits: BYTE_MAX });
    zero_is_zero();
    some_values();
    wheel_values();
    weighted_part(m0, p.r);
    weighted_part(m1, p.g);
    weighted_part(m2, p.b);
    weighted_part(m3, p.a);
    let (a, b, c, d) = (
        m0.times(Real::of_byte(p.r).over(top)),
        m1.times(Real::of_byte(p.g).over(top)),
        m2.times(Real::of_byte(p.b).over(top)),
        m3.times(Real::of_byte(p.a).over(top)),
    );
    let (x, y, z, u) = (
        value(m0) * (p.r as real / 255real),
        value(m1) * (p.g as real / 255real),
        value(m2) * (p.b as real / 255real),
        value(m3) * (p.a as real / 255real),
    );
    near_plus(a, x, 10real * t, b, y, 10real * t, 21real * t);
    near_plus(a.plus(b), x + y, 21real * t, c, z, 10real * t, 32real * t);
    near_plus(a.plus(b).plus(c), x + y + z, 32real * t, d, u, 10real * t, 43real * t);
    let e = a.plus(b).plus(c).plus(d);
    near_plus(e, x + y + z + u, 43real * t, m4, value(m4), 0real, 44real * t);
    let s = e.plus(m4);
    let v = x + y + z + u + value(m4);
    clamped_value(s, zero, one);
    clamps_are_close(value(s), v, 0real, 1real, 44real * t);
    let k = kept_within(v, 0real, 1real);
    let f = s.clamped(zero, one);
    near_by(f, k, 44real * t, 2real, top, 255real, 0real, 255real, 20000real * t);
    assert(k * 255real == 255real * k) by (nonlinear_arith);
    let g = f.times(top);
    rounded_byte(g);
    clamps_are_close(value(g), 255real * k, 0real, 255real, 20000real * t);
}

/// A whole number stands for itself, on either side of zero.
proof fn integer_value(n: int)
    requires
        -1000000 <= n <= 1000000,
    ensures
        is_number(Real::nearest_to(n)),
        value(Real::nearest_to(n)) == n as real,
{
    if n >= 0 {
        wholes_are_themselves(n as nat);
    } else {
        let w = Width::Double;
        let m = (-n) as nat;
        wholes_are_themselves(m);
        reveal(Real::nearest_to);
        let (a, b) = (of_integer(w, n), of_integer(w, -n));
        assert(unsigned(w, a) == unsigned(w, b) && negative(w, a) && !negative(w, b));
        assert(units(w, a) == units(w, b));
    }
}

/// Sharpening takes a channel away from its blurred value by the amount, where the two differ
/// by more than the threshold, and keeps it elsewhere.
pub proof fn sharpening_adds_difference(orig: u8, blurred: u8, amount: Real, threshold: u8)
    requires
        is_number(amount) && 0real <= value(amount) <= 4real,
    ensures
        ({
            let q = sharper(orig, blurred, amount, threshold);
            let diff = orig as real - blurred as real;
            &&& size(diff) <= threshold as real ==> q == orig
            &&& size(diff) > threshold as real ==> close(
                q as real,
                kept_within(orig as real + value(amount) * diff, 0real, 255real),
                1real / 2real + 1real / 100000real,
            )
        }),
{
    let diff = orig - blurred;
    let (x, y, k) = (orig as real, diff as real, value(amount));
    let e = 1real / 1000000real;
    wholes_are_themselves(orig as nat);
    integer_value(diff);
    near_by(amount, k, 0real, 4real, Real::nearest_to(diff), y, 0real, 256real, trace());
    let d = amount.times(Real::nearest_to(diff));
    assert(-1020real <= k * y <= 1020real) by (nonlinear_arith)
        requires
            0real <= k <= 4real,
            -255real <= y <= 255real,
    ;
    assert((2real * 2000real + 1real) * grain() <= 9real / 10000000real) by (nonlinear_arith)
        requires
            grain() == 1real / 9007199254740992real,
    ;
    near_sum(
        Real::of_byte(orig),
        x,
        0real,
        d,
        k * y,
        trace(),
        2000real,
        e,
    );
    let v = Real::of_byte(orig).plus(d);
    nearest_byte(v);
    clamps_are_close(value(v), x + k * y, 0real, 255real, e);
}

/// The nearest billionth is next to a number.
proof fn billionth_is_near(v: Real)
    requires
        is_number(v),
        -1000real <= value(v) <= 1000real,
    ensures
        near(quantize_1e9(v), value(v), 1real / 1000000000real),
{
    let billion = Real { bits: BILLION };
    million_and_billion();
    wholes_are_themselves(1_000_000_000);
    assert(billion == Real::nearest_to(1_000_000_000)) by {
        reveal(Real::nearest_to);
    }
    slack_is_small(0real, 0real);
    let y = value(v);
    product_rounds(v, billion);
    let z = y * 1000000000real;
    slack_is_small(z, 1000000000000real);
    assert((1000000000000real + 1real) * grain() <= 1real / 1000real) by (nonlinear_arith)
        requires
            grain() == 1real / 9007199254740992real,
    ;
    let t = v.times(billion);
    round_is_close(t);
    let r = t.round();
    quotient_rounds(r, billion);
    let q = value(r) / 1000000000real;
    slack_is_small(q, 1001real);
    assert((1001real + 1real) * grain() <= 1real / 1000000000000real) by (nonlinear_arith)
        requires
            grain() == 1real / 9007199254740992real,
    ;
}

/// Where a level lies between the black and the white of the input.
proof fn level_is_near(i: u8, black: u8, white: u8)
    requires
        black < white,
    ensures
        near(
            level_input(i as int, black, white),
            kept_within(
                (i as real - black as real) / (white as real - black as real),
                0real,
                1real,
            ),
            3000real * trace(),
        ),
{
    let t = trace();
    let (zero, one) = (Real { bits: ZERO }, Real { bits: ONE });
    zero_is_zero();
    some_values();
    wholes_are_themselves(i as nat);
    wholes_are_themselves(black as nat);
    wholes_are_themselves(white as nat);
    let (x, a, b) = (i as real, black as real, white as real);
    let (low, high) = (Real::of_byte(black), Real::of_byte(white));
    near_minus(high, b, 0real, low, a, 0real, t);
    near_minus(Real::nearest_to(i as int), x, 0real, low, a, 0real, t);
    let span = high.minus(low);
    order_is_that_of_values(zero, span);
    let p = Real::nearest_to(i as int).minus(low);
    near_over(p, x - a, t, span, b - a, t, 1real, 255real, 3000real * t);
    let r = p.over(span);
    clamped_value(r, zero, one);
    clamps_are_close(value(r), (x - a) / (b - a), 0real, 1real, 3000real * t);
}

/// Levels over the real numbers, without a change of gamma: where a channel lies between the
/// black and the white of the input, the result lies between the black and the white of the
/// output.
pub proof fn levels_are_straight(
    i: u8,
    in_black: u8,
    in_white: u8,
    gamma: Real,
    out_black: u8,
    out_white: u8,
    powers: Seq<Real>,
)
    requires
        in_black < in_white,
        is_number(gamma) && value(gamma) == 1real,
    ensures
        ({
            let part = kept_within(
                (i as real - in_black as real) / (in_white as real - in_black as real),
                0real,
                1real,
            );
            close(
                level_entry(i as int, in_black, in_white, gamma, out_black, out_white, powers)
                    as real,
                on_line(out_black as real, out_white as real, part),
                1real / 2real + 1real / 1000000real,
            )
        }),
{
    some_values();
    order_is_that_of_values(gamma, Real { bits: ONE });
    level_is_near(i, in_black, in_white);
    let part = kept_within(
        (i as real - in_black as real) / (in_white as real - in_black as real),
        0real,
        1real,
    );
    let e = level_entry(i as int, in_black, in_white, gamma, out_black, out_white, powers);
    shaped_level(level_input(i as int, in_black, in_white), part, out_black, out_white);
}

/// Levels over the real numbers, with a change of gamma: the result lies as far between the
/// black and the white of the output as the power says.
pub proof fn levels_follow_powers(
    i: u8,
    in_black: u8,
    in_white: u8,
    gamma: Real,
    out_black: u8,
    out_white: u8,
    powers: Seq<Real>,
)
    requires
        is_number(gamma) && value(gamma) != 1real,
        powers.len() == 256,
        is_share(powers[i as int]),
    ensures
        close(
            level_entry(i as int, in_black, in_white, gamma, out_black, out_white, powers) as real,
            on_line(out_black as real, out_white as real, value(powers[i as int])),
            1real / 2real + 1real / 1000000real,
        ),
{
    some_values();
    order_is_that_of_values(gamma, Real { bits: ONE });
    shaped_level(powers[i as int], value(powers[i as int]), out_black, out_white);
}

/// A part of the way from one byte to another, as a byte.
proof fn shaped_level(shaped: Real, part: real, black: u8, white: u8)
    requires
        near(shaped, part, 3000real * trace()),
        0real <= part <= 1real,
    ensures
        ({
            let low = Real::of_byte(black);
            close(
                grid_byte(low.plus(shaped.times(Real::of_byte(white).minus(low)))) as real,
                on_line(black as real, white as real, part),
                1real / 2real + 1real / 1000000real,
            )
        }),
{
    let t = trace();
    wholes_are_themselves(black as nat);
    wholes_are_themselves(white as nat);
    let (a, b) = (black as real, white as real);
    let (low, high) = (Real::of_byte(black), Real::of_byte(white));
    near_minus(high, b, 0real, low, a, 0real, t);
    let d = b - a;
    near_by(shaped, part, 3000real * t, 2real, high.minus(low), d, t, 256real, 800000real * t);
    assert(part * d <= 255real && part * d >= -255real) by (nonlinear_arith)
        requires
            0real <= part <= 1real,
            -255real <= d <= 255real,
    ;
    let s = shaped.times(high.minus(low));
    near_plus(low, a, 0real, s, part * d, 800000real * t, 900000real * t);
    let v = low.plus(s);
    billionth_is_near(v);
    let q = quantize_1e9(v);
    rounded_byte(q);
    let y = a + part * d;
    assert(0real <= y <= 255real) by (nonlinear_arith)
        requires
            y == a + part * (b - a),
            0real <= part <= 1real,
            0real <= a <= 255real,
            0real <= b <= 255real,
    {
        assert(y == (1real - part) * a + part * b);
        assert(0real <= (1real - part) * a <= (1real - part) * 255real);
        assert(0real <= part * b <= part * 255real);
    }
    clamps_are_close(value(q), y, 0real, 255real, 950000real * t);
}

/// A stop of a gradient: its place and its colour are from 0 to 1.
pub open spec fn is_stop(s: Stop) -> bool {
    &&& is_share(s.position)
    &&& is_share(s.color.r) && is_share(s.color.g) && is_share(s.color.b)
}

/// The straight line from one value to another.
pub open spec fn on_line(from: real, to: real, part: real) -> real {
    from + part * (to - from)
}

proof fn line_is_near(a: Real, b: Real, t: Real, part: real)
    requires
        is_share(a),
        is_share(b),
        near(t, part, 10000real * trace()),
        0real <= part <= 1real,
    ensures
        near(
            a.plus(t.times(b.minus(a))),
            on_line(value(a), value(b), part),
            20000real * trace(),
        ),
{
    let e = trace();
    let (x, y) = (value(a), value(b));
    near_minus(b, y, 0real, a, x, 0real, e);
    let d = y - x;
    near_by(t, part, 10000real * e, 2real, b.minus(a), d, e, 11real / 10real, 12000real * e);
    assert(-1real <= part * d <= 1real) by (nonlinear_arith)
        requires
            0real <= part <= 1real,
            -1real <= d <= 1real,
    ;
    near_plus(a, x, 0real, t.times(b.minus(a)), part * d, 12000real * e, 13000real * e);
}

/// A colour lies on the straight line between those of two stops.
pub open spec fn is_between(c: Triple, p: Stop, q: Stop, part: real) -> bool {
    &&& near(c.r, on_line(value(p.color.r), value(q.color.r), part), 1real / 10000000real)
    &&& near(c.g, on_line(value(p.color.g), value(q.color.g), part), 1real / 10000000real)
    &&& near(c.b, on_line(value(p.color.b), value(q.color.b), part), 1real / 10000000real)
}

proof fn between_is_near(p: Stop, q: Stop, luma: Real)
    requires
        is_stop(p),
        is_stop(q),
        value(q.position) - value(p.position) >= 1real / 1000real,
        is_number(luma),
        value(p.position) <= value(luma) <= value(q.position),
    ensures
        is_between(
            between_stops(p, q, luma),
            p,
            q,
            (value(luma) - value(p.position)) / (value(q.position) - value(p.position)),
        ),
{
    let e = trace();
    let (a, b, l) = (value(p.position), value(q.position), value(luma));
    near_minus(q.position, b, 0real, p.position, a, 0real, e);
    let span = q.position.minus(p.position);
    zero_is_zero();
    order_is_that_of_values(Real { bits: ZERO }, span);
    near_minus(luma, l, 0real, p.position, a, 0real, e);
    let part = (l - a) / (b - a);
    let (x, y) = (l - a, b - a);
    near_over(luma.minus(p.position), x, e, span, y, e, 1000real, 1real, 5000real * e);
    assert(0real <= part <= 1real) by (nonlinear_arith)
        requires
            part == x / y,
            0real <= x <= y,
            y > 0real,
    ;
    let t = luma.minus(p.position).over(span);
    line_is_near(p.color.r, q.color.r, t, part);
    line_is_near(p.color.g, q.color.g, t, part);
    line_is_near(p.color.b, q.color.b, t, part);
}

/// A gradient has the first colour up to the first stop, the last colour from the last stop
/// on, and between two stops the straight line from one colour to the other.
pub proof fn gradient_is_straight(stops: Seq<Stop>, luma: Real, i: int)
    requires
        stops.len() >= 2,
        forall|k: int| 0 <= k < stops.len() ==> is_stop(#[trigger] stops[k]),
        forall|k: int|
            0 <= k < stops.len() - 1 ==> value(stops[k + 1].position) - value(
                (#[trigger] stops[k]).position,
            ) >= 1real / 1000real,
        is_number(luma),
        0 <= i < stops.len() - 1,
    ensures
        value(luma) <= value(stops[0].position) ==> gradient_colour(stops, luma) == stops[0].color,
        value(luma) >= value(stops.last().position) ==> gradient_colour(stops, luma)
            == stops.last().color,
        value(stops[i].position) < value(luma) < value(stops[i + 1].position) ==> is_between(
            gradient_colour(stops, luma),
            stops[i],
            stops[i + 1],
            (value(luma) - value(stops[i].position)) / (value(stops[i + 1].position) - value(
                stops[i].position,
            )),
        ),
{
    let n = stops.len() - 1;
    assert(is_stop(stops[0]) && is_stop(stops[n]) && is_stop(stops[i]) && is_stop(stops[i + 1]));
    order_is_that_of_values(luma, stops[0].position);
    order_is_that_of_values(stops[n].position, luma);
    stops_rise(stops, 0, n);
    stops_rise(stops, 0, i);
    stops_rise(stops, i + 1, n);
    if value(stops[i].position) < value(luma) < value(stops[i + 1].position) {
        finds_stretch(stops, luma, 0, i);
        between_is_near(stops[i], stops[i + 1], luma);
    }
}

/// Later stops lie further on.
proof fn stops_rise(stops: Seq<Stop>, a: int, b: int)
    requires
        0 <= a <= b < stops.len(),
        forall|k: int|
            0 <= k < stops.len() - 1 ==> value(stops[k + 1].position) - value(
                (#[trigger] stops[k]).position,
            ) >= 1real / 1000real,
    ensures
        value(stops[a].position) <= value(stops[b].position),
        a < b ==> value(stops[a].position) < value(stops[b].position),
    decreases b - a,
{
    if a < b {
        stops_rise(stops, a, b - 1);
        assert(stops[b] == stops[(b - 1) + 1]);
        assert(value(stops[(b - 1) + 1].position) - value(stops[b - 1].position) >= 1real
            / 1000real);
    }
}

/// The stretch that holds a value is found.
proof fn finds_stretch(stops: Seq<Stop>, luma: Real, a: int, i: int)
    requires
        0 <= a <= i < stops.len() - 1,
        forall|k: int| 0 <= k < stops.len() ==> is_stop(#[trigger] stops[k]),
        forall|k: int|
            0 <= k < stops.len() - 1 ==> value(stops[k + 1].position) - value(
                (#[trigger] stops[k]).position,
            ) >= 1real / 1000real,
        is_number(luma),
        value(stops[i].position) < value(luma) < value(stops[i + 1].position),
    ensures
        colour_from(stops, luma, a) == between_stops(stops[i], stops[i + 1], luma),
    decreases i - a,
{
    assert(is_stop(stops[a]) && is_stop(stops[a + 1]));
    order_is_that_of_values(stops[a].position, luma);
    order_is_that_of_values(luma, stops[a + 1].position);
    if a < i {
        stops_rise(stops, a + 1, i);
        finds_stretch(stops, luma, a + 1, i);
    }
}

/// Stretched levels: a channel lies between the bounds as the result lies between 0 and 1.
pub proof fn stretching_is_straight(v: Real32, low: Real32, high: Real32)
    requires
        is_part(v),
        is_part(low),
        is_part(high),
        single::value(high) - single::value(low) >= 1real / 1000real,
    ensures
        single_near::near(
            stretched(v, low, high),
            kept_within(
                (single::value(v) - single::value(low)) / (single::value(high) - single::value(
                    low,
                )),
                0real,
                1real,
            ),
            4real * mote(),
        ),
{
    let t = trace();
    let (zero, one) = (Real { bits: ZERO }, Real { bits: ONE });
    zero_is_zero();
    some_values();
    widened_value(v);
    widened_value(low);
    widened_value(high);
    single_near::order_is_that_of_values(high, low);
    let (x, a, b) = (single::value(v), single::value(low), single::value(high));
    near_minus(v.widened(), x, 0real, low.widened(), a, 0real, t);
    near_minus(high.widened(), b, 0real, low.widened(), a, 0real, t);
    let (p, q) = (v.widened().minus(low.widened()), high.widened().minus(low.widened()));
    near_over(p, x - a, t, q, b - a, t, 1000real, 1000real, 3000000real * t);
    let r = p.over(q);
    let y = (x - a) / (b - a);
    clamped_value(r, zero, one);
    clamps_are_close(value(r), y, 0real, 1real, 3000000real * t);
    narrowed_is_near(r.clamped(zero, one));
}

/// Part of the way from one channel to another.
proof fn way_is_near(a: Real32, b: Real32, w: Real32, part: real)
    requires
        is_part(a),
        is_part(b),
        single_near::near(w, part, 2real * mote()),
        0real <= part <= 1real,
    ensures
        single_near::near(
            a.plus(b.minus(a).times(w)),
            on_line(single::value(a), single::value(b), part),
            10real * mote(),
        ),
{
    let m = mote();
    let (x, y) = (single::value(a), single::value(b));
    single_near::near_minus(b, y, 0real, a, x, 0real, m);
    let d = y - x;
    single_near::near_by(b.minus(a), d, m, 2real, w, part, 2real * m, 2real, 7real * m);
    assert(d * part == part * d) by (nonlinear_arith);
    assert(-1real <= part * d <= 1real) by (nonlinear_arith)
        requires
            0real <= part <= 1real,
            -1real <= d <= 1real,
    ;
    single_near::near_plus(a, x, 0real, b.minus(a).times(w), part * d, 7real * m, 8real * m);
}

/// The channels of a colour are parts.
pub open spec fn is_colour(p: Rgba32) -> bool {
    is_part(p.r) && is_part(p.g) && is_part(p.b) && is_part(p.a)
}

/// A colour lies part of the way from one to another.
pub open spec fn is_on_way(q: Rgba32, from: Rgba32, to: Rgba32, part: real) -> bool {
    let e = 10real * mote();
    &&& single_near::near(q.r, on_line(single::value(from.r), single::value(to.r), part), e)
    &&& single_near::near(q.g, on_line(single::value(from.g), single::value(to.g), part), e)
    &&& single_near::near(q.b, on_line(single::value(from.b), single::value(to.b), part), e)
    &&& single_near::near(q.a, on_line(single::value(from.a), single::value(to.a), part), e)
}

proof fn ends_of_line(x: real, y: real)
    ensures
        on_line(x, y, 0real) == x,
        on_line(x, y, 1real) == y,
{
    let d = y - x;
    assert(0real * d == 0real && 1real * d == d) by (nonlinear_arith);
}

/// The ends of a way.
proof fn ends_of_way(from: Rgba32, to: Rgba32)
    ensures
        is_colour(from) ==> is_on_way(from, from, to, 0real),
        is_colour(to) ==> is_on_way(to, from, to, 1real),
{
    ends_of_line(single::value(from.r), single::value(to.r));
    ends_of_line(single::value(from.g), single::value(to.g));
    ends_of_line(single::value(from.b), single::value(to.b));
    ends_of_line(single::value(from.a), single::value(to.a));
}

/// Under a mask a pixel goes as far from what it was to what it would be as its weight says.
pub proof fn mask_mixes(before: Rgba32, after: Rgba32, w: Real32)
    requires
        is_colour(before),
        is_colour(after),
        is_part(w),
    ensures
        is_on_way(blended(before, after, w), before, after, single::value(w)),
{
    single_near::short_values();
    single_near::order_is_that_of_values(w, Real32 { bits: SHORT_ONE });
    single_near::order_is_that_of_values(w, Real32 { bits: SHORT_ZERO });
    ends_of_way(before, after);
    let part = single::value(w);
    way_is_near(before.r, after.r, w, part);
    way_is_near(before.g, after.g, w, part);
    way_is_near(before.b, after.b, w, part);
    way_is_near(before.a, after.a, w, part);
}

/// A cloned or healed pixel goes as far from what it was to what it takes on as its weight
/// says.
pub proof fn discs_mix(base: Rgba32, to: Rgba32, w: Real)
    requires
        is_colour(base),
        is_colour(to),
        is_share(w),
    ensures
        is_on_way(laid_over(base, to, w), base, to, value(w)),
{
    some_values();
    order_is_that_of_values(Real { bits: ONE }, w);
    narrowed_is_near(w);
    ends_of_way(base, to);
    let part = value(w);
    let wf = w.narrowed();
    way_is_near(base.r, to.r, wf, part);
    way_is_near(base.g, to.g, wf, part);
    way_is_near(base.b, to.b, wf, part);
    way_is_near(base.a, to.a, wf, part);
}

/// A healed channel has the detail of its source, which is what that has beyond its own tone,
/// on the tone of the place that it comes to.
pub proof fn healing_keeps_detail(source: Real32, source_tone: Real32, tone: Real32)
    requires
        is_part(source),
        is_part(source_tone),
        is_part(tone),
    ensures
        single_near::near(
            healed_channel(source, source_tone, tone),
            kept_within(
                single::value(source) - single::value(source_tone) + single::value(tone),
                0real,
                1real,
            ),
            3real * mote(),
        ),
{
    single_near::short_values();
    let m = mote();
    let (zero, one) = (Real32 { bits: SHORT_ZERO }, Real32 { bits: SHORT_ONE });
    let (x, y, z) = (single::value(source), single::value(source_tone), single::value(tone));
    single_near::near_minus(source, x, 0real, source_tone, y, 0real, m);
    single_near::near_plus(source.minus(source_tone), x - y, m, tone, z, 0real, 2real * m);
    let r = source.minus(source_tone).plus(tone);
    single_near::clamped_value(r, zero, one);
    clamps_are_close(single::value(r), x - y + z, 0real, 1real, 2real * m);
}

/// The luminance of a colour: the channels by the shares of red, green and blue.
pub open spec fn luminance(r: real, g: real, b: real) -> real {
    2126real / 10000real * r + 7152real / 10000real * g + 722real / 10000real * b
}

proof fn luminance_is_near(r: Real, x: real, g: Real, y: real, b: Real, z: real)
    requires
        near(r, x, 0real) && 0real <= x <= 255real,
        near(g, y, 0real) && 0real <= y <= 255real,
        near(b, z, 0real) && 0real <= z <= 255real,
    ensures
        near(
            (Real { bits: LUMA_R }).times(r).plus((Real { bits: LUMA_G }).times(g)).plus(
                (Real { bits: LUMA_B }).times(b),
            ),
            luminance(x, y, z),
            1000real * trace(),
        ),
{
    balance_law::shares();
    let t = trace();
    let (k, l, n) = (Real { bits: LUMA_R }, Real { bits: LUMA_G }, Real { bits: LUMA_B });
    let (p, q, s) = (2126real / 10000real, 7152real / 10000real, 722real / 10000real);
    near_by(k, p, t, 1real, r, x, 0real, 255real, 256real * t);
    near_by(l, q, t, 1real, g, y, 0real, 255real, 256real * t);
    near_by(n, s, t, 1real, b, z, 0real, 255real, 256real * t);
    let (i, j, h) = (k.times(r), l.times(g), n.times(b));
    near_plus(i, p * x, 256real * t, j, q * y, 256real * t, 600real * t);
    near_plus(i.plus(j), p * x + q * y, 600real * t, h, s * z, 256real * t, 1000real * t);
}

/// The luminance that images are measured by.
pub proof fn measured_luminance(r: u8, g: u8, b: u8)
    ensures
        near(
            exact_luma(r, g, b),
            luminance(r as real, g as real, b as real),
            1real / 100000000real,
        ),
{
    wholes_are_themselves(r as nat);
    wholes_are_themselves(g as nat);
    wholes_are_themselves(b as nat);
    luminance_is_near(
        Real::nearest_to(r as int),
        r as real,
        Real::nearest_to(g as int),
        g as real,
        Real::nearest_to(b as int),
        b as real,
    );
}

/// The luminance that gradients are looked up at.
pub proof fn gradient_luminance(p: Rgba32)
    requires
        is_part(p.r) && is_part(p.g) && is_part(p.b),
    ensures
        near(
            luma_of(p),
            luminance(single::value(p.r), single::value(p.g), single::value(p.b)),
            1real / 100000000real,
        ),
{
    widened_value(p.r);
    widened_value(p.g);
    widened_value(p.b);
    luminance_is_near(
        p.r.widened(),
        single::value(p.r),
        p.g.widened(),
        single::value(p.g),
        p.b.widened(),
        single::value(p.b),
    );
}

} // verus!
