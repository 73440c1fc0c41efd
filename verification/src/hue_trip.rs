//! A colour comes back from its hue, saturation and lightness, to the byte.
use vstd::prelude::*;

use crate::binary::Real;
use crate::curve_shape::{
    fine, fine_difference, fine_product, fine_quotient, fine_sum, multiples_are_small,
};
use crate::exact::{difference_with_itself, is_number};
use crate::float::{negative, Width};
use crate::growth::larger_product;
use crate::nearness::{grain, near, near_product, slack_is_small};
use crate::number::{BYTE_MAX, FOUR, FULL_TURN, HALF, ONE, SIX, SIXTY, TWO, ZERO};
use crate::ops::hsl::{
    hsl_of, in_turn, largest, part, part_to_byte, rgb_of, sector, smallest, Hsl,
};
use crate::tangents::is_positive;
use crate::units::units;
use crate::value::{
    magnitude_by_parts, order_is_by_value, product_rounds, quotient_rounds, size, some_values,
    value, wheel_values, wholes_are_themselves, zero_is_zero,
};
use crate::remainders::{floor_is_near, remainder_is_exact};
use crate::whole_steps::{round_is_near, small_rounds_to_zero};

verus! {

/// A value from 0 to 1, or the end of that range that it is beyond.
spec fn in_unit(x: real) -> real {
    if x < 0real {
        0real
    } else if x > 1real {
        1real
    } else {
        x
    }
}

/// How much of red, of green and of blue there is at a place of the wheel, from 0 to 6.
spec fn red_at(p: real) -> real {
    in_unit(size(p - 3real) - 1real)
}

spec fn green_at(p: real) -> real {
    in_unit(2real - size(p - 2real))
}

spec fn blue_at(p: real) -> real {
    in_unit(2real - size(p - 4real))
}

/// The way up and down between the corners of the wheel.
spec fn slant(p: real, k: int) -> real {
    if k % 2 == 0 {
        p - k as real
    } else {
        (k + 1) as real - p
    }
}

/// In each sector one of the channels is full, one is empty, and one is on its way.
proof fn sectors(p: real, k: int)
    requires
        0 <= k <= 5,
        k as real <= p < (k + 1) as real,
    ensures
        k == 0 ==> red_at(p) == 1real && green_at(p) == slant(p, k) && blue_at(p) == 0real,
        k == 1 ==> red_at(p) == slant(p, k) && green_at(p) == 1real && blue_at(p) == 0real,
        k == 2 ==> red_at(p) == 0real && green_at(p) == 1real && blue_at(p) == slant(p, k),
        k == 3 ==> red_at(p) == 0real && green_at(p) == slant(p, k) && blue_at(p) == 1real,
        k == 4 ==> red_at(p) == slant(p, k) && green_at(p) == 0real && blue_at(p) == 1real,
        k == 5 ==> red_at(p) == 1real && green_at(p) == 0real && blue_at(p) == slant(p, k),
        0real <= slant(p, k) <= 1real,
{
}

/// Places that are close together have channels that are close together.
proof fn close_places(p: real, q: real, e: real)
    requires
        -e <= p - q <= e,
    ensures
        -e <= red_at(p) - red_at(q) <= e,
        -e <= green_at(p) - green_at(q) <= e,
        -e <= blue_at(p) - blue_at(q) <= e,
{
}

/// The place of a colour on the wheel.
spec fn place_of(r: u8, g: u8, b: u8) -> real {
    let top = largest(r, g, b);
    let d = (top - smallest(r, g, b)) as real;
    if top == r {
        let v = (g - b) as real / d;
        if v < 0real {
            v + 6real
        } else {
            v
        }
    } else if top == g {
        (b - r) as real / d + 2real
    } else {
        (r - g) as real / d + 4real
    }
}

/// A quotient by a positive number.
proof fn quotient_is(x: real, d: real) -> (q: real)
    requires
        d > 0real,
        -d <= x <= d,
    ensures
        q == x / d,
        q * d == x,
        -1real <= q <= 1real,
        x > 0real ==> q > 0real,
        x < 0real ==> q < 0real,
        x == 0real ==> q == 0real,
{
    let q = x / d;
    assert(q * d == x) by (nonlinear_arith)
        requires
            q == x / d,
            d > 0real,
    ;
    if q > 1real {
        larger_product(1real, q, d);
        assert(q * d > d) by (nonlinear_arith)
            requires
                q > 1real,
                d > 0real,
        ;
    }
    if q < -1real {
        assert(q * d < -d) by (nonlinear_arith)
            requires
                q < -1real,
                d > 0real,
        ;
    }
    if q > 0real {
        assert(q * d > 0real) by (nonlinear_arith)
            requires
                q > 0real,
                d > 0real,
        ;
    }
    if q < 0real {
        assert(q * d < 0real) by (nonlinear_arith)
            requires
                q < 0real,
                d > 0real,
        ;
    }
    assert(0real * d == 0real);
    q
}

/// At the place of a colour the channels are in the proportions of the colour.
proof fn channels_of(r: u8, g: u8, b: u8)
    requires
        largest(r, g, b) != smallest(r, g, b),
    ensures
        ({
            let p = place_of(r, g, b);
            let low = smallest(r, g, b);
            let d = (largest(r, g, b) - low) as real;
            &&& 0real <= p <= 6real - 1real / 255real
            &&& red_at(p) * d == (r - low) as real
            &&& green_at(p) * d == (g - low) as real
            &&& blue_at(p) * d == (b - low) as real
        }),
{
    let top = largest(r, g, b);
    let low = smallest(r, g, b);
    let d = (top - low) as real;
    let x = if top == r {
        (g - b) as real
    } else if top == g {
        (b - r) as real
    } else {
        (r - g) as real
    };
    let q = quotient_is(x, d);
    assert(0real * d == 0real && 1real * d == d);
    assert((-q) * d == -(q * d)) by (nonlinear_arith);
    if x < 0real && q > -(1real / 255real) {
        assert(q * d > -1real) by (nonlinear_arith)
            requires
                q > -(1real / 255real),
                0real < d <= 255real,
        ;
    }
}

/// A byte as a part of 255.
pub proof fn part_is_near(v: u8)
    ensures
        near(part(v), v as real / 255real, 1real * fine()),
{
    wheel_values();
    wholes_are_themselves(v as nat);
    assert(0real * fine() == 0real);
    fine_quotient(
        Real::of_byte(v),
        v as real,
        0real,
        Real { bits: BYTE_MAX },
        255real,
        0real,
        1real,
        1real,
        1real,
    );
}

/// The largest and the smallest part: their sum, the lightness and their difference.
proof fn parts_are_near(top: u8, low: u8)
    requires
        low < top,
    ensures
        ({
            let (max, min, two) = (part(top), part(low), Real { bits: TWO });
            let (x, y) = (top as real / 255real, low as real / 255real);
            &&& near(max.plus(min), x + y, 3real * fine())
            &&& near(max.plus(min).over(two), (x + y) / 2real, 7real * fine())
            &&& near(max.minus(min), x - y, 3real * fine())
            &&& near(two.minus(max).minus(min), 2real - x - y, 4real * fine())
        }),
{
    let (max, min, two) = (part(top), part(low), Real { bits: TWO });
    let (x, y) = (top as real / 255real, low as real / 255real);
    part_is_near(top);
    part_is_near(low);
    some_values();
    assert(0real * fine() == 0real);
    fine_sum(max, x, 1real, min, y, 1real, 2real, 3real);
    fine_quotient(max.plus(min), x + y, 3real, two, 2real, 0real, 1real, 1real, 7real);
    fine_difference(max, x, 1real, min, y, 1real, 2real, 3real);
    fine_difference(two, 2real, 0real, max, x, 1real, 3real, 2real);
    fine_difference(two.minus(max), 2real - x, 2real, min, y, 1real, 3real, 4real);
}

proof fn times_quotient(u: real, d: real)
    requires
        u > 0real,
    ensures
        u * (d / u) == d,
{
    assert(u * (d / u) == d) by (nonlinear_arith)
        requires
            u > 0real,
    ;
}

/// The saturation of a colour, as it is computed from its largest and smallest part.
spec fn saturation(top: u8, low: u8) -> Real {
    let (max, min, two) = (part(top), part(low), Real { bits: TWO });
    let l = max.plus(min).over(two);
    let d = max.minus(min);
    if l.at_most(Real { bits: HALF }) {
        d.over(max.plus(min))
    } else {
        d.over(two.minus(max).minus(min))
    }
}

/// The chroma of a colour, as it is computed from its saturation and lightness.
spec fn chroma(top: u8, low: u8) -> Real {
    let two = Real { bits: TWO };
    let l = part(top).plus(part(low)).over(two);
    let s = saturation(top, low);
    if l.at_most(Real { bits: HALF }) {
        two.times(l).times(s)
    } else {
        two.minus(two.times(l)).times(s)
    }
}

/// What the saturation of a colour is about: its chroma, over as much as there can be.
spec fn fullness(top: u8, low: u8) -> real {
    let (x, y) = (top as real / 255real, low as real / 255real);
    let l = part(top).plus(part(low)).over(Real { bits: TWO });
    if l.at_most(Real { bits: HALF }) {
        x + y
    } else {
        2real - x - y
    }
}

/// The saturation is positive and about what it should be.
proof fn saturation_is_near(top: u8, low: u8)
    requires
        low < top,
    ensures
        ({
            let (x, y) = (top as real / 255real, low as real / 255real);
            let u = fullness(top, low);
            &&& 1real / 255real <= u <= 2real
            &&& 0real <= (x - y) / u <= 1real
            &&& near(saturation(top, low), (x - y) / u, 4000real * fine())
            &&& value(saturation(top, low)) > 0real
        }),
{
    let (max, min, two) = (part(top), part(low), Real { bits: TWO });
    let (x, y) = (top as real / 255real, low as real / 255real);
    let u = fullness(top, low);
    parts_are_near(top, low);
    let d = max.minus(min);
    let q = quotient_is(x - y, u);
    if max.plus(min).over(two).at_most(Real { bits: HALF }) {
        fine_quotient(d, x - y, 3real, max.plus(min), u, 3real, 255real, 1real, 4000real);
    } else {
        fine_quotient(d, x - y, 3real, two.minus(max).minus(min), u, 4real, 255real, 1real, 4000real);
    }
    // It is at least one part in 510.
    if q < 1real / 510real {
        larger_product(q, 1real / 510real, u);
        assert(q * u < (1real / 510real) * u) by (nonlinear_arith)
            requires
                q < 1real / 510real,
                u > 0real,
        ;
    }
    multiples_are_small(4000real);
    assert(4000real * fine() < 1real / 510real);
}

/// The chroma and the smallest part.
proof fn chroma_is_near(top: u8, low: u8)
    requires
        low < top,
    ensures
        ({
            let two = Real { bits: TWO };
            let (x, y) = (top as real / 255real, low as real / 255real);
            let l = part(top).plus(part(low)).over(two);
            let c = chroma(top, low);
            &&& near(c, x - y, 12100real * fine())
            &&& near(l.minus(c.over(two)), y, 24300real * fine())
        }),
{
    let two = Real { bits: TWO };
    let (x, y) = (top as real / 255real, low as real / 255real);
    let l = part(top).plus(part(low)).over(two);
    let c = chroma(top, low);
    let s = saturation(top, low);
    let u = fullness(top, low);
    parts_are_near(top, low);
    saturation_is_near(top, low);
    some_values();
    assert(0real * fine() == 0real);
    times_quotient(u, x - y);
    let v = (x + y) / 2real;
    fine_product(two, 2real, 0real, 3real, l, v, 7real, 2real, 22real);
    assert(2real * v == x + y);
    let t = (x - y) / u;
    if l.at_most(Real { bits: HALF }) {
        fine_product(two.times(l), x + y, 22real, 3real, s, t, 4000real, 2real, 12100real);
    } else {
        fine_difference(two, 2real, 0real, two.times(l), x + y, 22real, 3real, 23real);
        fine_product(two.minus(two.times(l)), u, 23real, 3real, s, t, 4000real, 2real, 12100real);
    }
    fine_quotient(c, x - y, 12100real, two, 2real, 0real, 1real, 1real, 24250real);
    fine_difference(l, v, 7real, c.over(two), (x - y) / 2real, 24250real, 2real, 24300real);
}

/// A number is below zero exactly if its value is.
pub proof fn below_zero(v: Real)
    requires
        is_number(v),
    ensures
        v.below(Real { bits: ZERO }) <==> value(v) < 0real,
        value(v) > 0real ==> is_positive(v),
{
    let zero = Real { bits: ZERO };
    magnitude_by_parts(v.bits);
    zero_is_zero();
    if !negative(Width::Double, v.bits) {
        order_is_by_value(v, zero);
    } else {
        let w = v.absolute();
        assert(!negative(Width::Double, w.bits));
        assert(units(Width::Double, w.bits) == units(Width::Double, v.bits));
        order_is_by_value(zero, w);
    }
}

/// The way from one channel to another, over the way from the smallest to the largest.
proof fn way_is_near(u: u8, w: u8, top: u8, low: u8)
    requires
        low < top,
        low <= u <= top,
        low <= w <= top,
    ensures
        ({
            let v = part(u).minus(part(w)).over(part(top).minus(part(low)));
            let q = (u - w) as real / (top - low) as real;
            &&& near(v, q, 3100real * fine())
            &&& -1real <= q <= 1real
            &&& u == w ==> is_positive(v)
            &&& u > w ==> q >= 1real / 255real
            &&& u < w ==> q <= -(1real / 255real)
            &&& u == w ==> q == 0real
        }),
{
    let (a, b, d) = (part(u), part(w), part(top).minus(part(low)));
    let (x, y) = (u as real / 255real, w as real / 255real);
    part_is_near(u);
    part_is_near(w);
    parts_are_near(top, low);
    let z = top as real / 255real - low as real / 255real;
    fine_difference(a, x, 1real, b, y, 1real, 2real, 3real);
    assert(z * 255real >= 1real);
    assert(size(x - y) <= 1real * z);
    fine_quotient(a.minus(b), x - y, 3real, d, z, 3real, 255real, 1real, 3100real);
    let (m, n) = ((u - w) as real, (top - low) as real);
    let q = quotient_is(m, n);
    same_ratio(m, n);
    assert(x - y == m / 255real && z == n / 255real);
    if u == w {
        reveal(Real::spec_plus);
        reveal(Real::spec_negated);
        difference_with_itself(Width::Double, a.bits);
        zero_is_zero();
        slack_is_small(0real, 0real);
        below_zero(d);
        multiples_are_small(3real);
        quotient_rounds(a.minus(b), d);
    }
    if u > w && q < 1real / 255real {
        assert(q * n < 1real) by (nonlinear_arith)
            requires
                q < 1real / 255real,
                0real < n <= 255real,
        ;
    }
    if u < w && q > -(1real / 255real) {
        assert(q * n > -1real) by (nonlinear_arith)
            requires
                q > -(1real / 255real),
                0real < n <= 255real,
        ;
    }
}

proof fn same_ratio(m: real, n: real)
    requires
        n > 0real,
    ensures
        (m / 255real) / (n / 255real) == m / n,
{
    assert((m / 255real) / (n / 255real) == m / n) by (nonlinear_arith)
        requires
            n > 0real,
    ;
}

/// The sector of a colour is near its place, and not negative.
proof fn sector_is_near(r: u8, g: u8, b: u8)
    requires
        largest(r, g, b) != smallest(r, g, b),
    ensures
        near(sector(r, g, b), place_of(r, g, b), 3200real * fine()),
        is_positive(sector(r, g, b)),
{
    let (top, low) = (largest(r, g, b), smallest(r, g, b));
    let zero = Real { bits: ZERO };
    some_values();
    wheel_values();
    multiples_are_small(3200real);
    assert(3200real * fine() < 1real / 255real);
    assert(0real * fine() == 0real);
    let d = part(top).minus(part(low));
    let n = (top - low) as real;
    if top == r {
        way_is_near(g, b, top, low);
        let v = part(g).minus(part(b)).over(d);
        let q = (g - b) as real / n;
        below_zero(v);
        if g < b {
            let six = Real { bits: SIX };
            fine_sum(v, q, 3100real, six, 6real, 0real, 8real, 3200real);
            below_zero(v.plus(six));
        }
    } else if top == g {
        way_is_near(b, r, top, low);
        let v = part(b).minus(part(r)).over(d);
        let two = Real { bits: TWO };
        fine_sum(v, (b - r) as real / n, 3100real, two, 2real, 0real, 8real, 3200real);
        below_zero(v.plus(two));
    } else {
        way_is_near(r, g, top, low);
        let v = part(r).minus(part(g)).over(d);
        let four = Real { bits: FOUR };
        fine_sum(v, (r - g) as real / n, 3100real, four, 4real, 0real, 8real, 3200real);
        below_zero(v.plus(four));
    }
}

/// The hue as a place of the wheel again.
proof fn hue_is_near(r: u8, g: u8, b: u8)
    requires
        largest(r, g, b) != smallest(r, g, b),
    ensures
        ({
            let h = sector(r, g, b).times(Real { bits: SIXTY });
            let hp = in_turn(h).over(Real { bits: SIXTY });
            &&& near(hp, place_of(r, g, b), 392000real * fine())
            &&& is_positive(hp)
        }),
{
    let (s, p) = (sector(r, g, b), place_of(r, g, b));
    let (sixty, turn) = (Real { bits: SIXTY }, Real { bits: FULL_TURN });
    let zero = Real { bits: ZERO };
    sector_is_near(r, g, b);
    channels_of(r, g, b);
    wheel_values();
    assert(0real * fine() == 0real);
    multiples_are_small(200000real);
    fine_product(s, p, 3200real, 8real, sixty, 60real, 0real, 61real, 195300real);
    let h = s.times(sixty);
    slack_is_small(0real, 0real);
    below_zero(sixty);
    below_zero(turn);
    multiples_are_small(3200real);
    product_rounds(s, sixty);
    order_is_by_value(h, turn);
    assert(value(h) < 360real);
    let k = remainder_is_exact(h, turn);
    let left = h.left_of(turn);
    assert(k == 0);
    below_zero(left);
    order_is_by_value(left, turn);
    assert(in_turn(h) == left);
    fine_quotient(left, p * 60real, 195300real, sixty, 60real, 0real, 1real, 6real, 392000real);
    assert((p * 60real) / 60real == p);
    quotient_rounds(left, sixty);
}

/// The way up and down, as it is computed at a place.
proof fn slant_is_near(hp: Real) -> (k: int)
    requires
        is_positive(hp),
        value(hp) < 6real,
    ensures
        0 <= k <= 5,
        hp.floor_integer() == k,
        k as real <= value(hp) < (k + 1) as real,
        ({
            let (one, two) = (Real { bits: ONE }, Real { bits: TWO });
            near(
                one.minus(hp.left_of(two).minus(one).absolute()),
                slant(value(hp), k),
                2real * fine(),
            )
        }),
{
    let (one, two) = (Real { bits: ONE }, Real { bits: TWO });
    some_values();
    slack_is_small(0real, 0real);
    order_is_by_value(hp, hp);
    below_zero(two);
    let p = value(hp);
    let k = floor_is_near(hp) as int;
    let j = remainder_is_exact(hp, two);
    let rem = hp.left_of(two);
    assert(k == 2 * j || k == 2 * j + 1);
    assert(0real * fine() == 0real);
    let q = value(rem);
    fine_difference(rem, q, 0real, one, 1real, 0real, 3real, 1real);
    let m = rem.minus(one);
    let a = m.absolute();
    magnitude_by_parts(m.bits);
    magnitude_by_parts(a.bits);
    assert(units(Width::Double, a.bits) == units(Width::Double, m.bits));
    assert(value(a) == size(value(m)));
    fine_difference(one, 1real, 0real, a, size(q - 1real), 1real, 2real, 2real);
    k
}

/// A number near a part of 255 is in its byte.
pub proof fn byte_is(v: Real, y: u8)
    requires
        near(v, y as real / 255real, 450000real * fine()),
    ensures
        part_to_byte(v) == y,
{
    wheel_values();
    assert(0real * fine() == 0real);
    let top = Real { bits: BYTE_MAX };
    let x = y as real / 255real;
    multiples_are_small(450000real);
    near_bytes(v, x, top);
    let a = v.times(top);
    assert(x * 255real == y as real);
    if negative(Width::Double, a.bits) {
        magnitude_by_parts(a.bits);
        assert(y == 0);
        small_rounds_to_zero(a);
    } else {
        let n = round_is_near(a);
        assert(n == y);
    }
}

proof fn near_bytes(v: Real, x: real, top: Real)
    requires
        near(v, x, 450000real * fine()),
        0real <= x <= 1real,
        near(top, 255real, 0real),
    ensures
        near(v.times(top), x * 255real, 1real / 1000real),
{
    let (f, g) = (fine(), grain());
    multiples_are_small(450000real);
    assert(2real * 0real + 255real * (450000real * f) + (2real * 255real + 1real) * g <= 1real
        / 1000real) by (nonlinear_arith)
        requires
            g == f / 8real,
            0real < f <= 1real / 1000000000000real,
    ;
    near_product(v, x, 450000real * f, 2real, top, 255real, 0real, 255real, 1real / 1000real);
}

/// Close values stay close when they are scaled down.
proof fn scaled_close(c: real, a: real, b: real, e: real)
    requires
        0real <= c <= 1real,
        -e <= a - b <= e,
    ensures
        -e <= c * a - c * b <= e,
{
    let d = a - b;
    assert(c * (a - b) == c * a - c * b) by (nonlinear_arith);
    larger_product(d, e, c);
    larger_product(-e, d, c);
    larger_product(c, 1real, e);
    assert(c * (-e) == -(c * e)) by (nonlinear_arith);
}

/// One channel of a colour, from its share of the chroma at a place near its own.
proof fn channel_is(f: Real, m: Real, c: real, low: real, share: real, own: real, y: u8)
    requires
        near(f, c * share, 24300real * fine()),
        near(m, low, 24300real * fine()),
        0real <= c <= 1real,
        0real <= low <= 1real,
        0real <= share <= 1real,
        -(392000real * fine()) <= share - own <= 392000real * fine(),
        c * own + low == y as real / 255real,
    ensures
        part_to_byte(f.plus(m)) == y,
{
    larger_product(0real, c, share);
    larger_product(share, 1real, c);
    assert(0real * share == 0real);
    fine_sum(f, c * share, 24300real, m, low, 24300real, 2real, 50000real);
    scaled_close(c, share, own, 392000real * fine());
    byte_is(f.plus(m), y);
}

/// A colour comes back from its hue, saturation and lightness.
pub proof fn hues_come_back(r: u8, g: u8, b: u8)
    ensures
        match hsl_of(r, g, b) {
            Some(at) => rgb_of(at.h, at.s, at.l) == (r, g, b),
            None => r == g && g == b,
        },
{
    let (top, low) = (largest(r, g, b), smallest(r, g, b));
    if top != low {
        let two = Real { bits: TWO };
        let zero = Real { bits: ZERO };
        let l = part(top).plus(part(low)).over(two);
        let c = chroma(top, low);
        let m = l.minus(c.over(two));
        let at = hsl_of(r, g, b).unwrap();
        assert(at == (Hsl { h: sector(r, g, b).times(Real { bits: SIXTY }), s: saturation(top, low), l }));
        saturation_is_near(top, low);
        chroma_is_near(top, low);
        hue_is_near(r, g, b);
        channels_of(r, g, b);
        let hp = in_turn(at.h).over(Real { bits: SIXTY });
        let own = place_of(r, g, b);
        let (x, y) = (top as real / 255real, low as real / 255real);
        let d = x - y;
        multiples_are_small(392000real);
        assert(392000real * fine() < 1real / 255real);
        let k = slant_is_near(hp);
        let p = value(hp);
        sectors(p, k);
        close_places(p, own, 392000real * fine());
        let t = (Real { bits: ONE }).minus(
            hp.left_of(two).minus(Real { bits: ONE }).absolute(),
        );
        let s = slant(p, k);
        fine_product(c, d, 12100real, 2real, t, s, 2real, 2real, 24300real);
        let xf = c.times(t);
        // The exact channels.
        exact_channel(red_at(own), top, low, r);
        exact_channel(green_at(own), top, low, g);
        exact_channel(blue_at(own), top, low, b);
        zero_is_zero();
        assert(d * 1real == d && d * 0real == 0real);
        assert(near(zero, d * 0real, 24300real * fine()));
        // The saturation is not zero.
        below_zero(at.s);
        order_is_by_value(zero, at.s);
        let (rf, gf, bf) = if k <= 0 {
            (c, xf, zero)
        } else if k == 1 {
            (xf, c, zero)
        } else if k == 2 {
            (zero, c, xf)
        } else if k == 3 {
            (zero, xf, c)
        } else if k == 4 {
            (xf, zero, c)
        } else {
            (c, zero, xf)
        };
        channel_is(rf, m, d, y, red_at(p), red_at(own), r);
        channel_is(gf, m, d, y, green_at(p), green_at(own), g);
        channel_is(bf, m, d, y, blue_at(p), blue_at(own), b);
    }
}

/// A share of the chroma and the smallest part make up a channel.
proof fn exact_channel(share: real, top: u8, low: u8, v: u8)
    requires
        share * (top - low) as real == (v - low) as real,
    ensures
        (top as real / 255real - low as real / 255real) * share + low as real / 255real == v as real
            / 255real,
{
    let n = (top - low) as real;
    assert((n / 255real) * share == (share * n) / 255real) by (nonlinear_arith);
    assert(top as real / 255real - low as real / 255real == n / 255real);
}

} // verus!
