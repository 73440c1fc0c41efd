//! A correction of one keystone angle keeps the whole image in front of the horizon.
use vstd::arithmetic::power2::*;
use vstd::prelude::*;

use crate::binary::Real;
use crate::curve_shape::{fine, fine_product, fine_sum, multiples_are_small};
use crate::exact::is_number;
use crate::float::{negative, unsigned, Width};
use crate::growth::larger_product;
use crate::hue_trip::below_zero;
use crate::nearness::{grain, near, slack_is_small};
use crate::number::{MILLION, ONE, TWO, ZERO};
use crate::ops::perspective::{keystone, unit_length};
use crate::rotate::middle;
use crate::straight_law::grid_is_near;
use crate::transform::{quantize_1e6, Row, Transform};
use crate::units::units;
use crate::value::{
    modest, order_is_by_value, power, product_rounds, quotient_rounds, size,
    slack, some_values, sum_rounds, value, wholes_are_themselves, zero_is_zero,
};
use crate::whole_steps::{round_is_near, round_of_negative};
use crate::wholes::{million_and_billion, wholes_are_millionths};

verus! {

/// Putting a number on the grid moves it by at most two steps.
proof fn grid_moves_little(v: Real, t: real)
    requires
        is_number(v),
        -t <= value(v) <= t,
        0real <= t <= 2real,
    ensures
        is_number(quantize_1e6(v)),
        -(t + 1real / 500000real) <= value(quantize_1e6(v)) <= t + 1real / 500000real,
{
    let m = Real { bits: MILLION };
    million_and_billion();
    assert(Real::nearest_to(1_000_000) == m) by {
        reveal(Real::nearest_to);
    }
    wholes_are_themselves(1_000_000);
    slack_is_small(0real, 0real);
    product_rounds(v, m);
    let a = v.times(m);
    slack_is_small(value(v) * 1000000real, 2000000real);
    let r = a.round();
    if negative(Width::Double, a.bits) {
        round_of_negative(a);
    } else {
        let k = round_is_near(a);
        wholes_are_themselves(k);
    }
    quotient_rounds(r, m);
    slack_is_small(value(r) / 1000000real, 3real);
}

/// One lies on the grid.
pub proof fn one_stays()
    ensures
        quantize_1e6(Real { bits: ONE }) == (Real { bits: ONE }),
{
    let (a, b) = (Real { bits: ONE }, Real::nearest_to(1));
    some_values();
    wholes_are_themselves(1);
    order_is_by_value(a, b);
    order_is_by_value(b, a);
    assert(a == b);
    wholes_are_millionths(1);
}

/// Rounding moves a number of the size of a pixel's share by less than a grain of it.
proof fn share_slack(x: real, z: real)
    requires
        size(x) <= 4real * z,
        1real / 4294967296real <= z <= 1real,
    ensures
        0real <= slack(x) <= fine() * z,
{
    lemma2_to64();
    lemma2_to64_rest();
    lemma_pow2_adds(64, 26);
    lemma_pow2_strictly_increases(90, 1074);
    let (p, q, s) = (power(53), power(1074), size(x));
    assert(p == 9007199254740992real);
    assert(1real / q <= 1real / 1237940039285380274899124224real) by (nonlinear_arith)
        requires
            q >= 1237940039285380274899124224real,
    ;
    assert(1real / q >= 0real) by (nonlinear_arith)
        requires
            q >= 1237940039285380274899124224real,
    ;
    assert(0real <= s / p <= 4real * z / 9007199254740992real) by (nonlinear_arith)
        requires
            0real <= s <= 4real * z,
            p == 9007199254740992real,
    ;
    let f = fine();
    assert(f * z == z / 1125899906842624real) by (nonlinear_arith)
        requires
            f == 1real / 1125899906842624real,
    ;
}

/// A number is within `n` grains of the share of a pixel.
spec fn shares(k: Real, p: real, n: real, z: real) -> bool {
    near(k, p, n * (fine() * z))
}

/// A few grains of the share of a pixel are less than the share.
proof fn grains_are_small(n: real, z: real)
    requires
        0real <= n <= 100real,
        0real <= z <= 1real,
    ensures
        0real <= n * (fine() * z) <= z / 2real,
{
    let f = fine();
    let g = f * z;
    assert(0real <= g <= z / 200real) by (nonlinear_arith)
        requires
            g == f * z,
            0real <= f <= 1real / 200real,
            0real <= z,
    ;
    assert(0real <= n * g <= z / 2real) by (nonlinear_arith)
        requires
            0real <= n <= 100real,
            0real <= g <= z / 200real,
    ;
}

/// One or zero times a share, either way round.
proof fn share_by_constant(k: Real, p: real, n: real, z: real, c: Real)
    requires
        shares(k, p, n, z),
        0real <= n <= 50real,
        size(p) <= 2real * z,
        1real / 4294967296real <= z <= 1real,
        is_number(c),
        value(c) == 0real || value(c) == 1real,
    ensures
        shares(k.times(c), p * value(c), n + 1real, z),
        shares(c.times(k), p * value(c), n + 1real, z),
{
    grains_are_small(n, z);
    slack_is_small(0real, 0real);
    let (x, y) = (value(k), value(c));
    assert(x * y == (if y == 0real { 0real } else { x }) && y * x == x * y) by (nonlinear_arith)
        requires
            y == 0real || y == 1real,
    ;
    assert(p * y == (if y == 0real { 0real } else { p })) by (nonlinear_arith)
        requires
            y == 0real || y == 1real,
    ;
    share_slack(x * y, z);
    product_rounds(k, c);
    product_rounds(c, k);
    let g = fine() * z;
    assert((n + 1real) * g == n * g + g) by (nonlinear_arith);
}

/// The sum of two shares.
proof fn sum_of_shares(u: Real, x: real, n: real, v: Real, y: real, m: real, z: real)
    requires
        shares(u, x, n, z),
        shares(v, y, m, z),
        0real <= n <= 50real,
        0real <= m <= 50real,
        size(x) + size(y) <= 2real * z,
        1real / 4294967296real <= z <= 1real,
    ensures
        shares(u.plus(v), x + y, n + m + 1real, z),
{
    grains_are_small(n, z);
    grains_are_small(m, z);
    slack_is_small(0real, 0real);
    share_slack(value(u) + value(v), z);
    sum_rounds(u, v);
    let g = fine() * z;
    assert((n + m + 1real) * g == n * g + m * g + g) by (nonlinear_arith);
}

/// Nothing times a number.
proof fn nothing_times(v: Real, z: real)
    requires
        modest(v),
        1real / 4294967296real <= z <= 1real,
    ensures
        shares((Real { bits: ZERO }).times(v), 0real, 1real, z),
{
    zero_is_zero();
    slack_is_small(0real, 0real);
    let x = value(v);
    assert(0real * x == 0real);
    product_rounds(Real { bits: ZERO }, v);
    share_slack(0real, z);
    let g = fine() * z;
    assert(1real * g == g);
}

/// A share times a number of pixels.
proof fn share_by_pixels(k: Real, p: real, n: real, z: real, c: Real, s: real)
    requires
        shares(k, p, n, z),
        0real <= n <= 50real,
        size(p) <= 2real * z,
        1real / 4294967296real <= z <= 1real,
        s * z == 1real,
        1real <= s <= 4294967296real,
        is_number(c),
        -s <= value(c) <= s,
    ensures
        near(k.times(c), p * value(c), (n + 1real) * fine()),
        -2real <= p * value(c) <= 2real,
{
    grains_are_small(n, z);
    slack_is_small(0real, 0real);
    let (x, y, g) = (value(k), value(c), fine() * z);
    let e = n * g;
    pixels_times(p, 2real * z, y, s);
    pixels_times(x - p, e, y, s);
    let f = fine();
    assert((2real * z) * s == 2real * (s * z)) by (nonlinear_arith);
    assert(e * s == n * f * (s * z)) by (nonlinear_arith)
        requires
            e == n * (f * z),
    ;
    assert(n * f * 1real == n * f);
    assert((x - p) * y == x * y - p * y) by (nonlinear_arith);
    multiples_are_small(n);
    product_rounds(k, c);
    slack_is_small(x * y, 3real);
    assert((n + 1real) * f == n * f + f) by (nonlinear_arith);
}

/// A number of a size times a number of pixels.
proof fn pixels_times(d: real, e: real, c: real, s: real)
    requires
        -e <= d <= e,
        -s <= c <= s,
        e >= 0real,
        s >= 0real,
    ensures
        -(e * s) <= d * c <= e * s,
{
    assert(-(e * s) <= d * c <= e * s) by (nonlinear_arith)
        requires
            -e <= d <= e,
            -s <= c <= s,
            e >= 0real,
            s >= 0real,
    ;
}

/// A tangent over the length of the unit is a share.
proof fn quotient_shares(a: Real, length: Real, z: real)
    requires
        is_number(a),
        -(11real / 10real) <= value(a) <= 11real / 10real,
        is_number(length),
        1real <= value(length) <= 4294967296real,
        value(length) * z == 1real,
        1real / 4294967296real <= z <= 1real,
    ensures
        shares(a.over(length), value(a) * z, 1real, z),
        size(value(a) * z) <= 2real * z,
{
    slack_is_small(0real, 0real);
    let (x, s) = (value(a), value(length));
    assert(x / s == x * z) by (nonlinear_arith)
        requires
            s * z == 1real,
            s >= 1real,
    ;
    pixels_times(x, 11real / 10real, z, z);
    share_slack(x * z, z);
    quotient_rounds(a, length);
    let g = fine() * z;
    assert(1real * g == g);
}

/// The last row of a tilt that follows a shift.
proof fn tilt_after_shift(
    k: Real,
    p: real,
    m: Real,
    q: real,
    z: real,
    s: real,
    left: Real,
    up: Real,
)
    requires
        shares(k, p, 1real, z),
        shares(m, q, 1real, z),
        size(p) + size(q) <= 2real * z,
        1real / 4294967296real <= z <= 1real,
        s * z == 1real,
        1real <= s <= 4294967296real,
        is_number(left) && -s <= value(left) <= s,
        is_number(up) && -s <= value(up) <= s,
    ensures
        ({
            let r = (Row { x: k, y: m, one: Real { bits: ONE } }).after(
                Transform::translate(left, up),
            );
            &&& shares(r.x, p, 7real, z)
            &&& shares(r.y, q, 7real, z)
            &&& near(r.one, p * value(left) + q * value(up) + 1real, 8real * fine())
            &&& -4real <= p * value(left) + q * value(up) <= 4real
        }),
{
    let (o, i) = (Real { bits: ZERO }, Real { bits: ONE });
    some_values();
    zero_is_zero();
    let g = fine() * z;
    assert(0real * g == 0real && 0real * fine() == 0real);
    assert(p * 1real == p && q * 1real == q && p * 0real == 0real && q * 0real == 0real);
    share_by_constant(k, p, 1real, z, i);
    share_by_constant(k, p, 1real, z, o);
    share_by_constant(m, q, 1real, z, i);
    share_by_constant(m, q, 1real, z, o);
    share_by_constant(o, 0real, 0real, z, i);
    sum_of_shares(k.times(i), p, 2real, m.times(o), 0real, 2real, z);
    sum_of_shares(k.times(i).plus(m.times(o)), p, 5real, i.times(o), 0real, 1real, z);
    sum_of_shares(k.times(o), 0real, 2real, m.times(i), q, 2real, z);
    sum_of_shares(k.times(o).plus(m.times(i)), q, 5real, i.times(o), 0real, 1real, z);
    share_by_pixels(k, p, 1real, z, left, s);
    share_by_pixels(m, q, 1real, z, up, s);
    let (x, y) = (p * value(left), q * value(up));
    fine_sum(k.times(left), x, 2real, m.times(up), y, 2real, 3real, 5real);
    fine_product(i, 1real, 0real, 2real, i, 1real, 0real, 2real, 1real);
    fine_sum(
        k.times(left).plus(m.times(up)),
        x + y,
        5real,
        i.times(i),
        1real,
        1real,
        5real,
        8real,
    );
}

/// The last row of a mapping that a shift follows.
proof fn shift_after(m: Transform, p: real, q: real, v: real, z: real)
    requires
        shares(m.depth.x, p, 7real, z),
        shares(m.depth.y, q, 7real, z),
        near(m.depth.one, v, 8real * fine()),
        size(p) + size(q) <= 2real * z,
        -5real <= v <= 5real,
        1real / 4294967296real <= z <= 1real,
        modest(m.across.x) && modest(m.across.y) && modest(m.across.one),
        modest(m.down.x) && modest(m.down.y) && modest(m.down.one),
    ensures
        ({
            let r = Transform::identity().depth.after(m);
            &&& shares(r.x, p, 12real, z)
            &&& shares(r.y, q, 12real, z)
            &&& near(r.one, v, 24real * fine())
        }),
{
    let (o, i) = (Real { bits: ZERO }, Real { bits: ONE });
    some_values();
    zero_is_zero();
    let g = fine() * z;
    assert(0real * g == 0real && 0real * fine() == 0real && p * 1real == p && q * 1real == q);
    nothing_times(m.across.x, z);
    nothing_times(m.down.x, z);
    nothing_times(m.across.y, z);
    nothing_times(m.down.y, z);
    nothing_times(m.across.one, z);
    nothing_times(m.down.one, z);
    sum_of_shares(o.times(m.across.x), 0real, 1real, o.times(m.down.x), 0real, 1real, z);
    sum_of_shares(o.times(m.across.y), 0real, 1real, o.times(m.down.y), 0real, 1real, z);
    share_by_constant(m.depth.x, p, 7real, z, i);
    share_by_constant(m.depth.y, q, 7real, z, i);
    let (a, b) = (
        o.times(m.across.x).plus(o.times(m.down.x)),
        o.times(m.across.y).plus(o.times(m.down.y)),
    );
    sum_of_shares(a, 0real, 3real, i.times(m.depth.x), p, 8real, z);
    sum_of_shares(b, 0real, 3real, i.times(m.depth.y), q, 8real, z);
    let f = fine();
    assert(1real * (f * z) <= 1real * f) by (nonlinear_arith)
        requires
            z <= 1real,
            f > 0real,
    ;
    let (c, d) = (o.times(m.across.one), o.times(m.down.one));
    fine_sum(c, 0real, 1real, d, 0real, 1real, 1real, 3real);
    fine_product(i, 1real, 0real, 2real, m.depth.one, v, 8real, 6real, 18real);
    assert(1real * v == v);
    fine_sum(c.plus(d), 0real, 3real, i.times(m.depth.one), v, 18real, 6real, 24real);
}

/// A row that is evaluated at a point of the image.
proof fn row_at(r: Row, p: real, q: real, v: real, z: real, s: real, x: Real, y: Real)
    requires
        shares(r.x, p, 12real, z),
        shares(r.y, q, 12real, z),
        near(r.one, v, 24real * fine()),
        size(p) + size(q) <= 2real * z,
        -5real <= v <= 5real,
        1real / 4294967296real <= z <= 1real,
        s * z == 1real,
        1real <= s <= 4294967296real,
        is_number(x) && -s <= value(x) <= s,
        is_number(y) && -s <= value(y) <= s,
    ensures
        near(r.at(x, y), p * value(x) + q * value(y) + v, 60real * fine()),
{
    share_by_pixels(r.x, p, 12real, z, x, s);
    share_by_pixels(r.y, q, 12real, z, y, s);
    let (a, b) = (p * value(x), q * value(y));
    fine_sum(r.x.times(x), a, 13real, r.y.times(y), b, 13real, 3real, 27real);
    fine_sum(r.x.times(x).plus(r.y.times(y)), a + b, 27real, r.one, v, 24real, 6real, 60real);
}

/// An entry of a product of matrices that hold nothing large.
proof fn entry_is_modest(a: Real, b: Real, c: Real, x: Real, y: Real, v: Real)
    requires
        is_number(a) && -10000real <= value(a) <= 10000real,
        is_number(b) && -10000real <= value(b) <= 10000real,
        is_number(c) && -10000real <= value(c) <= 10000real,
        is_number(x) && -4294967296real <= value(x) <= 4294967296real,
        is_number(y) && -4294967296real <= value(y) <= 4294967296real,
        is_number(v) && -4294967296real <= value(v) <= 4294967296real,
    ensures
        modest(a.times(x).plus(b.times(y)).plus(c.times(v))),
{
    let (s, t) = (4294967296real, 42949672960000real);
    slack_is_small(0real, 0real);
    pixels_times(value(a), 10000real, value(x), s);
    pixels_times(value(b), 10000real, value(y), s);
    pixels_times(value(c), 10000real, value(v), s);
    product_rounds(a, x);
    product_rounds(b, y);
    product_rounds(c, v);
    slack_is_small(value(a) * value(x), t);
    slack_is_small(value(b) * value(y), t);
    slack_is_small(value(c) * value(v), t);
    let (d, e, f) = (a.times(x), b.times(y), c.times(v));
    sum_rounds(d, e);
    slack_is_small(value(d) + value(e), 3real * t);
    sum_rounds(d.plus(e), f);
    slack_is_small(value(d.plus(e)) + value(f), 6real * t);
}

/// The opposite of a number has the opposite value.
proof fn opposite_value(v: Real)
    requires
        is_number(v),
    ensures
        is_number(v.negated()),
        value(v.negated()) == -value(v),
{
    let w = Width::Double;
    reveal(Real::spec_negated);
    let c = v.negated();
    assert(unsigned(w, c.bits) == unsigned(w, v.bits));
    assert(negative(w, c.bits) != negative(w, v.bits));
    assert(units(w, c.bits) == units(w, v.bits));
}

/// The middle of a side.
proof fn half_side(n: u32)
    requires
        n > 0,
    ensures
        ({
            let c = Real::nearest_to(n as int).over(Real { bits: TWO });
            &&& is_number(c)
            &&& 49real * (n as real) / 100real <= value(c) <= 51real * (n as real) / 100real
            &&& is_number(c.negated())
            &&& value(c.negated()) == -value(c)
        }),
{
    let (a, two) = (Real::nearest_to(n as int), Real { bits: TWO });
    some_values();
    wholes_are_themselves(n as nat);
    slack_is_small(0real, 0real);
    quotient_rounds(a, two);
    slack_is_small(n as real / 2real, n as real);
    little_more(n as real);
    opposite_value(a.over(two));
}

proof fn little_more(n: real)
    requires
        n >= 1real,
    ensures
        (n + 1real) * grain() <= n / 100real,
{
    let g = grain();
    assert((n + 1real) * g <= n / 100real) by (nonlinear_arith)
        requires
            n >= 1real,
            0real < g <= 1real / 1000real,
    ;
}

/// What a tilt makes of a place off the middle.
proof fn tilt_is_small(a: real, z: real, s: real, x: real, c: real, n: real)
    requires
        s * z == 1real,
        z > 0real,
        0real <= x <= n,
        49real * n / 100real <= c <= 51real * n / 100real,
        0real <= n <= s,
    ensures
        -(51real / 100real) * size(a) <= (a * z) * x + (a * z) * (-c),
{
    let d = x - c;
    assert((a * z) * x + (a * z) * (-c) == a * (z * d)) by (nonlinear_arith)
        requires
            d == x - c,
    ;
    assert(-(51real / 100real) <= z * d <= 51real / 100real) by (nonlinear_arith)
        requires
            -(51real * s / 100real) <= d <= 51real * s / 100real,
            s * z == 1real,
            z > 0real,
    ;
    let e = z * d;
    assert(-(51real / 100real) * size(a) <= a * e) by (nonlinear_arith)
        requires
            -(51real / 100real) <= e <= 51real / 100real,
            size(a) == (if a < 0real { -a } else { a }),
    ;
}

/// A keystone that is corrected for tangents that make up at most 1, such as for one angle of
/// up to 45 degrees, leaves every point of the image in front of the horizon.
pub proof fn keystone_stays_in_front(tan_v: Real, tan_h: Real, w: u32, h: u32, x: Real, y: Real)
    requires
        w > 0,
        h > 0,
        is_number(tan_v),
        is_number(tan_h),
        size(value(tan_v)) + size(value(tan_h)) <= 1real,
        is_number(x) && 0real <= value(x) <= w as real,
        is_number(y) && 0real <= value(y) <= h as real,
    ensures
        keystone(tan_v, tan_h, w, h).is_in_front(x, y),
{
    let (o, i) = (Real { bits: ZERO }, Real { bits: ONE });
    let side = if w > h {
        w as nat
    } else {
        h as nat
    };
    let length = unit_length(w, h);
    wholes_are_themselves(side);
    let s = side as real;
    let z = 1real / s;
    assert(s * z == 1real && 1real / 4294967296real <= z <= 1real) by (nonlinear_arith)
        requires
            z == 1real / s,
            1real <= s <= 4294967296real,
    ;
    some_values();
    zero_is_zero();
    one_stays();
    slack_is_small(0real, 0real);
    let (a1, b1) = (quantize_1e6(tan_h), quantize_1e6(tan_v));
    grid_moves_little(tan_h, size(value(tan_h)));
    grid_moves_little(tan_v, size(value(tan_v)));
    let (a2, b2, o2) = (quantize_1e6(a1), quantize_1e6(b1), quantize_1e6(o));
    grid_moves_little(a1, size(value(tan_h)) + 1real / 500000real);
    grid_moves_little(b1, size(value(tan_v)) + 1real / 500000real);
    grid_moves_little(o, 0real);
    let (a, b) = (value(a2), value(b2));
    quotient_shares(a2, length, z);
    quotient_shares(b2, length, z);
    let (k, m) = (a2.over(length), b2.over(length));
    let (p, q) = (a * z, b * z);
    shares_add_up(a, b, z);
    pixels_times(value(o2), 1real / 500000real, s, s);
    product_rounds(o2, length);
    slack_is_small(value(o2) * s, 9000real);
    let far = o2.times(length);
    let centered = Transform {
        across: Row { x: i, y: o2, one: far },
        down: Row { x: o2, y: i, one: far },
        depth: Row { x: k, y: m, one: i },
    };
    half_side(w);
    half_side(h);
    let c = middle(w, h);
    let (left, up) = (c.x.negated(), c.y.negated());
    let first = Transform::translate(left, up);
    let moved = first.followed_by(centered);
    tilt_after_shift(k, p, m, q, z, s, left, up);
    entry_is_modest(i, o2, far, i, o, o);
    entry_is_modest(i, o2, far, o, i, o);
    entry_is_modest(i, o2, far, left, up, i);
    entry_is_modest(o2, i, far, i, o, o);
    entry_is_modest(o2, i, far, o, i, o);
    entry_is_modest(o2, i, far, left, up, i);
    let v = p * value(left) + q * value(up) + 1real;
    shift_after(moved, p, q, v, z);
    let last = Transform::identity().depth.after(moved);
    row_at(last, p, q, v, z, s, x, y);
    assert(keystone(tan_v, tan_h, w, h).depth == last);
    tilt_is_small(a, z, s, value(x), value(c.x), w as real);
    tilt_is_small(b, z, s, value(y), value(c.y), h as real);
    let d = last.at(x, y);
    assert(60real * fine() <= 1real / 100real);
    assert(size(a) + size(b) <= 1real + 1real / 100real);
    let (dx, dy) = (p * value(x) + p * value(left), q * value(y) + q * value(up));
    assert(dx >= -(51real / 100real) * size(a));
    assert(dy >= -(51real / 100real) * size(b));
    assert(value(d) >= 1real + dx + dy - 1real / 100real);
    let (j, n) = (size(a), size(b));
    assert(-(51real / 100real) * j + -(51real / 100real) * n >= -(6real / 10real))
        by (nonlinear_arith)
        requires
            0real <= j,
            0real <= n,
            j + n <= 1real + 1real / 100real,
    ;
    assert(value(d) > 0real);
    below_zero(d);
    order_is_by_value(o, d);
}

/// Shares of tangents that make up little more than 1.
proof fn shares_add_up(a: real, b: real, z: real)
    requires
        size(a) + size(b) <= 2real,
        z > 0real,
    ensures
        size(a * z) + size(b * z) <= 2real * z,
{
    assert(size(a * z) == size(a) * z && size(b * z) == size(b) * z) by (nonlinear_arith)
        requires
            z > 0real,
            size(a) == (if a < 0real { -a } else { a }),
            size(b) == (if b < 0real { -b } else { b }),
            size(a * z) == (if a * z < 0real { -(a * z) } else { a * z }),
            size(b * z) == (if b * z < 0real { -(b * z) } else { b * z }),
    ;
    larger_product(size(a) + size(b), 2real, z);
    assert((size(a) + size(b)) * z == size(a) * z + size(b) * z) by (nonlinear_arith);
}

/// What a tilt makes of a place off the middle, over the real numbers.
proof fn tilt_is(a: real, t: real, z: real, s: real, x: real, c: real, n: real)
    requires
        s * z == 1real,
        s >= 1real,
        z > 0real,
        0real <= x <= n,
        49real * n / 100real <= c <= 51real * n / 100real,
        0real <= n <= s,
        -(1real / 500000real) <= a - t <= 1real / 500000real,
    ensures
        ({
            let d = (a * z) * x + (a * z) * (-c) - t * (x - c) / s;
            -(1real / 500000real) <= d <= 1real / 500000real
        }),
{
    let d = x - c;
    let u = z * d;
    assert((a * z) * x + (a * z) * (-c) == a * u) by (nonlinear_arith)
        requires
            d == x - c,
            u == z * d,
    ;
    assert(-1real <= u <= 1real) by (nonlinear_arith)
        requires
            u == z * d,
            -(51real * s / 100real) <= d <= 51real * s / 100real,
            s * z == 1real,
            z > 0real,
    ;
    let q = t * d / s;
    assert(q == t * u) by (nonlinear_arith)
        requires
            q == t * d / s,
            u == z * d,
            s * z == 1real,
            s >= 1real,
    {
        assert(d == s * u);
        assert(t * (s * u) / s == t * u);
    }
    let e = a - t;
    let f = 1real / 500000real;
    assert(a * u - t * u == e * u) by (nonlinear_arith)
        requires
            e == a - t,
    ;
    assert(-f <= e * u <= f) by (nonlinear_arith)
        requires
            -f <= e <= f,
            -1real <= u <= 1real,
            f >= 0real,
    ;
}

/// A keystone tilts the image about its middle: the depth of a point, which it is seen smaller
/// by, is 1 in the middle and changes, for each length of the longer side to the right, by the
/// tangent of the horizontal angle, and for each one down by that of the vertical angle.
pub proof fn keystone_tilts_about_middle(
    tan_v: Real,
    tan_h: Real,
    w: u32,
    h: u32,
    x: Real,
    y: Real,
)
    requires
        w > 0,
        h > 0,
        is_number(tan_v),
        is_number(tan_h),
        size(value(tan_v)) + size(value(tan_h)) <= 1real,
        is_number(x) && 0real <= value(x) <= w as real,
        is_number(y) && 0real <= value(y) <= h as real,
    ensures
        ({
            let c = middle(w, h);
            let s = (if w > h {
                w
            } else {
                h
            }) as real;
            let (dx, dy) = (value(x) - value(c.x), value(y) - value(c.y));
            near(
                keystone(tan_v, tan_h, w, h).depth.at(x, y),
                1real + value(tan_h) * dx / s + value(tan_v) * dy / s,
                1real / 100000real,
            )
        }),
{
    let (o, i) = (Real { bits: ZERO }, Real { bits: ONE });
    let side = if w > h {
        w as nat
    } else {
        h as nat
    };
    let length = unit_length(w, h);
    wholes_are_themselves(side);
    let s = side as real;
    let z = 1real / s;
    assert(s * z == 1real && 1real / 4294967296real <= z <= 1real) by (nonlinear_arith)
        requires
            z == 1real / s,
            1real <= s <= 4294967296real,
    ;
    some_values();
    zero_is_zero();
    one_stays();
    slack_is_small(0real, 0real);
    let (a1, b1) = (quantize_1e6(tan_h), quantize_1e6(tan_v));
    grid_moves_little(tan_h, size(value(tan_h)));
    grid_moves_little(tan_v, size(value(tan_v)));
    let (a2, b2, o2) = (quantize_1e6(a1), quantize_1e6(b1), quantize_1e6(o));
    grid_moves_little(a1, size(value(tan_h)) + 1real / 500000real);
    grid_moves_little(b1, size(value(tan_v)) + 1real / 500000real);
    grid_moves_little(o, 0real);
    let (a, b) = (value(a2), value(b2));
    quotient_shares(a2, length, z);
    quotient_shares(b2, length, z);
    let (k, m) = (a2.over(length), b2.over(length));
    let (p, q) = (a * z, b * z);
    shares_add_up(a, b, z);
    pixels_times(value(o2), 1real / 500000real, s, s);
    product_rounds(o2, length);
    slack_is_small(value(o2) * s, 9000real);
    let far = o2.times(length);
    let centered = Transform {
        across: Row { x: i, y: o2, one: far },
        down: Row { x: o2, y: i, one: far },
        depth: Row { x: k, y: m, one: i },
    };
    half_side(w);
    half_side(h);
    let c = middle(w, h);
    let (left, up) = (c.x.negated(), c.y.negated());
    let first = Transform::translate(left, up);
    let moved = first.followed_by(centered);
    tilt_after_shift(k, p, m, q, z, s, left, up);
    entry_is_modest(i, o2, far, i, o, o);
    entry_is_modest(i, o2, far, o, i, o);
    entry_is_modest(i, o2, far, left, up, i);
    entry_is_modest(o2, i, far, i, o, o);
    entry_is_modest(o2, i, far, o, i, o);
    entry_is_modest(o2, i, far, left, up, i);
    let v = p * value(left) + q * value(up) + 1real;
    shift_after(moved, p, q, v, z);
    let last = Transform::identity().depth.after(moved);
    row_at(last, p, q, v, z, s, x, y);
    assert(keystone(tan_v, tan_h, w, h).depth == last);
    grid_is_near(tan_h);
    grid_is_near(tan_v);
    grid_is_near(a1);
    grid_is_near(b1);
    tilt_is(a, value(tan_h), z, s, value(x), value(c.x), w as real);
    tilt_is(b, value(tan_v), z, s, value(y), value(c.y), h as real);
    assert(60real * fine() <= 1real / 1000000real);
}

} // verus!
