//! Vignettes and sharpening over the real numbers.
use vstd::prelude::*;

use crate::adjust::{neighbour, neighbour_weight, neighbours, sharpened, sharpened_channel};
use crate::binary::{Real, Real32};
use crate::blend_law::is_part;
use crate::exact::is_number;
use crate::linear::{quantize_1e6, LinearImage};
use crate::nearness::near;
use crate::number::{ONE, SHORT_ONE, SHORT_SIXTEEN, SHORT_ZERO, THREE, TWO, ZERO};
use crate::ops::blend::in_unit;
use crate::ops::finish::falloff;
use crate::ordering::{clamps_are_close, kept_within, on_grid_is_near, order_is_that_of_values};
use crate::raster::Rgba32;
use crate::single;
use crate::single_near::{self, mote};
use crate::tolerance::{near_by, near_minus, near_over, near_plus, trace};
use crate::value::{some_values, value, zero_is_zero};
use crate::widths::narrowed_is_near;

verus! {

/// A step from 0 to 1 that starts and ends level.
pub open spec fn eased(t: real) -> real {
    t * t * (3real - 2real * t)
}

/// What a vignette multiplies light with: 1 up to the radius, less by the strength from the end
/// of the feather on, and an eased step between them.
pub open spec fn gain_at(d: real, strength: real, radius: real, feather: real) -> real {
    1real - strength * (if feather > 0real {
        eased(kept_within((d - radius) / feather, 0real, 1real))
    } else if d <= radius {
        0real
    } else {
        1real
    })
}

proof fn ends_of_ease()
    ensures
        eased(0real) == 0real,
        eased(1real) == 1real,
{
    assert(0real * 0real * (3real - 2real * 0real) == 0real) by (nonlinear_arith);
    assert(1real * 1real * (3real - 2real * 1real) == 1real) by (nonlinear_arith);
}

/// Next to its end the step is next to 1.
proof fn ease_near_end(k: real, e: real)
    requires
        1real - e <= k <= 1real,
        0real <= e <= 1real / 2real,
    ensures
        1real - 4real * e <= eased(k) <= 1real,
{
    let d = 1real - k;
    assert(k * k * (3real - 2real * k) == 1real - d * d * (3real - 2real * d)) by (nonlinear_arith)
        requires
            d == 1real - k,
    ;
    assert(0real <= d * d <= d) by (nonlinear_arith)
        requires
            0real <= d <= 1real,
    ;
    let s = d * d;
    assert(0real <= s * (3real - 2real * d) <= 3real * s) by (nonlinear_arith)
        requires
            s >= 0real,
            0real <= d <= 1real,
    ;
}

/// The step at a place that is slightly off.
proof fn step_is_near(t: Real, k: real)
    requires
        near(t, k, 500real * trace()),
        0real <= k <= 1real,
    ensures
        ({
            let s = t.times(t).times((Real { bits: THREE }).minus((Real { bits: TWO }).times(t)));
            near(s, eased(k), 9000real * trace())
        }),
        0real <= eased(k) <= 1real,
{
    some_values();
    let e = trace();
    let (two, three) = (Real { bits: TWO }, Real { bits: THREE });
    let b = 11real / 10real;
    near_by(t, k, 500real * e, b, t, k, 500real * e, b, 1200real * e);
    near_by(two, 2real, 0real, 2real, t, k, 500real * e, b, 1100real * e);
    near_minus(three, 3real, 0real, two.times(t), 2real * k, 1100real * e, 1200real * e);
    let (s, f) = (k * k, 3real - 2real * k);
    assert(0real <= s <= 1real) by (nonlinear_arith)
        requires
            s == k * k,
            0real <= k <= 1real,
    ;
    near_by(
        t.times(t),
        s,
        1200real * e,
        b,
        three.minus(two.times(t)),
        f,
        1200real * e,
        4real,
        9000real * e,
    );
    let d = 1real - k;
    assert(k * k * (3real - 2real * k) == 1real - d * d * (3real - 2real * d)) by (nonlinear_arith)
        requires
            d == 1real - k,
    ;
    assert(d * d * (3real - 2real * d) >= 0real) by (nonlinear_arith)
        requires
            0real <= d <= 1real,
    ;
    assert(s * f >= 0real) by (nonlinear_arith)
        requires
            s >= 0real,
            f >= 0real,
    ;
}

/// The gain on the grid and in the shorter format.
proof fn gain_is_near(g: Real, x: real)
    requires
        near(g, x, 20000real * trace()),
        -1real <= x <= 3real,
    ensures
        single_near::near(quantize_1e6(g).narrowed(), x, 2real * mote()),
{
    on_grid_is_near(g, x, 20000real * trace());
    narrowed_is_near(quantize_1e6(g));
}

/// A vignette multiplies light with 1 up to the radius, with 1 less the strength from the end
/// of the feather on, and between them with an eased step from one to the other.
pub proof fn vignette_eases(d: Real, strength: Real, radius: Real, feather: Real)
    requires
        is_number(d) && 0real <= value(d) <= 5real,
        is_number(strength) && -1real <= value(strength) <= 1real,
        is_number(radius) && 0real <= value(radius) <= 2real,
        is_number(feather),
        value(feather) == 0real || 1real / 100real <= value(feather) <= 1real,
    ensures
        single_near::near(
            falloff(d, strength, radius, feather),
            gain_at(value(d), value(strength), value(radius), value(feather)),
            2real * mote(),
        ),
{
    some_values();
    zero_is_zero();
    ends_of_ease();
    let e = trace();
    let (zero, one) = (Real { bits: ZERO }, Real { bits: ONE });
    let (x, s, r, f) = (value(d), value(strength), value(radius), value(feather));
    order_is_that_of_values(d, radius);
    order_is_that_of_values(feather, zero);
    near_plus(radius, r, 0real, feather, f, 0real, e);
    let end = radius.plus(feather);
    order_is_that_of_values(end, d);
    near_minus(one, 1real, 0real, strength, s, 0real, e);
    let q = (x - r) / f;
    if f > 0real {
        let p = x - r;
        assert(q * f == p) by (nonlinear_arith)
            requires
                q == p / f,
                f > 0real,
        ;
        if d.at_most(radius) {
            assert(q <= 0real) by (nonlinear_arith)
                requires
                    q * f == p,
                    p <= 0real,
                    f > 0real,
            ;
            assert(s * 0real == 0real) by (nonlinear_arith);
            gain_is_near(one, 1real);
        } else if end.at_most(d) {
            assert(q >= 1real - 100real * e) by (nonlinear_arith)
                requires
                    q * f == p,
                    p >= f - e,
                    f >= 1real / 100real,
                    e >= 0real,
            ;
            let k = kept_within(q, 0real, 1real);
            ease_near_end(k, 100real * e);
            let h = eased(k);
            assert(-(400real * e) <= s * h - s <= 400real * e) by (nonlinear_arith)
                requires
                    -1real <= s <= 1real,
                    1real - 400real * e <= h <= 1real,
                    e >= 0real,
            ;
            gain_is_near(one.minus(strength), 1real - s * h);
        } else {
            assert(q <= 1real + 100real * e) by (nonlinear_arith)
                requires
                    q * f == p,
                    p <= f + e,
                    f >= 1real / 100real,
                    e >= 0real,
            ;
            assert(q >= 0real) by (nonlinear_arith)
                requires
                    q * f == p,
                    p >= 0real,
                    f > 0real,
            ;
            near_minus(d, x, 0real, radius, r, 0real, e);
            near_over(d.minus(radius), p, e, feather, f, 0real, 100real, 500real, 300real * e);
            let t = d.minus(radius).over(feather);
            let k = kept_within(q, 0real, 1real);
            step_is_near(t, k);
            let h = eased(k);
            let step = t.times(t).times((Real { bits: THREE }).minus((Real { bits: TWO }).times(t)));
            near_by(strength, s, 0real, 1real, step, h, 9000real * e, 2real, 9100real * e);
            assert(-1real <= s * h <= 1real) by (nonlinear_arith)
                requires
                    -1real <= s <= 1real,
                    0real <= h <= 1real,
            ;
            let lost = strength.times(step);
            near_minus(one, 1real, 0real, lost, s * h, 9100real * e, 9200real * e);
            gain_is_near(one.minus(lost), 1real - s * h);
        }
    } else {
        assert(s * 0real == 0real && s * 1real == s) by (nonlinear_arith);
        if d.at_most(radius) {
            gain_is_near(one, 1real);
        } else {
            gain_is_near(one.minus(strength), 1real - s);
        }
    }
}

/// One of the three channels of a colour.
pub open spec fn light_of(p: Rgba32, c: int) -> Real32 {
    if c == 0 {
        p.r
    } else if c == 1 {
        p.g
    } else {
        p.b
    }
}

/// How much a pixel counts by the place it has among the nine around a pixel: four times in
/// the middle, twice beside it, once at the corners.
pub open spec fn count_of(k: int) -> real {
    if k == 4 {
        4real
    } else if k % 2 == 1 {
        2real
    } else {
        1real
    }
}

/// The first `n` of the nine pixels around a pixel, row by row, by how much they count.
pub open spec fn counted(img: LinearImage, x: int, y: int, c: int, n: nat) -> real
    decreases n,
{
    if n == 0 {
        0real
    } else {
        counted(img, x, y, c, (n - 1) as nat) + count_of(n - 1) * single::value(
            light_of(neighbour(img, x, y, n - 1), c),
        )
    }
}

/// How much the first `n` of the nine count together.
spec fn total_count(n: nat) -> real
    decreases n,
{
    if n == 0 {
        0real
    } else {
        total_count((n - 1) as nat) + count_of(n - 1)
    }
}

proof fn counts_are_sixteen(n: nat)
    requires
        n <= 9,
    ensures
        0real <= total_count(n) <= 16real,
{
    reveal_with_fuel(total_count, 10);
}

proof fn neighbours_are_near(img: LinearImage, x: int, y: int, c: int, n: nat)
    requires
        n <= 9,
        0 <= c < 3,
        forall|k: int| 0 <= k < 9 ==> is_part(light_of(#[trigger] neighbour(img, x, y, k), c)),
    ensures
        single_near::near(
            light_of(neighbours(img, x, y, n), c),
            counted(img, x, y, c, n),
            n as real * (2real * mote()),
        ),
        0real <= counted(img, x, y, c, n) <= total_count(n),
    decreases n,
{
    single_near::short_values();
    let m = mote();
    if n == 0 {
        assert(0real * (2real * m) == 0real) by (nonlinear_arith);
    } else {
        let k = (n - 1) as nat;
        neighbours_are_near(img, x, y, c, k);
        counts_are_sixteen(n);
        let before = light_of(neighbours(img, x, y, k), c);
        let p = light_of(neighbour(img, x, y, k as int), c);
        let w = neighbour_weight(k as u8);
        let (v, f) = (single::value(p), count_of(k as int));
        assert(single_near::near(w, f, 0real)) by {
            assert(k == 0 || k == 1 || k == 2 || k == 3 || k == 4 || k == 5 || k == 6 || k == 7 || k
                == 8);
        }
        single_near::near_by(p, v, 0real, 1real, w, f, 0real, 4real, m);
        assert(v * f == f * v) by (nonlinear_arith);
        assert(0real <= f * v <= f) by (nonlinear_arith)
            requires
                0real <= v <= 1real,
                f >= 0real,
        ;
        let (i, j, g) = (k as real, n as real, 2real * m);
        assert(j * g == i * g + g) by (nonlinear_arith)
            requires
                j == i + 1real,
        ;
        assert(0real <= i * g <= 18real * m) by (nonlinear_arith)
            requires
                0real <= i <= 9real,
                g == 2real * m,
                m >= 0real,
        ;
        let s = counted(img, x, y, c, k);
        single_near::near_plus(before, s, i * g, p.times(w), f * v, m, j * g);
        assert(light_of(neighbours(img, x, y, n), c) == before.plus(p.times(w)));
    }
}

/// Sharpening takes a channel away from the mean of the nine pixels around, by the amount.
pub proof fn sharpening_leaves_mean(img: LinearImage, amount: Real32, x: int, y: int, c: int)
    requires
        is_part(amount),
        0 <= c < 3,
        is_part(light_of(img.pixel(x, y), c)),
        forall|k: int| 0 <= k < 9 ==> is_part(light_of(#[trigger] neighbour(img, x, y, k), c)),
    ensures
        ({
            let v = single::value(light_of(img.pixel(x, y), c));
            let mean = counted(img, x, y, c, 9) / 16real;
            let q = sharpened(img, amount, x, y);
            &&& single_near::near(
                light_of(q, c),
                kept_within(v + single::value(amount) * (v - mean), 0real, 1real),
                10real * mote(),
            )
            &&& q.a == img.pixel(x, y).a
        }),
{
    single_near::short_values();
    let m = mote();
    neighbours_are_near(img, x, y, c, 9);
    counts_are_sixteen(9);
    let (zero, one, sixteen) = (
        Real32 { bits: SHORT_ZERO },
        Real32 { bits: SHORT_ONE },
        Real32 { bits: SHORT_SIXTEEN },
    );
    let p = light_of(img.pixel(x, y), c);
    let sum = light_of(neighbours(img, x, y, 9), c);
    let (v, s, a) = (single::value(p), counted(img, x, y, c, 9), single::value(amount));
    assert(9real * (2real * m) == 18real * m) by (nonlinear_arith);
    single_near::quotient_times_divisor(sum, sixteen);
    let u = single::value(sum) / 16real;
    assert(single::value(sum) / single::value(sixteen) == u);
    let mean = s / 16real;
    let over = sum.over(sixteen);
    assert(single_near::near(over, mean, 3real * m));
    single_near::near_minus(p, v, 0real, over, mean, 3real * m, 4real * m);
    let d = v - mean;
    single_near::near_by(amount, a, 0real, 1real, p.minus(over), d, 4real * m, 2real, 5real * m);
    assert(-1real <= a * d <= 1real) by (nonlinear_arith)
        requires
            0real <= a <= 1real,
            -1real <= d <= 1real,
    ;
    let by = amount.times(p.minus(over));
    single_near::near_plus(p, v, 0real, by, a * d, 5real * m, 6real * m);
    let r = p.plus(by);
    single_near::clamped_value(r, zero, one);
    clamps_are_close(single::value(r), v + a * d, 0real, 1real, 6real * m);
    assert(light_of(sharpened(img, amount, x, y), c) == sharpened_channel(p, sum, amount));
    assert(sharpened_channel(p, sum, amount) == in_unit(r));
}

} // verus!
