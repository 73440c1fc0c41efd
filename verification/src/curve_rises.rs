//! Curves through points that do not fall do not fall.
use vstd::prelude::*;

use crate::binary::Real;
use crate::curve_points::curves_meet_their_points;
use crate::curve_shape::{cubics_are_small, fine, hermite_is_near};
use crate::float::{negative, Width};
use crate::grid_bytes::{byte_of_near_whole, byte_of_negative, bytes_keep_order};
use crate::growth::{cubic, h00, h01, h10, h11, larger_product};
use crate::nearness::{near, slack_is_small};
use crate::ops::color::{
    ascending, curve_height, grid_byte, is_curve, stretch_from, tangents,
};
use crate::rising::{rise_of, rises, run_of, slope_is, stretch_is_short};
use crate::stretch::{cubic_by_rise, cubic_gains};
use crate::value::{
    magnitude_by_parts, order_is_by_value, quotient_rounds, value, wholes_are_themselves,
};
use crate::whole_steps::wholes_subtract;

verus! {

/// The place of `x` in stretch `k`, as a part of its length.
spec fn part_of(points: Seq<[u8; 2]>, k: int, x: int) -> real {
    (x - points[k][0]) as real / run_of(points, k) as real
}

/// The cubic of stretch `k` at `x`.
spec fn cubic_at(points: Seq<[u8; 2]>, k: int, x: int) -> real {
    let m = tangents(points);
    cubic(
        part_of(points, k, x),
        run_of(points, k) as real,
        points[k][1] as real,
        points[k + 1][1] as real,
        value(m[k]),
        value(m[k + 1]),
    )
}

/// The exact height of the curve at `x`.
spec fn exact_height(points: Seq<[u8; 2]>, x: int) -> real {
    let n = points.len() as int;
    if x <= points[0][0] {
        points[0][1] as real
    } else if x >= points[n - 1][0] {
        points[n - 1][1] as real
    } else {
        cubic_at(points, stretch_from(points, x, 0), x)
    }
}

/// The stretch that is found holds the place.
proof fn stretch_holds(points: Seq<[u8; 2]>, x: int, s: int)
    requires
        0 <= s <= points.len() - 2,
        points[s][0] <= x < points[points.len() - 1][0],
    ensures
        ({
            let k = stretch_from(points, x, s);
            s <= k <= points.len() - 2 && points[k][0] <= x < points[k + 1][0]
        }),
    decreases points.len() - s,
{
    if s + 2 < points.len() && points[s + 1][0] <= x {
        stretch_holds(points, x, s + 1);
    }
}

/// A cubic starts and ends at its points.
proof fn ends_of_cubic(h: real, y0: real, y1: real, m0: real, m1: real)
    ensures
        cubic(0real, h, y0, y1, m0, m1) == y0,
        cubic(1real, h, y0, y1, m0, m1) == y1,
{
    assert(0real * 0real == 0real && 1real * 1real == 1real);
    assert(0real * 0real * 0real == 0real && 1real * 1real * 1real == 1real);
    assert(h00(0real) == 1real && h01(0real) == 0real && h10(0real) == 0real && h11(0real) == 0real);
    assert(h00(1real) == 0real && h01(1real) == 1real && h10(1real) == 0real && h11(1real) == 0real);
    assert(0real * h == 0real && 0real * y0 == 0real && 0real * y1 == 0real);
    assert(0real * m0 == 0real && 0real * m1 == 0real);
    assert(1real * y0 == y0 && 1real * y1 == y1);
}

/// At any place of a stretch, its ends among them, the height is that of its cubic.
proof fn height_in_stretch(points: Seq<[u8; 2]>, k: int, x: int)
    requires
        ascending(points),
        0 <= k < points.len() - 1,
        points[k][0] <= x <= points[k + 1][0],
    ensures
        exact_height(points, x) == cubic_at(points, k, x),
{
    let n = points.len() as int;
    let h = run_of(points, k) as real;
    assert(points[k][0] < points[k + 1][0]);
    assert(k > 0 ==> points[0][0] < points[k][0]);
    assert(k + 1 < n - 1 ==> points[k + 1][0] < points[n - 1][0]);
    let m = tangents(points);
    ends_of_cubic(h, points[k][1] as real, points[k + 1][1] as real, value(m[k]), value(m[k + 1]));
    assert(0real / h == 0real) by (nonlinear_arith)
        requires
            h >= 1real,
    ;
    assert(h / h == 1real) by (nonlinear_arith)
        requires
            h >= 1real,
    ;
    if points[0][0] < x < points[n - 1][0] {
        stretch_holds(points, x, 0);
        let j = stretch_from(points, x, 0);
        if x < points[k + 1][0] {
            if j < k {
                assert(points[j + 1][0] <= points[k][0]);
            }
            if j > k {
                assert(points[k + 1][0] <= points[j][0]);
            }
        } else {
            if j < k + 1 {
                assert(points[j + 1][0] <= points[k + 1][0]);
            }
            if j > k + 1 {
                assert(points[k + 2][0] <= points[j][0]);
                assert(points[k + 1][0] < points[k + 2][0]);
            }
            let g = run_of(points, k + 1) as real;
            assert(points[k + 1][0] < points[k + 2][0]);
            ends_of_cubic(
                g,
                points[k + 1][1] as real,
                points[k + 2][1] as real,
                value(m[k + 1]),
                value(m[k + 2]),
            );
            assert(0real / g == 0real) by (nonlinear_arith)
                requires
                    g >= 1real,
            ;
        }
    }
}

/// The height that is computed is near the exact one.
proof fn height_is_near(points: Seq<[u8; 2]>, x: int)
    requires
        ascending(points),
        rises(points),
        points.len() >= 2,
        0 <= x <= 255,
    ensures
        near(curve_height(points, x), exact_height(points, x), 200000real * fine()),
{
    let n = points.len() as int;
    assert(200000real * fine() >= 0real);
    if x <= points[0][0] {
        wholes_are_themselves(points[0][1] as nat);
    } else if x >= points[n - 1][0] {
        wholes_are_themselves(points[n - 1][1] as nat);
    } else {
        stretch_holds(points, x, 0);
        let k = stretch_from(points, x, 0);
        slope_is(points, k);
        stretch_is_short(points, k);
        let (h, j) = (run_of(points, k), x - points[k][0]);
        wholes_subtract(points[k + 1][0] as nat, points[k][0] as nat);
        wholes_subtract(x as nat, points[k][0] as nat);
        wholes_are_themselves(h as nat);
        wholes_are_themselves(j as nat);
        wholes_are_themselves(points[k][1] as nat);
        wholes_are_themselves(points[k + 1][1] as nat);
        let (a, b) = (Real::nearest_to(j), Real::nearest_to(h));
        let (p, q) = (j as real, h as real);
        let t = p / q;
        assert(0real <= t <= 1real) by (nonlinear_arith)
            requires
                t == p / q,
                0real <= p <= q,
                q >= 1real,
        ;
        slack_is_small(0real, 0real);
        quotient_rounds(a, b);
        slack_is_small(t, 1real);
        let m = tangents(points);
        hermite_is_near(
            a.over(b),
            t,
            b,
            q,
            Real::of_byte(points[k][1]),
            points[k][1] as real,
            Real::of_byte(points[k + 1][1]),
            points[k + 1][1] as real,
            m[k],
            m[k + 1],
        );
    }
}

/// On a flat stretch the cubic hardly leaves its height.
proof fn flat_cubic(t: real, h: real, y: real, m0: real, m1: real)
    requires
        0real <= t <= 1real,
        0real <= h * m0 <= 1real / 100000000000real,
        0real <= h * m1 <= 1real / 100000000000real,
    ensures
        -(2real / 100000000000real) <= cubic(t, h, y, y, m0, m1) - y <= 2real / 100000000000real,
{
    cubic_by_rise(t, h, y, y, m0, m1);
    cubics_are_small(t);
    let (a, b) = (h * m0, h * m1);
    assert(h01(t) * (y - y) == 0real) by {
        assert(h01(t) * 0real == 0real);
    }
    larger_product(h10(t), 1real, a);
    larger_product(0real, h10(t), a);
    larger_product(-1real, h11(t), b);
    larger_product(h11(t), 0real, b);
    assert(0real * a == 0real && 0real * b == 0real && 1real * a == a && (-1real) * b == -b);
}

/// What the exact height gains in a step.
proof fn height_gains(points: Seq<[u8; 2]>, x: int) -> (k: int)
    requires
        ascending(points),
        rises(points),
        points.len() >= 2,
        points[0][0] <= x < points[points.len() - 1][0],
    ensures
        0 <= k < points.len() - 1,
        rise_of(points, k) >= 0,
        rise_of(points, k) > 0 ==> exact_height(points, x + 1) - exact_height(points, x) >= 1real
            / 33162750real,
        rise_of(points, k) == 0 ==> {
            let y = points[k][1] as real;
            let e = 2real / 100000000000real;
            &&& -e <= exact_height(points, x) - y <= e
            &&& -e <= exact_height(points, x + 1) - y <= e
        },
{
    stretch_holds(points, x, 0);
    let k = stretch_from(points, x, 0);
    slope_is(points, k);
    stretch_is_short(points, k);
    height_in_stretch(points, k, x);
    height_in_stretch(points, k, x + 1);
    let h = run_of(points, k) as real;
    let (i, j) = ((points[k + 1][0] - 1 - x) as real, (x - points[k][0]) as real);
    assert(i + j + 1real == h);
    assert((x + 1 - points[k][0]) as real == j + 1real);
    let m = tangents(points);
    let (y0, y1) = (points[k][1] as real, points[k + 1][1] as real);
    if rise_of(points, k) > 0 {
        cubic_gains(i, j, y0, y1, value(m[k]), value(m[k + 1]));
    } else {
        let (p, q) = (j / h, (j + 1real) / h);
        assert(0real <= p <= 1real && 0real <= q <= 1real) by (nonlinear_arith)
            requires
                p == j / h,
                q == (j + 1real) / h,
                0real <= j,
                j + 1real <= h,
        ;
        flat_cubic(p, h, y0, value(m[k]), value(m[k + 1]));
        flat_cubic(q, h, y0, value(m[k]), value(m[k + 1]));
    }
    k
}

/// A curve does not fall from one byte to the next.
proof fn step_does_not_fall(points: Seq<[u8; 2]>, x: int)
    requires
        ascending(points),
        rises(points),
        points.len() >= 2,
        0 <= x < 255,
    ensures
        grid_byte(curve_height(points, x)) <= grid_byte(curve_height(points, x + 1)),
{
    let n = points.len() as int;
    if points[0][0] <= x < points[n - 1][0] {
        height_is_near(points, x);
        height_is_near(points, x + 1);
        let k = height_gains(points, x);
        let (v, w) = (curve_height(points, x), curve_height(points, x + 1));
        if rise_of(points, k) == 0 {
            byte_of_near_whole(v, points[k][1]);
            byte_of_near_whole(w, points[k][1]);
        } else {
            height_is_bounded(points, x);
            height_is_bounded(points, x + 1);
            if negative(Width::Double, v.bits) {
                byte_of_negative(v);
            } else {
                order_is_by_value(v, v);
                magnitude_by_parts(w.bits);
                bytes_keep_order(v, w);
            }
        }
    }
}

/// The exact height stays in sight of the heights of the points.
proof fn height_is_bounded(points: Seq<[u8; 2]>, x: int)
    requires
        ascending(points),
        rises(points),
        points.len() >= 2,
        0 <= x <= 255,
    ensures
        -2900real <= exact_height(points, x) <= 2900real,
{
    let n = points.len() as int;
    if points[0][0] < x < points[n - 1][0] {
        stretch_holds(points, x, 0);
        let k = stretch_from(points, x, 0);
        slope_is(points, k);
        stretch_is_short(points, k);
        let (p, q) = ((x - points[k][0]) as real, run_of(points, k) as real);
        let t = p / q;
        assert(0real <= t <= 1real) by (nonlinear_arith)
            requires
                t == p / q,
                0real <= p <= q,
                q >= 1real,
        ;
        cubics_are_small(t);
        let m = tangents(points);
        let (y0, y1) = (points[k][1] as real, points[k + 1][1] as real);
        let (a, b) = (q * value(m[k]), q * value(m[k + 1]));
        cubic_by_rise(t, q, y0, y1, value(m[k]), value(m[k + 1]));
        let d = y1 - y0;
        larger_product(h01(t), 1real, d);
        larger_product(0real, h01(t), d);
        larger_product(h10(t), 1real, a);
        larger_product(0real, h10(t), a);
        larger_product(-1real, h11(t), b);
        larger_product(h11(t), 0real, b);
        assert(0real * a == 0real && 0real * b == 0real && 1real * a == a && (-1real) * b == -b);
        assert(0real * d == 0real && 1real * d == d);
    }
}

/// Where the points of a curve do not fall, its table does not fall either.
pub proof fn curves_do_not_fall(points: Seq<[u8; 2]>, lut: Seq<u8>, i: int, j: int)
    requires
        is_curve(points, lut),
        ascending(points),
        rises(points),
        0 <= i <= j < 256,
    ensures
        lut[i] <= lut[j],
    decreases j - i,
{
    if i < j && points.len() >= 2 {
        curves_do_not_fall(points, lut, i, j - 1);
        step_does_not_fall(points, j - 1);
        assert(lut[j - 1] == grid_byte(curve_height(points, j - 1)));
        assert(lut[j] == grid_byte(curve_height(points, j)));
    }
}

/// Where the points of a curve do not fall, it does not overshoot: between two points its
/// table stays between their heights.
pub proof fn curves_do_not_overshoot(points: Seq<[u8; 2]>, lut: Seq<u8>, k: int, x: int)
    requires
        is_curve(points, lut),
        ascending(points),
        rises(points),
        0 <= k < points.len() - 1,
        points[k][0] <= x <= points[k + 1][0],
    ensures
        points[k][1] <= lut[x] <= points[k + 1][1],
{
    curves_meet_their_points(points, lut, k);
    curves_meet_their_points(points, lut, k + 1);
    curves_do_not_fall(points, lut, points[k][0] as int, x);
    curves_do_not_fall(points, lut, x, points[k + 1][0] as int);
}

} // verus!
