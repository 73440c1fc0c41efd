//! A curve goes through its points, whether they rise or fall.
use vstd::prelude::*;

use crate::binary::Real;
use crate::exact::{
    is_number, parts_of, product_by_one, product_by_zero, sum_of_zeros, sum_with_zero,
};
use crate::float::{unsigned, zero, Width};
use crate::grid_bytes::byte_of_near_whole;
use crate::nearness::slack_is_small;
use crate::number::{MINUS_TWO, NINE, ONE, THREE, TWO, ZERO};
use crate::ops::color::{
    ascending, curve_height, first_tangents, grid_byte, hermite, is_curve, limited,
    limited_tangents, slope, slopes, stretch_from, tangents, with_slope,
};
use crate::rising::{rise_of, run_of};
use crate::tangents::{is_positive, scale_is_near};
use crate::value::{
    difference_rounds, magnitude_by_parts, order_is_by_value, power, product_rounds,
    quotient_rounds, size, some_values, sum_rounds, value, wholes_are_themselves, zero_is_zero,
};
use crate::whole_steps::wholes_subtract;
use crate::wholes::zero_stays;

verus! {

/// A number that is no larger than a bound, either way.
spec fn is_tame(v: Real, bound: real) -> bool {
    is_number(v) && -bound <= value(v) <= bound
}

/// A slope that can be divided by.
spec fn is_steep(d: Real) -> bool {
    is_tame(d, 256real) && size(value(d)) >= 1real / 256real
}

proof fn ratio_is_small(x: real, y: real, bound: real)
    requires
        -bound <= x <= bound,
        size(y) >= 1real / 256real,
    ensures
        -(256real * bound) <= x / y <= 256real * bound,
        x / y * y == x,
{
    let r = x / y;
    assert(r * y == x) by (nonlinear_arith)
        requires
            r == x / y,
            y != 0real,
    ;
    let (b, z) = (256real * bound, size(y));
    assert(b * z >= bound) by (nonlinear_arith)
        requires
            z >= 1real / 256real,
            b == 256real * bound,
            bound >= 0real,
    ;
    if r > b {
        assert(r * z > b * z) by (nonlinear_arith)
            requires
                r > b,
                z > 0real,
        ;
        assert(r * z == x || r * z == -x) by (nonlinear_arith)
            requires
                r * y == x,
                z == y || z == -y,
        ;
    }
    if r < -b {
        assert(r * z < -(b * z)) by (nonlinear_arith)
            requires
                r < -b,
                z > 0real,
        ;
        assert(r * z == x || r * z == -x) by (nonlinear_arith)
            requires
                r * y == x,
                z == y || z == -y,
        ;
    }
}

proof fn product_is_small(x: real, y: real, a: real, b: real)
    requires
        -a <= x <= a,
        -b <= y <= b,
    ensures
        -(a * b) <= x * y <= a * b,
{
    assert(-(a * b) <= x * y <= a * b) by (nonlinear_arith)
        requires
            -a <= x <= a,
            -b <= y <= b,
    ;
}

/// The slope of a stretch is zero, or one to divide by.
proof fn slope_is_tame(points: Seq<[u8; 2]>, k: int)
    requires
        ascending(points),
        0 <= k < points.len() - 1,
    ensures
        is_tame(slope(points, k), 256real),
        slope(points, k) == (Real { bits: ZERO }) || is_steep(slope(points, k)),
{
    let (n, m) = (rise_of(points, k), run_of(points, k));
    assert(points[k][0] < points[k + 1][0]);
    wholes_subtract(points[k + 1][0] as nat, points[k][0] as nat);
    wholes_are_themselves(m as nat);
    let b = Real::nearest_to(m);
    zero_is_zero();
    slack_is_small(0real, 0real);
    if n == 0 {
        wholes_subtract(points[k][1] as nat, points[k][1] as nat);
        assert(slope(points, k) == (Real { bits: ZERO })) by {
            reveal(Real::nearest_to);
            reveal(Real::spec_over);
            zero_stays(m as nat);
        }
    } else {
        let (y1, y0) = (Real::of_byte(points[k + 1][1]), Real::of_byte(points[k][1]));
        wholes_are_themselves(points[k + 1][1] as nat);
        wholes_are_themselves(points[k][1] as nat);
        difference_rounds(y1, y0);
        let a = y1.minus(y0);
        slack_is_small(n as real, 255real);
        let (x, y) = (value(a), m as real);
        assert(1real / 2real <= size(x) <= 511real / 2real);
        quotient_rounds(a, b);
        let r = x / y;
        slope_of_run(x, y);
        slack_is_small(r, 511real / 2real);
    }
}

proof fn slope_of_run(x: real, y: real)
    requires
        1real <= y <= 255real,
        1real / 2real <= size(x) <= 511real / 2real,
        size(x) >= 511real / 512real,
    ensures
        511real / 512real / 255real <= size(x / y) <= 511real / 2real,
{
    let r = x / y;
    assert(r * y == x) by (nonlinear_arith)
        requires
            r == x / y,
            y >= 1real,
    ;
    let (s, z) = (size(r), size(x));
    assert(s * y == z) by (nonlinear_arith)
        requires
            r * y == x,
            s == r && r >= 0real || s == -r && r < 0real,
            z == x && x >= 0real || z == -x && x < 0real,
            y >= 1real,
    ;
    assert(s <= z) by (nonlinear_arith)
        requires
            s * y == z,
            y >= 1real,
            s >= 0real,
    ;
    assert(255real * s >= z) by (nonlinear_arith)
        requires
            s * y == z,
            y <= 255real,
            s >= 0real,
    ;
}

/// The tangents before they are limited are not large.
proof fn first_is_tame(points: Seq<[u8; 2]>, k: int)
    requires
        ascending(points),
        points.len() >= 2,
        0 <= k < points.len(),
    ensures
        is_tame(first_tangents(slopes(points))[k], 257real),
{
    let d = slopes(points);
    if k == 0 {
        slope_is_tame(points, 0);
    } else if k == points.len() - 1 {
        slope_is_tame(points, k - 1);
    } else {
        slope_is_tame(points, k - 1);
        slope_is_tame(points, k);
        let (a, b) = (d[k - 1], d[k]);
        slack_is_small(0real, 0real);
        sum_rounds(a, b);
        let c = a.plus(b);
        slack_is_small(value(a) + value(b), 512real);
        some_values();
        quotient_rounds(c, Real { bits: TWO });
        slack_is_small(value(c) / 2real, 257real);
    }
}

/// What a tangent is as a multiple of the slope.
proof fn multiple_is_tame(m: Real, d: Real, bound: real)
    requires
        is_tame(m, bound),
        0real <= bound <= 300real,
        is_steep(d),
    ensures
        is_tame(m.over(d), 80000real),
        -(bound + 1real / 1000real) <= value(m.over(d)) * value(d) <= bound + 1real / 1000real,
{
    slack_is_small(0real, 0real);
    let (x, y) = (value(m), value(d));
    assert(size(y) * power(60) >= 1real) by (nonlinear_arith)
        requires
            size(y) >= 1real / 256real,
            power(60) == 1152921504606846976real,
    ;
    quotient_rounds(m, d);
    ratio_is_small(x, y, bound);
    let (r, v) = (x / y, value(m.over(d)));
    slack_is_small(r, 76800real);
    let e = v - r;
    product_is_small(e, y, 1real / 1000000real, 256real);
    assert(v * y == r * y + e * y) by (nonlinear_arith)
        requires
            e == v - r,
    ;
}

/// A tangent that is scaled back grows by no more than a hundredth.
proof fn scaled_is_tame(tau: Real, alpha: Real, d: Real, bound: real)
    requires
        is_tame(tau, 1001real / 1000real),
        is_tame(alpha, 80000real),
        is_steep(d),
        0real <= bound <= 301real,
        -bound <= value(alpha) * value(d) <= bound,
    ensures
        is_tame(tau.times(alpha).times(d), 1001real / 1000real * bound + 1real / 100real),
{
    slack_is_small(0real, 0real);
    let (t, a, y) = (value(tau), value(alpha), value(d));
    product_rounds(tau, alpha);
    product_is_small(t, a, 1001real / 1000real, 80000real);
    slack_is_small(t * a, 81000real);
    let p = value(tau.times(alpha));
    let e = p - t * a;
    product_is_small(e, y, 1real / 1000000real, 256real);
    product_is_small(t, a * y, 1001real / 1000real, bound);
    assert(p * y == t * (a * y) + e * y) by (nonlinear_arith)
        requires
            e == p - t * a,
    ;
    product_rounds(tau.times(alpha), d);
    slack_is_small(p * y, 1000real);
}

/// Limited tangents are not large.
proof fn limited_is_tame(m: Real, n: Real, d: Real, bound: real)
    requires
        d == (Real { bits: ZERO }) || is_steep(d),
        is_tame(m, bound),
        is_tame(n, bound),
        bound <= 300real,
    ensures
        is_tame(limited(m, n, d).0, 1001real / 1000real * bound + 1real / 10real),
        is_tame(limited(m, n, d).1, 1001real / 1000real * bound + 1real / 10real),
{
    let zero = Real { bits: ZERO };
    zero_is_zero();
    assert(zero.same(zero));
    if !d.same(zero) {
        let (a, b) = (with_slope(m, d), with_slope(n, d));
        multiple_is_tame(a, d, bound);
        multiple_is_tame(b, d, bound);
        let (alpha, beta) = (a.over(d), b.over(d));
        squares_are_tame(alpha, beta);
        let s = alpha.times(alpha).plus(beta.times(beta));
        some_values();
        let nine = Real { bits: NINE };
        order_is_by_value(nine, s);
        if nine.below(s) {
            scale_is_near(s);
            let tau = (Real { bits: THREE }).over(s.root());
            scaled_is_tame(tau, alpha, d, bound + 1real / 1000real);
            scaled_is_tame(tau, beta, d, bound + 1real / 1000real);
        }
    }
}

proof fn squares_are_tame(a: Real, b: Real)
    requires
        is_tame(a, 80000real),
        is_tame(b, 80000real),
    ensures
        is_positive(a.times(a).plus(b.times(b))),
        value(a.times(a).plus(b.times(b))) <= 30000000000real,
{
    slack_is_small(0real, 0real);
    let (x, y) = (value(a), value(b));
    product_rounds(a, a);
    product_rounds(b, b);
    product_is_small(x, x, 80000real, 80000real);
    product_is_small(y, y, 80000real, 80000real);
    slack_is_small(x * x, 6400000000real);
    slack_is_small(y * y, 6400000000real);
    let (p, q) = (a.times(a), b.times(b));
    sum_rounds(p, q);
    slack_is_small(value(p) + value(q), 13000000000real);
}

/// How large a tangent can be after the first `n` stretches have been limited.
spec fn ceiling(j: int, n: nat) -> real {
    if j < n {
        259real
    } else if j == n {
        258real
    } else {
        257real
    }
}

proof fn limiting_is_tame(points: Seq<[u8; 2]>, n: nat)
    requires
        ascending(points),
        points.len() >= 2,
        n <= points.len() - 1,
    ensures
        limited_tangents(slopes(points), n).len() == points.len(),
        forall|j: int|
            0 <= j < points.len() ==> is_tame(
                #[trigger] limited_tangents(slopes(points), n)[j],
                ceiling(j, n),
            ),
    decreases n,
{
    let d = slopes(points);
    if n == 0 {
        assert forall|j: int| 0 <= j < points.len() implies is_tame(
            #[trigger] limited_tangents(d, n)[j],
            ceiling(j, n),
        ) by {
            first_is_tame(points, j);
        }
    } else {
        let q = n - 1;
        limiting_is_tame(points, q as nat);
        let m = limited_tangents(d, q as nat);
        slope_is_tame(points, q);
        assert(is_tame(m[q], ceiling(q, q as nat)));
        assert(is_tame(m[q + 1], ceiling(q + 1, q as nat)));
        limited_is_tame(m[q], m[q + 1], d[q], 258real);
        one_is_tame(m[q], m[q + 1], d[q]);
        let (a, b) = limited(m[q], m[q + 1], d[q]);
        let r = limited_tangents(d, n);
        assert(r == m.update(q, a).update(q + 1, b));
        assert forall|j: int| 0 <= j < points.len() implies is_tame(
            #[trigger] r[j],
            ceiling(j, n),
        ) by {
            if j < q || j > q + 1 {
                assert(r[j] == m[j]);
                assert(is_tame(m[j], ceiling(j, q as nat)));
            }
        }
    }
}

/// The second of two limited tangents by what it was.
proof fn one_is_tame(m: Real, n: Real, d: Real)
    requires
        is_tame(m, 258real),
        is_tame(n, 257real),
        d == (Real { bits: ZERO }) || is_steep(d),
    ensures
        is_tame(limited(m, n, d).1, 258real),
{
    let zero = Real { bits: ZERO };
    zero_is_zero();
    assert(zero.same(zero));
    if !d.same(zero) {
        let (a, b) = (with_slope(m, d), with_slope(n, d));
        multiple_is_tame(a, d, 258real);
        multiple_is_tame(b, d, 257real);
        let (alpha, beta) = (a.over(d), b.over(d));
        squares_are_tame(alpha, beta);
        let s = alpha.times(alpha).plus(beta.times(beta));
        some_values();
        let nine = Real { bits: NINE };
        order_is_by_value(nine, s);
        if nine.below(s) {
            scale_is_near(s);
            let tau = (Real { bits: THREE }).over(s.root());
            scaled_is_tame(tau, beta, d, 257real + 1real / 1000real);
        }
    }
}

/// A zero, of either sign.
spec fn is_nil(v: Real) -> bool {
    is_number(v) && zero(Width::Double, v.bits)
}

proof fn nil_times(v: Real, z: Real)
    requires
        is_number(v),
        is_nil(z),
    ensures
        is_nil(v.times(z)),
        is_nil(z.times(v)),
{
    reveal(Real::spec_times);
    product_by_zero(Width::Double, v.bits, z.bits);
}

proof fn nil_plus(a: Real, b: Real)
    requires
        is_nil(a),
        is_nil(b),
    ensures
        is_nil(a.plus(b)),
        is_nil(a.minus(b)),
{
    reveal(Real::spec_plus);
    reveal(Real::spec_negated);
    let c = b.negated();
    assert(unsigned(Width::Double, c.bits) == unsigned(Width::Double, b.bits));
    sum_of_zeros(Width::Double, a.bits, b.bits);
    sum_of_zeros(Width::Double, a.bits, c.bits);
}

proof fn nil_is_zero(z: Real)
    requires
        is_nil(z),
    ensures
        value(z) == 0real,
{
    zero_is_zero();
    magnitude_by_parts(z.bits);
    parts_of(Width::Double, z.bits);
    parts_of(Width::Double, 0);
}

/// A zero adds nothing.
proof fn plus_nil(a: Real, z: Real)
    requires
        is_number(a),
        is_nil(z),
    ensures
        is_number(a.plus(z)),
        value(a.plus(z)) == value(a),
        !is_nil(a) ==> a.plus(z) == a && z.plus(a) == a,
{
    reveal(Real::spec_plus);
    if is_nil(a) {
        sum_of_zeros(Width::Double, a.bits, z.bits);
        nil_is_zero(a);
        nil_is_zero(a.plus(z));
    } else {
        sum_with_zero(Width::Double, a.bits, z.bits);
    }
}

/// A cubic starts at its first point.
proof fn cubic_starts(h: Real, y0: Real, y1: Real, m0: Real, m1: Real)
    requires
        is_number(h),
        is_number(y0),
        is_number(y1),
        is_number(m0),
        is_number(m1),
    ensures
        is_number(hermite(Real { bits: ZERO }, h, y0, y1, m0, m1)),
        value(hermite(Real { bits: ZERO }, h, y0, y1, m0, m1)) == value(y0),
{
    let t = Real { bits: ZERO };
    let (one, two, three) = (Real { bits: ONE }, Real { bits: TWO }, Real { bits: THREE });
    let minus_two = Real { bits: MINUS_TWO };
    some_values();
    nil_times(t, t);
    let t2 = t.times(t);
    nil_times(t2, t);
    let t3 = t2.times(t);
    nil_times(two, t3);
    nil_times(three, t2);
    nil_times(two, t2);
    nil_times(minus_two, t3);
    let a = two.times(t3).minus(three.times(t2));
    nil_plus(two.times(t3), three.times(t2));
    plus_nil(one, a);
    assert(a.plus(one) == one);
    assert(one.times(y0) == y0) by {
        reveal(Real::spec_times);
        product_by_one(Width::Double, y0.bits);
    }
    let b = t3.minus(two.times(t2));
    nil_plus(t3, two.times(t2));
    nil_plus(b, t);
    nil_times(h, b.plus(t));
    nil_times(m0, b.plus(t).times(h));
    plus_nil(y0, b.plus(t).times(h).times(m0));
    let u = y0.plus(b.plus(t).times(h).times(m0));
    let c = minus_two.times(t3).plus(three.times(t2));
    nil_plus(minus_two.times(t3), three.times(t2));
    nil_times(y1, c);
    plus_nil(u, c.times(y1));
    let v = u.plus(c.times(y1));
    let e = t3.minus(t2);
    nil_plus(t3, t2);
    nil_times(h, e);
    nil_times(m1, e.times(h));
    plus_nil(v, e.times(h).times(m1));
}

proof fn stretch_starts(points: Seq<[u8; 2]>, k: int, s: int)
    requires
        ascending(points),
        0 <= s <= k < points.len() - 1,
    ensures
        stretch_from(points, points[k][0] as int, s) == k,
    decreases k - s,
{
    let x = points[k][0] as int;
    assert(points[k][0] < points[k + 1][0]);
    if s < k {
        assert(s + 1 < k ==> points[s + 1][0] < points[k][0]);
        stretch_starts(points, k, s + 1);
    }
}

/// The table of a curve goes through each of its points.
pub proof fn curves_meet_their_points(points: Seq<[u8; 2]>, lut: Seq<u8>, k: int)
    requires
        is_curve(points, lut),
        ascending(points),
        0 <= k < points.len(),
    ensures
        lut[points[k][0] as int] == points[k][1],
{
    let (x, y) = (points[k][0] as int, points[k][1]);
    let n = points.len() as int;
    if n >= 2 {
        wholes_are_themselves(y as nat);
        assert(k > 0 ==> points[0][0] < points[k][0]);
        assert(k < n - 1 ==> points[k][0] < points[n - 1][0]);
        let h = curve_height(points, x);
        if 0 < k < n - 1 {
            stretch_starts(points, k, 0);
            assert(points[k][0] < points[k + 1][0]);
            let run = run_of(points, k);
            wholes_subtract(points[k + 1][0] as nat, points[k][0] as nat);
            wholes_subtract(x as nat, points[k][0] as nat);
            wholes_are_themselves(run as nat);
            wholes_are_themselves(points[k + 1][1] as nat);
            assert(Real::nearest_to(0).over(Real::nearest_to(run)) == (Real { bits: ZERO })) by {
                reveal(Real::nearest_to);
                reveal(Real::spec_over);
                zero_stays(run as nat);
            }
            limiting_is_tame(points, (n - 1) as nat);
            let m = tangents(points);
            assert(is_tame(m[k], ceiling(k, (n - 1) as nat)));
            assert(is_tame(m[k + 1], ceiling(k + 1, (n - 1) as nat)));
            cubic_starts(
                Real::nearest_to(run),
                Real::of_byte(y),
                Real::of_byte(points[k + 1][1]),
                m[k],
                m[k + 1],
            );
        }
        assert(value(h) == y as real);
        assert(lut[x] == grid_byte(h));
        byte_of_near_whole(h, y);
    }
}

} // verus!
