//! Turning about a point, and one mapping after another, over the real numbers.
use vstd::prelude::*;

use crate::binary::Real;
use crate::exact::is_number;
use crate::nearness::{grain, near, near_difference, near_sum, near_times};
use crate::ordering::close;
use crate::straight_law::{negated_value, row_at};
use crate::tolerance::trace;
use crate::transform::{Point, Row, Transform};
use crate::value::{some_values, value, zero_is_zero};

verus! {

/// A number of at most a bound.
pub open spec fn is_bounded_by(v: Real, bound: real) -> bool {
    is_number(v) && -bound <= value(v) <= bound
}

proof fn few_grains()
    ensures
        (100000real + 1real) * grain() <= 20real * trace(),
        (2real * 400000real + 1real) * grain() <= 100real * trace(),
        (10000000real + 1real) * grain() <= 2000real * trace(),
        (2real * 40000000real + 1real) * grain() <= 10000real * trace(),
{
    assert((100000real + 1real) * grain() <= 20real * trace() && (2real * 400000real + 1real)
        * grain() <= 100real * trace() && (10000000real + 1real) * grain() <= 2000real * trace()
        && (2real * 40000000real + 1real) * grain() <= 10000real * trace()) by (nonlinear_arith)
        requires
            grain() == 1real / 9007199254740992real,
            trace() == 1real / 1000000000000real,
    ;
}

proof fn product_is_bounded(x: real, y: real, a: real, b: real)
    requires
        -a <= x <= a,
        -b <= y <= b,
    ensures
        -(a * b) <= x * y <= a * b,
{
    assert(-(a * b) <= x * y <= a * b) by (nonlinear_arith)
        requires
            -a <= x <= a,
            -b <= y <= b,
    ;
}

/// A turn takes the point it is about to the point that is meant, and every other point as far
/// from there as it was, turned: from the first axis toward the second by the angle of the sine
/// and the cosine.
pub proof fn turning_turns(sine: Real, cosine: Real, from: Point, to: Point, dx: real, dy: real)
    requires
        is_bounded_by(sine, 1real),
        is_bounded_by(cosine, 1real),
        is_bounded_by(from.x, 100000real) && is_bounded_by(from.y, 100000real),
        is_bounded_by(to.x, 100000real) && is_bounded_by(to.y, 100000real),
    ensures
        ({
            let t = Transform::rotate_about(sine, cosine, from, to);
            let (s, c) = (value(sine), value(cosine));
            let (x, y) = (value(from.x) + dx, value(from.y) + dy);
            let e = 1real / 1000000real;
            &&& close(row_at(t.across, x, y), value(to.x) + (c * dx - s * dy), e)
            &&& close(row_at(t.down, x, y), value(to.y) + (s * dx + c * dy), e)
            &&& row_at(t.depth, x, y) == 1real
        }),
{
    few_grains();
    some_values();
    zero_is_zero();
    negated_value(sine);
    let (s, c) = (value(sine), value(cosine));
    let (fx, fy, tx, ty) = (value(from.x), value(from.y), value(to.x), value(to.y));
    let t = trace();
    let m = 100000real;
    product_is_bounded(c, fx, 1real, m);
    product_is_bounded(s, fy, 1real, m);
    product_is_bounded(s, fx, 1real, m);
    product_is_bounded(c, fy, 1real, m);
    near_times(cosine, c, 0real, 1real, from.x, fx, 0real, m, m, 20real * t);
    near_times(sine, s, 0real, 1real, from.y, fy, 0real, m, m, 20real * t);
    near_times(sine, s, 0real, 1real, from.x, fx, 0real, m, m, 20real * t);
    near_times(cosine, c, 0real, 1real, from.y, fy, 0real, m, m, 20real * t);
    let (a, b) = (cosine.times(from.x), sine.times(from.y));
    let (p, q) = (sine.times(from.x), cosine.times(from.y));
    let n = 400000real;
    near_difference(a, c * fx, 20real * t, b, s * fy, 20real * t, n, 200real * t);
    near_sum(p, s * fx, 20real * t, q, c * fy, 20real * t, n, 200real * t);
    near_difference(to.x, tx, 0real, a.minus(b), c * fx - s * fy, 200real * t, n, 400real * t);
    near_difference(to.y, ty, 0real, p.plus(q), s * fx + c * fy, 200real * t, n, 400real * t);
    assert(c * (fx + dx) == c * fx + c * dx && s * (fx + dx) == s * fx + s * dx)
        by (nonlinear_arith);
    assert(c * (fy + dy) == c * fy + c * dy) by (nonlinear_arith);
    assert((-s) * (fy + dy) == -(s * fy) - s * dy) by (nonlinear_arith);
    let (x, y) = (fx + dx, fy + dy);
    assert(0real * x == 0real && 0real * y == 0real) by (nonlinear_arith);
}

/// The size of the entries of a row: those that count in pixels may be large.
pub open spec fn is_ordinary(r: Row) -> bool {
    is_bounded_by(r.x, 100real) && is_bounded_by(r.y, 100real) && is_bounded_by(r.one, 100000real)
}

/// The size of the entries of a last row.
pub open spec fn is_ordinary_depth(r: Row) -> bool {
    is_bounded_by(r.x, 1real) && is_bounded_by(r.y, 1real) && is_bounded_by(r.one, 2real)
}

/// A row at a point in homogeneous coordinates.
pub open spec fn row_over(r: Row, x: real, y: real, w: real) -> real {
    value(r.x) * x + value(r.y) * y + value(r.one) * w
}

/// One entry of a row that follows a mapping, for directions.
proof fn entry_of_direction(r: Row, a: Real, b: Real, c: Real)
    requires
        is_ordinary(r),
        is_bounded_by(a, 100real),
        is_bounded_by(b, 100real),
        is_bounded_by(c, 1real),
    ensures
        near(
            r.x.times(a).plus(r.y.times(b)).plus(r.one.times(c)),
            value(r.x) * value(a) + value(r.y) * value(b) + value(r.one) * value(c),
            300real * trace(),
        ),
{
    few_grains();
    let t = trace();
    let (p, q, o) = (value(r.x), value(r.y), value(r.one));
    let (u, v, w) = (value(a), value(b), value(c));
    let m = 100000real;
    product_is_bounded(p, u, 100real, 100real);
    product_is_bounded(q, v, 100real, 100real);
    product_is_bounded(o, w, m, 1real);
    near_times(r.x, p, 0real, 100real, a, u, 0real, 100real, m, 20real * t);
    near_times(r.y, q, 0real, 100real, b, v, 0real, 100real, m, 20real * t);
    near_times(r.one, o, 0real, m, c, w, 0real, 1real, m, 20real * t);
    let (i, j, k) = (r.x.times(a), r.y.times(b), r.one.times(c));
    let n = 400000real;
    near_sum(i, p * u, 20real * t, j, q * v, 20real * t, n, 140real * t);
    near_sum(i.plus(j), p * u + q * v, 140real * t, k, o * w, 20real * t, n, 300real * t);
}

/// One entry of a row that follows a mapping, for places.
proof fn entry_of_place(r: Row, a: Real, b: Real, c: Real)
    requires
        is_ordinary(r),
        is_bounded_by(a, 100000real),
        is_bounded_by(b, 100000real),
        is_bounded_by(c, 2real),
    ensures
        near(
            r.x.times(a).plus(r.y.times(b)).plus(r.one.times(c)),
            value(r.x) * value(a) + value(r.y) * value(b) + value(r.one) * value(c),
            50000real * trace(),
        ),
{
    few_grains();
    let t = trace();
    let (p, q, o) = (value(r.x), value(r.y), value(r.one));
    let (u, v, w) = (value(a), value(b), value(c));
    let (m, l) = (100000real, 10000000real);
    product_is_bounded(p, u, 100real, m);
    product_is_bounded(q, v, 100real, m);
    product_is_bounded(o, w, m, 2real);
    near_times(r.x, p, 0real, 100real, a, u, 0real, m, l, 2000real * t);
    near_times(r.y, q, 0real, 100real, b, v, 0real, m, l, 2000real * t);
    near_times(r.one, o, 0real, m, c, w, 0real, 2real, l, 2000real * t);
    let (i, j, k) = (r.x.times(a), r.y.times(b), r.one.times(c));
    let n = 40000000real;
    near_sum(i, p * u, 2000real * t, j, q * v, 2000real * t, n, 20000real * t);
    near_sum(i.plus(j), p * u + q * v, 20000real * t, k, o * w, 2000real * t, n, 50000real * t);
}

/// A row that follows a mapping is the row at what the mapping makes of a point.
pub proof fn following_is_one_after_the_other(r: Row, first: Transform, x: real, y: real)
    requires
        is_ordinary(r),
        is_ordinary(first.across),
        is_ordinary(first.down),
        is_ordinary_depth(first.depth),
        -100000real <= x <= 100000real,
        -100000real <= y <= 100000real,
    ensures
        close(
            row_at(r.after(first), x, y),
            row_over(
                r,
                row_at(first.across, x, y),
                row_at(first.down, x, y),
                row_at(first.depth, x, y),
            ),
            1real / 1000real,
        ),
{
    let (a, d, w) = (first.across, first.down, first.depth);
    entry_of_direction(r, a.x, d.x, w.x);
    entry_of_direction(r, a.y, d.y, w.y);
    entry_of_place(r, a.one, d.one, w.one);
    let f = r.after(first);
    let t = trace();
    let (p, q, o) = (value(r.x), value(r.y), value(r.one));
    let (ax, ay, ao) = (value(a.x), value(a.y), value(a.one));
    let (bx, by, bo) = (value(d.x), value(d.y), value(d.one));
    let (cx, cy, co) = (value(w.x), value(w.y), value(w.one));
    let (ex, ey) = (p * ax + q * bx + o * cx, p * ay + q * by + o * cy);
    let (gx, gy) = (value(f.x) - ex, value(f.y) - ey);
    off_by(value(f.x), ex, gx, x, 300real * t);
    off_by(value(f.y), ey, gy, y, 300real * t);
    sum_by(p * ax, q * bx, o * cx, x);
    sum_by(p * ay, q * by, o * cy, y);
    row_by(p, ax, x, ay, y, ao);
    row_by(q, bx, x, by, y, bo);
    row_by(o, cx, x, cy, y, co);
}

proof fn off_by(f: real, e: real, g: real, x: real, t: real)
    requires
        g == f - e,
        -t <= g <= t,
        -100000real <= x <= 100000real,
        t >= 0real,
    ensures
        f * x == e * x + g * x,
        -(100000real * t) <= g * x <= 100000real * t,
{
    assert(f * x == e * x + g * x) by (nonlinear_arith)
        requires
            g == f - e,
    ;
    product_is_bounded(g, x, t, 100000real);
    assert(t * 100000real == 100000real * t) by (nonlinear_arith);
}

proof fn sum_by(a: real, b: real, c: real, x: real)
    ensures
        (a + b + c) * x == a * x + b * x + c * x,
{
    assert((a + b + c) * x == a * x + b * x + c * x) by (nonlinear_arith);
}

proof fn row_by(p: real, a: real, x: real, b: real, y: real, c: real)
    ensures
        p * (a * x + b * y + c) == p * a * x + p * b * y + p * c,
{
    let (u, v) = (a * x, b * y);
    assert(p * (u + v + c) == p * u + p * v + p * c) by (nonlinear_arith);
    assert(p * (a * x) == p * a * x) by (nonlinear_arith);
    assert(p * (b * y) == p * b * y) by (nonlinear_arith);
}

} // verus!
