//! A stretch of a curve in steps: what the cubic gains from one place to the next.
use vstd::prelude::*;

use crate::growth::{
    are_short, cubic, h00, h01, h10, h11, larger_product, step_is_up, step_of,
};

verus! {

proof fn quotient_times(x: real, h: real)
    requires
        h > 0real,
    ensures
        (x / h) * h == x,
{
    assert((x / h) * h == x) by (nonlinear_arith)
        requires
            h > 0real,
    ;
}

/// A product with a sum, and with a difference.
pub proof fn distributes(c: real, x: real, y: real, z: real)
    ensures
        c * (x + y + z) == c * x + c * y + c * z,
        c * (x - y) == c * x - c * y,
{
    assert(c * (x + y + z) == c * x + c * y + c * z) by (nonlinear_arith);
    assert(c * (x - y) == c * x - c * y) by (nonlinear_arith);
}

proof fn cubes_of_product(t: real, h: real)
    ensures
        (t * h) * (t * h) * (t * h) == (h * h * h) * (t * t * t),
        h * ((t * h) * (t * h)) == (h * h * h) * (t * t),
        h * h * (t * h) == (h * h * h) * t,
{
    assert((t * h) * (t * h) * (t * h) == (h * h * h) * (t * t * t)) by (nonlinear_arith);
    assert(h * ((t * h) * (t * h)) == (h * h * h) * (t * t)) by (nonlinear_arith);
    assert(h * h * (t * h) == (h * h * h) * t) by (nonlinear_arith);
}

proof fn powers_of_next(i: real, j: real)
    ensures
        (j + 1real) * (j + 1real) == j * j + 2real * j + 1real,
        (j + 1real) * (j + 1real) * (j + 1real) == j * j * j + 3real * (j * j) + 3real * j + 1real,
        (i + j + 1real) * (j * j) == i * (j * j) + j * j * j + j * j,
        (i + j + 1real) * ((j + 1real) * (j + 1real)) == i * (j * j) + j * j * j + j * j + 2real * (i
            * j) + 2real * (j * j) + 2real * j + i + j + 1real,
        (i + j + 1real) * (i + j + 1real) == i * i + j * j + 1real + 2real * (i * j) + 2real * i + 2real
            * j,
{
    assert((j + 1real) * (j + 1real) == j * j + 2real * j + 1real) by (nonlinear_arith);
    assert((j + 1real) * (j + 1real) * (j + 1real) == j * j * j + 3real * (j * j) + 3real * j + 1real)
        by (nonlinear_arith);
    assert((i + j + 1real) * (j * j) == i * (j * j) + j * j * j + j * j) by (nonlinear_arith);
    assert((i + j + 1real) * ((j + 1real) * (j + 1real)) == i * (j * j) + j * j * j + j * j + 2real * (i
        * j) + 2real * (j * j) + 2real * j + i + j + 1real) by (nonlinear_arith);
    assert((i + j + 1real) * (i + j + 1real) == i * i + j * j + 1real + 2real * (i * j) + 2real * i
        + 2real * j) by (nonlinear_arith);
}

/// The cubics at a part of the length, times its cube.
proof fn cubics_in_steps(t: real, h: real)
    ensures
        ({
            let x = t * h;
            let c = h * h * h;
            &&& c * h01(t) == 3real * (h * (x * x)) - 2real * (x * x * x)
            &&& c * h10(t) == x * x * x - 2real * (h * (x * x)) + h * h * x
            &&& c * h11(t) == x * x * x - h * (x * x)
        }),
{
    let c = h * h * h;
    cubes_of_product(t, h);
    let (t3, t2) = (t * t * t, t * t);
    assert(c * (3real * t2 - 2real * t3) == 3real * (c * t2) - 2real * (c * t3)) by (nonlinear_arith);
    assert(c * (t3 - 2real * t2 + t) == c * t3 - 2real * (c * t2) + c * t) by (nonlinear_arith);
    assert(c * (t3 - t2) == c * t3 - c * t2) by (nonlinear_arith);
}

/// The cubic by its rise and its tangents.
pub proof fn cubic_by_rise(t: real, h: real, y0: real, y1: real, m0: real, m1: real)
    ensures
        cubic(t, h, y0, y1, m0, m1) == y0 + h01(t) * (y1 - y0) + h10(t) * (h * m0) + h11(t) * (h * m1),
{
    let (a, b, c) = (h01(t), h10(t), h11(t));
    assert(h00(t) == 1real - a);
    assert((1real - a) * y0 == y0 - a * y0) by (nonlinear_arith);
    assert(a * (y1 - y0) == a * y1 - a * y0) by (nonlinear_arith);
    assert(b * h * m0 == b * (h * m0)) by (nonlinear_arith);
    assert(c * h * m1 == c * (h * m1)) by (nonlinear_arith);
}

/// What a step adds to the cubic, times the cube of the length.
proof fn gain_in_steps(i: real, j: real, y0: real, y1: real, m0: real, m1: real)
    requires
        i + j + 1real > 0real,
    ensures
        ({
            let h = i + j + 1real;
            let (p, q) = (j / h, (j + 1real) / h);
            let g = cubic(q, h, y0, y1, m0, m1) - cubic(p, h, y0, y1, m0, m1);
            (h * h * h) * g == step_of(i, j, y1 - y0, h * m0, h * m1)
        }),
{
    let h = i + j + 1real;
    let (p, q) = (j / h, (j + 1real) / h);
    let (d, a, b) = (y1 - y0, h * m0, h * m1);
    let k = j + 1real;
    quotient_times(j, h);
    quotient_times(k, h);
    cubics_in_steps(p, h);
    cubics_in_steps(q, h);
    cubic_by_rise(p, h, y0, y1, m0, m1);
    cubic_by_rise(q, h, y0, y1, m0, m1);
    powers_of_next(i, j);
    let c = h * h * h;
    let hh = h * h;
    let (p1, p2, p3) = (h01(p), h10(p), h11(p));
    let (q1, q2, q3) = (h01(q), h10(q), h11(q));
    let g = (q1 * d + q2 * a + q3 * b) - (p1 * d + p2 * a + p3 * b);
    distributes(c, q1 * d, q2 * a, q3 * b);
    distributes(c, p1 * d, p2 * a, p3 * b);
    distributes(c, q1 * d + q2 * a + q3 * b, p1 * d + p2 * a + p3 * b, 0real);
    assert(c * (q1 * d) == d * (c * q1)) by (nonlinear_arith);
    assert(c * (q2 * a) == a * (c * q2)) by (nonlinear_arith);
    assert(c * (q3 * b) == b * (c * q3)) by (nonlinear_arith);
    assert(c * (p1 * d) == d * (c * p1)) by (nonlinear_arith);
    assert(c * (p2 * a) == a * (c * p2)) by (nonlinear_arith);
    assert(c * (p3 * b) == b * (c * p3)) by (nonlinear_arith);
    distributes(d, c * q1, c * p1, 0real);
    distributes(a, c * q2, c * p2, 0real);
    distributes(b, c * q3, c * p3, 0real);
    assert(hh * (j + 1real) == hh * j + hh) by (nonlinear_arith);
    assert(c * q1 - c * p1 == 6real * (i * j) + 3real * i + 3real * j + 1real);
    assert(c * q2 - c * p2 == i * i - 2real * (i * j) - j);
    assert(c * q3 - c * p3 == j * j - 2real * (i * j) - i);
}

/// A step along a stretch that does not fall, `j` steps from its start and `i` before its
/// end: the cubic gains at least so much.
pub proof fn cubic_gains(i: real, j: real, y0: real, y1: real, m0: real, m1: real)
    requires
        0real <= i,
        0real <= j,
        i + j <= 254real,
        y0 <= y1,
        are_short(y1 - y0, (i + j + 1real) * m0, (i + j + 1real) * m1),
    ensures
        ({
            let h = i + j + 1real;
            let (p, q) = (j / h, (j + 1real) / h);
            cubic(q, h, y0, y1, m0, m1) - cubic(p, h, y0, y1, m0, m1) >= (y1 - y0) / 33162750real
        }),
{
    let h = i + j + 1real;
    let (p, q) = (j / h, (j + 1real) / h);
    let d = y1 - y0;
    gain_in_steps(i, j, y0, y1, m0, m1);
    step_is_up(i, j, d, h * m0, h * m1);
    let c = h * h * h;
    let g = cubic(q, h, y0, y1, m0, m1) - cubic(p, h, y0, y1, m0, m1);
    larger_product(h, 255real, h);
    larger_product(h * h, 65025real, h);
    larger_product(1real, h, h);
    larger_product(1real, h * h, h);
    assert(1real * h == h);
    assert(1real <= c <= 16581375real);
    if g < 0real {
        larger_product(1real, c, -g);
        assert(c * (-g) == -(c * g)) by (nonlinear_arith);
        assert(1real * (-g) == -g);
    } else {
        larger_product(c, 16581375real, g);
    }
}

} // verus!
