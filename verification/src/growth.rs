//! A cubic between two points rises at every step, if its tangents are short enough.
use vstd::prelude::*;

verus! {

/// The cubic that carries the height of the left end.
pub open spec fn h00(t: real) -> real {
    2real * (t * t * t) - 3real * (t * t) + 1real
}

/// The cubic that carries the slope of the left end.
pub open spec fn h10(t: real) -> real {
    t * t * t - 2real * (t * t) + t
}

/// The cubic that carries the height of the right end.
pub open spec fn h01(t: real) -> real {
    3real * (t * t) - 2real * (t * t * t)
}

/// The cubic that carries the slope of the right end.
pub open spec fn h11(t: real) -> real {
    t * t * t - t * t
}

/// The cubic between two points.
pub open spec fn cubic(t: real, h: real, y0: real, y1: real, m0: real, m1: real) -> real {
    h00(t) * y0 + h10(t) * h * m0 + h01(t) * y1 + h11(t) * h * m1
}

/// How much more than allowed the tangents may add up to.
pub open spec fn excess() -> real {
    1real / 262144real
}

/// Tangents, times the length, that are short enough for a rise of `d`.
pub open spec fn are_short(d: real, a: real, b: real) -> bool {
    let m = 3real * d + 3real * (d * excess());
    0real <= a <= m && 0real <= b <= m
}

/// What a step adds, times the cube of the length: at the place with `j` steps before it and
/// `i` after it.
pub open spec fn step_of(i: real, j: real, d: real, a: real, b: real) -> real {
    d * (6real * (i * j) + 3real * i + 3real * j + 1real) + a * (i * i - 2real * (i * j) - j) + b * (j
        * j - 2real * (i * j) - i)
}

/// A larger factor makes a larger product.
pub proof fn larger_product(x: real, y: real, z: real)
    requires
        x <= y,
        z >= 0real,
    ensures
        x * z <= y * z,
        z * x <= z * y,
{
    assert(x * z <= y * z && z * x <= z * y) by (nonlinear_arith)
        requires
            x <= y,
            z >= 0real,
    ;
}

/// A tangent that is short enough pulls down no more than at its longest.
proof fn pull_is_bounded(a: real, m: real, b: real) -> (low: real)
    requires
        0real <= a <= m,
    ensures
        low <= a * b,
        b >= 0real ==> low == 0real,
        b < 0real ==> low == m * b,
{
    if b >= 0real {
        larger_product(0real, a, b);
        assert(0real * b == 0real);
        0real
    } else {
        larger_product(a, m, -b);
        assert(a * (-b) == -(a * b)) by (nonlinear_arith);
        assert(m * (-b) == -(m * b)) by (nonlinear_arith);
        m * b
    }
}

/// Every step of a stretch that rises goes up.
pub proof fn step_is_up(i: real, j: real, d: real, a: real, b: real)
    requires
        0real <= i,
        0real <= j,
        i + j <= 254real,
        d >= 0real,
        are_short(d, a, b),
    ensures
        step_of(i, j, d, a, b) >= d / 2real,
{
    let e = excess();
    let m = 3real * d + 3real * (d * e);
    let (p, q) = (i * i - 2real * (i * j) - j, j * j - 2real * (i * j) - i);
    let u = 6real * (i * j) + 3real * i + 3real * j;
    let (k, l) = (3real * (i * i + i), 3real * (j * j + j));
    assert(u + 3real * p == k && u + 3real * q == l);
    let w = (i - j) * (i - j);
    assert(w >= 0real) by (nonlinear_arith)
        requires
            w == (i - j) * (i - j),
    ;
    assert(w == i * i - 2real * (i * j) + j * j) by (nonlinear_arith)
        requires
            w == (i - j) * (i - j),
    ;
    larger_product(0real, i, i);
    larger_product(0real, j, j);
    larger_product(0real, i, j);
    assert(0real * i == 0real && 0real * j == 0real);
    let low = pull_is_bounded(a, m, p);
    let high = pull_is_bounded(b, m, q);
    let (s, t) = (-3real * p, -3real * q);
    // The room is what both pulls together need, or one alone.
    assert(s <= u && t <= u && s + t <= u);
    let v = if p < 0real && q < 0real {
        s + t
    } else if p < 0real {
        s
    } else if q < 0real {
        t
    } else {
        0real
    };
    assert(m * p == -(d * s) - d * e * s) by (nonlinear_arith)
        requires
            m == 3real * d + 3real * (d * e),
            s == -3real * p,
    ;
    assert(m * q == -(d * t) - d * e * t) by (nonlinear_arith)
        requires
            m == 3real * d + 3real * (d * e),
            t == -3real * q,
    ;
    assert(d * (s + t) == d * s + d * t) by (nonlinear_arith);
    let de = d * e;
    assert(de * (s + t) == de * s + de * t) by (nonlinear_arith);
    assert(d * 0real == 0real && de * 0real == 0real);
    assert(low + high >= -(d * v) - de * v);
    larger_product(v, u, d);
    assert(de >= 0real) by (nonlinear_arith)
        requires
            de == d * e,
            d >= 0real,
            e > 0real,
    ;
    larger_product(v, u, de);
    assert(d * (u + 1real) == d * u + d) by (nonlinear_arith);
    // The room itself is small enough.
    assert(i * j <= 254real * 64real) by (nonlinear_arith)
        requires
            0real <= i,
            0real <= j,
            i + j <= 254real,
            (i - j) * (i - j) >= 0real,
    ;
    larger_product(u, 131072real, de);
    assert(de * 131072real == d / 2real) by (nonlinear_arith)
        requires
            de == d * e,
            e == 1real / 262144real,
    ;
}

} // verus!
