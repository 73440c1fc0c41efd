//! Curves through points that do not fall do not fall.
use vstd::prelude::*;

use crate::binary::Real;
use crate::exact::is_number;
use crate::growth::{cubic, h00, h01, h10, h11, larger_product};
use crate::nearness::{
    grain, near, near_difference, near_product, near_quotient, near_sum,
};
use crate::number::{MINUS_TWO, ONE, THREE, TWO};
use crate::ops::color::hermite;
use crate::value::{size, some_values, value};

verus! {

/// One part in 2^50.
pub open spec fn fine() -> real {
    1real / 1125899906842624real
}

/// The cubics of a part are at most 1 in size.
pub proof fn cubics_are_small(t: real)
    requires
        0real <= t <= 1real,
    ensures
        0real <= h00(t) <= 1real,
        0real <= h10(t) <= 1real,
        0real <= h01(t) <= 1real,
        -1real <= h11(t) <= 0real,
        0real <= t * t <= 1real,
        0real <= t * t * t <= 1real,
{
    let u = 1real - t;
    assert(0real <= t * t <= 1real && 0real <= t * t * t <= 1real) by (nonlinear_arith)
        requires
            0real <= t <= 1real,
    {
        let s = t * t;
        assert(0real <= s <= 1real);
        assert(0real <= s * t <= 1real);
    }
    assert(h11(t) == -(t * t * u)) by (nonlinear_arith)
        requires
            u == 1real - t,
            h11(t) == t * t * t - t * t,
    ;
    assert(h10(t) == t * (u * u)) by (nonlinear_arith)
        requires
            u == 1real - t,
            h10(t) == t * t * t - 2real * (t * t) + t,
    ;
    assert(h01(t) == t * t * (1real + 2real * u)) by (nonlinear_arith)
        requires
            u == 1real - t,
            h01(t) == 3real * (t * t) - 2real * (t * t * t),
    ;
    assert(h00(t) == u * u * (1real + 2real * t)) by (nonlinear_arith)
        requires
            u == 1real - t,
            h00(t) == 2real * (t * t * t) - 3real * (t * t) + 1real,
    ;
    assert(h00(t) + h01(t) == 1real) by (nonlinear_arith)
        requires
            h00(t) == 2real * (t * t * t) - 3real * (t * t) + 1real,
            h01(t) == 3real * (t * t) - 2real * (t * t * t),
    ;
    let (s, v) = (t * t, u * u);
    assert(0real <= v <= 1real && 0real <= s * u <= 1real && 0real <= t * v <= 1real) by (nonlinear_arith)
        requires
            0real <= t <= 1real,
            u == 1real - t,
            s == t * t,
            v == u * u,
            0real <= s <= 1real,
    ;
    assert(s * (1real + 2real * u) >= 0real && v * (1real + 2real * t) >= 0real) by (nonlinear_arith)
        requires
            0real <= s,
            0real <= v,
            0real <= u,
            0real <= t,
    ;
}

/// Numbers that are exact.
pub open spec fn is_exactly(v: Real, x: real) -> bool {
    near(v, x, 0real)
}

/// A cubic times the length and a tangent.
proof fn scaled_term(c: Real, x: real, e: real, h: Real, length: real, m: Real)
    requires
        near(c, x, e),
        size(x) <= 1real,
        0real <= e <= 100real * fine(),
        is_exactly(h, length),
        1real <= length <= 255real,
        is_number(m),
        0real <= value(m),
        length * value(m) <= 800real,
    ensures
        near(c.times(h).times(m), x * length * value(m), 81100real * fine()),
        size(x * length * value(m)) <= 800real,
{
    let mu = value(m);
    let f = fine();
    let e1 = 101real * f * length;
    assert(2real * 0real + length * e + (2real * length + 1real) * grain() <= e1) by (nonlinear_arith)
        requires
            0real <= e <= 100real * f,
            grain() == f / 8real,
            f > 0real,
            length >= 1real,
            e1 == 101real * f * length,
    ;
    near_product(c, x, e, 2real, h, length, 0real, length, e1);
    let (y, z) = (x * length, length * mu);
    assert(size(y) <= length && e1 <= length && e1 >= 0real) by (nonlinear_arith)
        requires
            size(x) <= 1real,
            y == x * length,
            size(y) == y || size(y) == -y,
            size(x) == x && x >= 0real || size(x) == -x && x <= 0real,
            length >= 1real,
            e1 == 101real * f * length,
            0real < f <= 1real / 1000real,
    ;
    assert(mu * e1 == 101real * f * z) by (nonlinear_arith)
        requires
            e1 == 101real * f * length,
            z == length * mu,
    ;
    assert(101real * f * z <= 80800real * f) by (nonlinear_arith)
        requires
            z <= 800real,
            f > 0real,
    ;
    assert(2real * length * mu == 2real * z) by (nonlinear_arith)
        requires
            z == length * mu,
    ;
    assert(mu <= 800real) by (nonlinear_arith)
        requires
            length * mu <= 800real,
            length >= 1real,
            mu >= 0real,
    ;
    assert((2real * length * mu + 1real) * grain() <= 201real * f) by (nonlinear_arith)
        requires
            2real * length * mu <= 1600real,
            grain() == f / 8real,
            f > 0real,
    ;
    near_product(c.times(h), y, e1, 2real * length, m, mu, 0real, mu, 81100real * f);
    assert(size(y * mu) <= 800real) by (nonlinear_arith)
        requires
            y == x * length,
            size(x) <= 1real,
            size(x) == x && x >= 0real || size(x) == -x && x <= 0real,
            size(y * mu) == y * mu || size(y * mu) == -(y * mu),
            length * mu <= 800real,
            length >= 1real,
            mu >= 0real,
    {
        let z = length * mu;
        assert(z >= 0real);
        assert(y * mu == x * z);
        assert(-800real <= x * z <= 800real);
    }
}

/// A sum, by parts in 2^50.
pub proof fn fine_sum(a: Real, x: real, na: real, b: Real, y: real, nb: real, bound: real, n: real)
    requires
        near(a, x, na * fine()),
        near(b, y, nb * fine()),
        0real <= na <= 1000000real,
        0real <= nb <= 1000000real,
        size(x) + 1real <= bound,
        size(y) + 1real <= bound,
        bound <= 1000000real,
        na + nb + (2real * bound + 1real) / 8real <= n,
    ensures
        near(a.plus(b), x + y, n * fine()),
{
    multiples_are_small(na);
    multiples_are_small(nb);
    let f = fine();
    assert(na * f + nb * f + (2real * bound + 1real) * grain() <= n * f) by (nonlinear_arith)
        requires
            na + nb + (2real * bound + 1real) / 8real <= n,
            grain() == f / 8real,
            f > 0real,
    ;
    near_sum(a, x, na * f, b, y, nb * f, bound, n * f);
}

/// A difference, by parts in 2^50.
pub proof fn fine_difference(a: Real, x: real, na: real, b: Real, y: real, nb: real, bound: real, n: real)
    requires
        near(a, x, na * fine()),
        near(b, y, nb * fine()),
        0real <= na <= 1000000real,
        0real <= nb <= 1000000real,
        size(x) + 1real <= bound,
        size(y) + 1real <= bound,
        bound <= 1000000real,
        na + nb + (2real * bound + 1real) / 8real <= n,
    ensures
        near(a.minus(b), x - y, n * fine()),
{
    multiples_are_small(na);
    multiples_are_small(nb);
    let f = fine();
    assert(na * f + nb * f + (2real * bound + 1real) * grain() <= n * f) by (nonlinear_arith)
        requires
            na + nb + (2real * bound + 1real) / 8real <= n,
            grain() == f / 8real,
            f > 0real,
    ;
    near_difference(a, x, na * f, b, y, nb * f, bound, n * f);
}

/// A product, by parts in 2^50.
pub proof fn fine_product(
    a: Real,
    x: real,
    na: real,
    bound: real,
    b: Real,
    y: real,
    nb: real,
    other: real,
    n: real,
)
    requires
        near(a, x, na * fine()),
        near(b, y, nb * fine()),
        0real <= na <= 1000000real,
        0real <= nb <= 1000000real,
        size(x) + 1real <= bound,
        size(y) + 1real <= other,
        bound <= 1000000real,
        other <= 1000000real,
        bound * nb + other * na + (bound * other + 1real) / 8real <= n,
    ensures
        near(a.times(b), x * y, n * fine()),
{
    multiples_are_small(na);
    multiples_are_small(nb);
    let f = fine();
    assert(bound * (nb * f) + other * (na * f) + (bound * other + 1real) * grain() <= n * f) by (nonlinear_arith)
        requires
            bound * nb + other * na + (bound * other + 1real) / 8real <= n,
            grain() == f / 8real,
            f > 0real,
    ;
    near_product(a, x, na * f, bound, b, y, nb * f, other, n * f);
}

/// A quotient, by parts in 2^50.
pub proof fn fine_quotient(
    a: Real,
    x: real,
    na: real,
    b: Real,
    y: real,
    nb: real,
    inv: real,
    ratio: real,
    n: real,
)
    requires
        near(a, x, na * fine()),
        near(b, y, nb * fine()),
        0real <= na <= 1000000real,
        0real <= nb <= 1000000real,
        0real < y <= 1000real,
        y * inv >= 1real,
        1real <= inv <= 1000real,
        size(x) <= ratio * y,
        size(x) <= 1000real,
        0real <= ratio <= 1000real,
        2real * inv * (na + ratio * nb) + (ratio + 2real) / 8real <= n,
        n <= 100000000real,
    ensures
        near(a.over(b), x / y, n * fine()),
{
    multiples_are_small(na);
    multiples_are_small(nb);
    let f = fine();
    let (ea, eb) = (na * f, nb * f);
    let (k, m) = (2real * inv, ratio * nb);
    let t = k * (na + m);
    assert(ratio * (nb * f) == (ratio * nb) * f) by (nonlinear_arith);
    assert((na + m) * f == na * f + m * f) by (nonlinear_arith);
    let z = na + m;
    assert(k * (z * f) == (k * z) * f) by (nonlinear_arith);
    let c = (ratio + 2real) / 8real;
    larger_product(t + c, n, f);
    assert((t + c) * f == t * f + c * f) by (nonlinear_arith);
    let q = ratio + 2real;
    assert(q * (f / 8real) == (q / 8real) * f) by (nonlinear_arith);
    larger_product(t, 100000000real, f);
    larger_product(nb, 1000000real, f);
    larger_product(inv, 1000real, eb);
    near_quotient(a, x, ea, b, y, eb, inv, ratio, n * f);
}

/// Multiples of a part in 2^50 are small.
pub proof fn multiples_are_small(n: real)
    requires
        0real <= n <= 1000000real,
    ensures
        0real <= n * fine() <= 1real,
        grain() == fine() / 8real,
        fine() > 0real,
{
    let f = fine();
    assert(0real <= n * f <= 1real) by (nonlinear_arith)
        requires
            0real <= n <= 1000000real,
            0real < f <= 1real / 1000000000real,
    ;
}

/// The first cubics of a number that is near a part, each near its value.
proof fn cubics_are_near(n: Real, t: real)
    requires
        near(n, t, fine()),
        0real <= t <= 1real,
    ensures
        ({
            let (one, two, three) = (Real { bits: ONE }, Real { bits: TWO }, Real { bits: THREE });
            let t2 = n.times(n);
            let t3 = t2.times(n);
            let e = 66real * fine();
            &&& near(two.times(t3).minus(three.times(t2)).plus(one), h00(t), e)
            &&& near(t3.minus(two.times(t2)).plus(n), h10(t), e)
            &&& near((Real { bits: MINUS_TWO }).times(t3).plus(three.times(t2)), h01(t), e)
            &&& near(t3.minus(t2), h11(t), e)
        }),
{
    let (one, two, three) = (Real { bits: ONE }, Real { bits: TWO }, Real { bits: THREE });
    let minus_two = Real { bits: MINUS_TWO };
    some_values();
    cubics_are_small(t);
    let f = fine();
    let (t2, s) = (n.times(n), t * t);
    assert(1real * f == f);
    assert(0real * f == 0real);
    fine_product(n, t, 1real, 2real, n, t, 1real, 2real, 5real);
    let (t3, c) = (t2.times(n), s * t);
    fine_product(t2, s, 5real, 2real, n, t, 1real, 2real, 13real);
    let (a, b, d) = (two.times(t3), three.times(t2), two.times(t2));
    fine_product(two, 2real, 0real, 3real, t3, c, 13real, 2real, 40real);
    fine_product(three, 3real, 0real, 4real, t2, s, 5real, 2real, 22real);
    fine_product(two, 2real, 0real, 3real, t2, s, 5real, 2real, 16real);
    fine_difference(a, 2real * c, 40real, b, 3real * s, 22real, 4real, 64real);
    fine_sum(a.minus(b), 2real * c - 3real * s, 64real, one, 1real, 0real, 4real, 66real);
    fine_difference(t3, c, 13real, d, 2real * s, 16real, 3real, 30real);
    fine_sum(t3.minus(d), c - 2real * s, 30real, n, t, 1real, 3real, 32real);
    let g = minus_two.times(t3);
    fine_product(minus_two, -2real, 0real, 3real, t3, c, 13real, 2real, 40real);
    fine_sum(g, -2real * c, 40real, b, 3real * s, 22real, 4real, 64real);
    fine_difference(t3, c, 13real, t2, s, 5real, 2real, 19real);
}

/// A cubic times a height.
proof fn height_term(c: Real, x: real, y: Real, height: real)
    requires
        near(c, x, 66real * fine()),
        size(x) <= 1real,
        is_exactly(y, height),
        0real <= height <= 255real,
    ensures
        near(c.times(y), x * height, 17000real * fine()),
        size(x * height) <= 255real,
{
    let f = fine();
    assert(0real * f == 0real);
    fine_product(c, x, 66real, 2real, y, height, 0real, 256real, 17000real);
    assert(size(x * height) <= 255real) by (nonlinear_arith)
        requires
            size(x) == x && x >= 0real || size(x) == -x && x <= 0real,
            size(x) <= 1real,
            size(x * height) == x * height || size(x * height) == -(x * height),
            0real <= height <= 255real,
    ;
}

/// A point of a stretch is near the cubic.
pub proof fn hermite_is_near(
    n: Real,
    t: real,
    h: Real,
    length: real,
    a: Real,
    y0: real,
    b: Real,
    y1: real,
    m0: Real,
    m1: Real,
)
    requires
        near(n, t, fine()),
        0real <= t <= 1real,
        is_exactly(h, length),
        1real <= length <= 255real,
        is_exactly(a, y0),
        is_exactly(b, y1),
        0real <= y0 <= 255real,
        0real <= y1 <= 255real,
        is_number(m0) && is_number(m1),
        0real <= value(m0) && length * value(m0) <= 800real,
        0real <= value(m1) && length * value(m1) <= 800real,
    ensures
        near(
            hermite(n, h, a, b, m0, m1),
            cubic(t, length, y0, y1, value(m0), value(m1)),
            200000real * fine(),
        ),
{
    let (one, two, three) = (Real { bits: ONE }, Real { bits: TWO }, Real { bits: THREE });
    let f = fine();
    cubics_are_near(n, t);
    cubics_are_small(t);
    let t2 = n.times(n);
    let t3 = t2.times(n);
    let c00 = two.times(t3).minus(three.times(t2)).plus(one);
    let c10 = t3.minus(two.times(t2)).plus(n);
    let c01 = (Real { bits: MINUS_TWO }).times(t3).plus(three.times(t2));
    let c11 = t3.minus(t2);
    height_term(c00, h00(t), a, y0);
    height_term(c01, h01(t), b, y1);
    scaled_term(c10, h10(t), 66real * f, h, length, m0);
    scaled_term(c11, h11(t), 66real * f, h, length, m1);
    let (p, q) = (h00(t) * y0, h10(t) * length * value(m0));
    let (r, s) = (h01(t) * y1, h11(t) * length * value(m1));
    let (pf, qf) = (c00.times(a), c10.times(h).times(m0));
    let (rf, sf) = (c01.times(b), c11.times(h).times(m1));
    fine_sum(pf, p, 17000real, qf, q, 81100real, 1000real, 99000real);
    fine_sum(pf.plus(qf), p + q, 99000real, rf, r, 17000real, 2000real, 117000real);
    fine_sum(pf.plus(qf).plus(rf), p + q + r, 117000real, sf, s, 81100real, 2000real, 200000real);
}

} // verus!
