//! Products, quotients and rounding keep the order of numbers.
use vstd::arithmetic::div_mod::*;
use vstd::arithmetic::power2::*;
use vstd::prelude::*;

use crate::binary::{byte_range, Real};
use crate::exact::{
    formats, nearest_has_a_pattern, nearest_keeps_order, nearest_of_shifted, nearest_with_more,
    parts_of,
};
use crate::float::{exponent, nearest, nearest_of_cut, significand, Width};
use crate::nearness::slack_is_small;
use crate::number::MILLION;
use crate::ordering::{million_value, order_is_that_of_values};
use crate::tangents::is_positive;
use crate::value::{
    magnitude_by_parts, modest, power, power_adds, product_rounds, quotient_is_long,
    quotient_rounds, value, wholes_are_themselves,
};
use crate::whole_steps::{round_goes_up, round_is_near};

verus! {

/// Values in order, by their significands at a common exponent.
proof fn in_order_at(a: Real, b: Real, m: int)
    requires
        is_positive(a),
        is_positive(b),
        value(a) <= value(b),
        -1074 <= m,
        m <= exponent(Width::Double, a.bits),
        m <= exponent(Width::Double, b.bits),
    ensures
        significand(Width::Double, a.bits) * pow2((exponent(Width::Double, a.bits) - m) as nat)
            <= significand(Width::Double, b.bits) * pow2(
            (exponent(Width::Double, b.bits) - m) as nat,
        ),
{
    let w = Width::Double;
    magnitude_by_parts(a.bits);
    magnitude_by_parts(b.bits);
    let (s, t) = (significand(w, a.bits), significand(w, b.bits));
    let (x, y) = (exponent(w, a.bits), exponent(w, b.bits));
    let (i, j, k) = ((x - m) as nat, (y - m) as nat, (m + 1074) as nat);
    power_adds(i, k);
    power_adds(j, k);
    lemma_pow2_pos(1074);
    let (p, q) = (s * pow2(i), t * pow2(j));
    assert(p as real == s as real * power(i)) by (nonlinear_arith)
        requires
            p == s * pow2(i),
            power(i) == pow2(i) as real,
    ;
    assert(q as real == t as real * power(j)) by (nonlinear_arith)
        requires
            q == t * pow2(j),
            power(j) == pow2(j) as real,
    ;
    let (u, v, one) = (value(a), value(b), power(1074));
    let (f, pr, qr) = (power(k), p as real, q as real);
    by_units(u, s as real, power(i), f, power((x + 1074) as nat), one, pr);
    by_units(v, t as real, power(j), f, power((y + 1074) as nat), one, qr);
    assert(pr <= qr) by (nonlinear_arith)
        requires
            u * one == pr * f,
            v * one == qr * f,
            u <= v,
            one > 0real,
            f > 0real,
    ;
}

proof fn by_units(u: real, s: real, pi: real, f: real, px: real, one: real, p: real)
    requires
        u == s * px / one,
        px == pi * f,
        p == s * pi,
        one > 0real,
    ensures
        u * one == p * f,
{
    assert(u * one == s * px) by (nonlinear_arith)
        requires
            u == s * px / one,
            one > 0real,
    ;
    assert(s * (pi * f) == s * pi * f) by (nonlinear_arith);
}

/// A larger factor makes no smaller product.
pub proof fn products_keep_order(a: Real, b: Real, c: Real)
    requires
        is_positive(a) && modest(a),
        is_positive(b) && modest(b),
        is_positive(c) && modest(c),
        value(a) <= value(b),
    ensures
        is_positive(a.times(c)),
        is_positive(b.times(c)),
        value(a.times(c)) <= value(b.times(c)),
        is_positive(c.times(a)),
        is_positive(c.times(b)),
        value(c.times(a)) <= value(c.times(b)),
{
    let w = Width::Double;
    reveal(Real::spec_times);
    product_rounds(a, c);
    product_rounds(b, c);
    product_rounds(c, a);
    product_rounds(c, b);
    magnitude_by_parts(a.bits);
    magnitude_by_parts(b.bits);
    let (s, t, d) = (
        significand(w, a.bits),
        significand(w, b.bits),
        significand(w, c.bits),
    );
    let (x, y, z) = (exponent(w, a.bits), exponent(w, b.bits), exponent(w, c.bits));
    let m = if x <= y {
        x
    } else {
        y
    };
    in_order_at(a, b, m);
    let (i, j) = ((x - m) as nat, (y - m) as nat);
    let (p, q) = (s * pow2(i), t * pow2(j));
    nearest_of_shifted(w, s * d, i, x + z);
    nearest_of_shifted(w, t * d, j, y + z);
    moved(s, d, pow2(i));
    moved(t, d, pow2(j));
    assert(p * d <= q * d) by (nonlinear_arith)
        requires
            p <= q,
            d >= 0,
    ;
    nearest_keeps_order(w, (p * d) as nat, (q * d) as nat, m + z);
    assert(s * d == d * s && t * d == d * t) by (nonlinear_arith);
    order_is_that_of_values(b.times(c), a.times(c));
    order_is_that_of_values(c.times(b), c.times(a));
}

proof fn moved(s: nat, d: nat, p: nat)
    ensures
        s * d * p == s * p * d,
{
    assert(s * d * p == s * p * d) by (nonlinear_arith);
}

/// A quotient is the same however finely its dividend is written.
proof fn quotient_of_shifted(n: nat, d: nat, t: nat, e: int)
    requires
        d > 0,
        n / d >= pow2(75),
    ensures
        nearest(Width::Double, (n * pow2(t)) / d, (n * pow2(t)) % d != 0, e - t) == nearest(
            Width::Double,
            n / d,
            n % d != 0,
            e,
        ),
{
    let w = Width::Double;
    formats(w);
    let (q, r, p) = (n / d, n % d, pow2(t));
    lemma_pow2_pos(t);
    lemma_fundamental_div_mod(n as int, d as int);
    lemma_mod_bound(n as int, d as int);
    let m = r * p;
    lemma_fundamental_div_mod(m as int, d as int);
    lemma_mod_bound(m as int, d as int);
    let (f, g) = (m / d, m % d);
    let z = n * p;
    let whole = q * p + f;
    assert(z == d * whole + g) by (nonlinear_arith)
        requires
            z == n * p,
            n == d * q + r,
            m == r * p,
            m == d * f + g,
            whole == q * p + f,
    ;
    lemma_fundamental_div_mod_converse(z as int, d as int, whole as int, g as int);
    assert(f < p) by (nonlinear_arith)
        requires
            m == r * p,
            r < d,
            m == d * f + g,
            g >= 0,
            p > 0,
            d > 0,
    ;
    lemma_pow2_strictly_increases(54, 75);
    nearest_of_cut(w, q, t, f, g != 0, e - t);
    if r == 0 {
        assert(m == 0) by (nonlinear_arith)
            requires
                m == r * p,
                r == 0,
        ;
        lemma_basic_div(0, d as int);
        lemma_small_mod(0, d);
    } else {
        assert(m > 0) by (nonlinear_arith)
            requires
                m == r * p,
                r > 0,
                p > 0,
        ;
        if f == 0 && g == 0 {
            assert(d * f == 0) by (nonlinear_arith)
                requires
                    f == 0,
            ;
        }
    }
}

/// A larger dividend makes no smaller quotient.
pub proof fn quotients_keep_order(a: Real, b: Real, c: Real)
    requires
        is_positive(a) && modest(a),
        is_positive(b) && modest(b),
        is_positive(c) && modest(c),
        value(c) * power(60) >= 1real,
        value(a) <= value(b),
    ensures
        is_positive(a.over(c)),
        is_positive(b.over(c)),
        value(a.over(c)) <= value(b.over(c)),
{
    let w = Width::Double;
    reveal(Real::spec_over);
    magnitude_by_parts(a.bits);
    magnitude_by_parts(b.bits);
    magnitude_by_parts(c.bits);
    quotient_rounds(a, c);
    quotient_rounds(b, c);
    parts_of(w, a.bits);
    parts_of(w, b.bits);
    parts_of(w, c.bits);
    formats(w);
    lemma_pow2_unfold(53);
    let (s, t, d) = (
        significand(w, a.bits),
        significand(w, b.bits),
        significand(w, c.bits),
    );
    let (x, y, z) = (exponent(w, a.bits), exponent(w, b.bits), exponent(w, c.bits));
    assert(d > 0) by {
        if d == 0 {
            let (p, one) = (power((z + 1074) as nat), power(1074));
            lemma_pow2_pos(1074);
            assert(0real * p / one == 0real) by (nonlinear_arith)
                requires
                    one > 0real,
            ;
            assert(0real * power(60) == 0real) by (nonlinear_arith);
        }
    }
    let h = pow2(128);
    let (f, g) = (s * h, t * h);
    let (u, v) = (
        nearest(w, f / d, f % d != 0, x - z - 128),
        nearest(w, g / d, g % d != 0, y - z - 128),
    );
    assert(u <= v) by {
        if s == 0 {
            assert(f == 0) by (nonlinear_arith)
                requires
                    f == s * h,
                    s == 0,
            ;
            lemma_basic_div(0, d as int);
            lemma_small_mod(0, d);
            nearest_has_a_pattern(w, g / d, g % d != 0, y - z - 128);
        } else {
            let m = if x <= y {
                x
            } else {
                y
            };
            in_order_at(a, b, m);
            let (i, j) = ((x - m) as nat, (y - m) as nat);
            lemma_pow2_pos(i);
            lemma_pow2_pos(j);
            if t == 0 {
                assert(s * pow2(i) > 0 && t * pow2(j) == 0) by (nonlinear_arith)
                    requires
                        s > 0,
                        pow2(i) > 0,
                        t == 0,
                ;
            }
            quotient_is_long(s, d);
            quotient_is_long(t, d);
            quotient_of_shifted(f, d, i, x - z - 128);
            quotient_of_shifted(g, d, j, y - z - 128);
            moved(s, h, pow2(i));
            moved(t, h, pow2(j));
            let (p, q) = (f * pow2(i), g * pow2(j));
            let (k, l) = (s * pow2(i), t * pow2(j));
            assert(k * h <= l * h) by (nonlinear_arith)
                requires
                    k <= l,
                    h >= 0,
            ;
            quotients_at_one_exponent(p, q, d, m - z - 128);
        }
    }
    order_is_that_of_values(b.over(c), a.over(c));
}

proof fn quotients_at_one_exponent(p: nat, q: nat, d: nat, e: int)
    requires
        p <= q,
        d > 0,
    ensures
        nearest(Width::Double, p / d, p % d != 0, e) <= nearest(
            Width::Double,
            q / d,
            q % d != 0,
            e,
        ),
{
    let w = Width::Double;
    lemma_div_is_ordered(p as int, q as int, d as int);
    lemma_fundamental_div_mod(p as int, d as int);
    lemma_fundamental_div_mod(q as int, d as int);
    let (u, v) = (p / d, q / d);
    nearest_with_more(w, u, p % d != 0, e);
    nearest_with_more(w, v, q % d != 0, e);
    if u < v {
        nearest_keeps_order(w, u + 1, v, e);
    }
}

/// Rounding keeps the order.
pub proof fn rounds_keep_order(a: Real, b: Real)
    requires
        is_positive(a),
        is_positive(b),
        value(a) <= value(b) <= 1000000000000real,
    ensures
        is_positive(a.round()) && value(a.round()) <= 1000000000001real,
        is_positive(b.round()) && value(b.round()) <= 1000000000001real,
        value(a.round()) <= value(b.round()),
        byte_range(a.round_integer() as int) <= byte_range(b.round_integer() as int),
{
    let (i, j) = (round_is_near(a), round_is_near(b));
    wholes_are_themselves(i);
    wholes_are_themselves(j);
    let (k, l) = (round_goes_up(a), round_goes_up(b));
    assert(i == k && j == l);
    assert(i <= j);
}

/// The grid of millionths keeps the order.
pub proof fn grid_keeps_order(a: Real, b: Real)
    requires
        is_positive(a),
        is_positive(b),
        value(a) <= value(b) <= 1000real,
    ensures
        is_positive(a.on_grid()),
        is_positive(b.on_grid()),
        value(a.on_grid()) <= value(b.on_grid()),
{
    let million = Real { bits: MILLION };
    million_value();
    slack_is_small(0real, 0real);
    magnitude_by_parts(a.bits);
    magnitude_by_parts(b.bits);
    products_keep_order(a, b, million);
    let (p, q) = (a.times(million), b.times(million));
    product_rounds(b, million);
    let z = value(b) * 1000000real;
    slack_is_small(z, 1000000000real);
    rounds_keep_order(p, q);
    magnitude_by_parts(p.round().bits);
    magnitude_by_parts(q.round().bits);
    quotients_keep_order(p.round(), q.round(), million);
}

} // verus!
