//! Rounding never takes a result across a number: what is at least a number in exact arithmetic
//! is at least that number after rounding.
use vstd::arithmetic::power2::*;
use vstd::prelude::*;

use crate::binary::Real;
use crate::exact::{is_number, nearest_keeps_order, nearest_of_own, nearest_of_shifted};
use crate::float::{
    common_exponent, exponent, in_units, nearest, negative, significand, unsigned, zero, Width,
};
use crate::ordering::order_is_that_of_values;
use crate::units::units;
use crate::value::{
    in_units_is, magnitude, magnitude_by_parts, modest, power, power_adds, product_rounds,
    sum_rounds, value, zero_is_zero,
};

verus! {

/// The number nearest to a value is on the same side of every other number.
proof fn nearest_keeps_sides(n: nat, e: int, x: real, c: Real)
    requires
        -2148 <= e,
        x == n as real * power((e + 2148) as nat) / power(2148),
        is_number(c),
        !negative(Width::Double, c.bits),
    ensures
        x >= value(c) ==> nearest(Width::Double, n, false, e) >= c.bits,
        x <= value(c) ==> nearest(Width::Double, n, false, e) <= c.bits,
{
    let w = Width::Double;
    magnitude_by_parts(c.bits);
    let (s, f) = (significand(w, c.bits), exponent(w, c.bits));
    let m = if e <= f {
        e
    } else {
        f
    };
    let (y, z, k) = ((e - m) as nat, (f - m) as nat, (m + 2148) as nat);
    nearest_of_shifted(w, n, y, e);
    nearest_of_own(w, c.bits, z);
    let (nn, ss) = (n * pow2(y), s * pow2(z));
    power_adds(y, k);
    power_adds(z, k);
    power_adds((f + 1074) as nat, 1074);
    power_adds(1074, 1074);
    lemma_pow2_pos(1074);
    lemma_pow2_pos(k);
    assert(nn as real == n as real * power(y)) by (nonlinear_arith)
        requires
            nn == n * pow2(y),
            power(y) == pow2(y) as real,
    ;
    assert(ss as real == s as real * power(z)) by (nonlinear_arith)
        requires
            ss == s * pow2(z),
            power(z) == pow2(z) as real,
    ;
    let (p, q, one) = (power(k), power(2148), power(1074));
    assert(q > 0real) by (nonlinear_arith)
        requires
            q == one * one,
            one > 0real,
    ;
    assert(x * q == nn as real * p) by (nonlinear_arith)
        requires
            x == n as real * power((e + 2148) as nat) / q,
            power((e + 2148) as nat) == power(y) * p,
            nn as real == n as real * power(y),
            q > 0real,
    ;
    let (v, g) = (value(c), power((f + 1074) as nat));
    assert(v * q == ss as real * p) by (nonlinear_arith)
        requires
            v == s as real * g / one,
            q == one * one,
            g * one == power(z) * p,
            ss as real == s as real * power(z),
            one > 0real,
    ;
    let (a, b) = (nn as real, ss as real);
    if x >= v {
        assert(a >= b) by (nonlinear_arith)
            requires
                x >= v,
                x * q == a * p,
                v * q == b * p,
                q > 0real,
                p > 0real,
        ;
        nearest_keeps_order(w, ss, nn, m);
    }
    if x <= v {
        assert(a <= b) by (nonlinear_arith)
            requires
                x <= v,
                x * q == a * p,
                v * q == b * p,
                q > 0real,
                p > 0real,
        ;
        nearest_keeps_order(w, nn, ss, m);
    }
}

/// A rounded sum is on the same side of a number as the sum.
pub proof fn sum_keeps_sides(a: Real, b: Real, c: Real)
    requires
        modest(a),
        modest(b),
        is_number(c),
        value(c) >= 0real,
    ensures
        value(a) + value(b) >= value(c) ==> value(a.plus(b)) >= value(c),
        value(a) + value(b) <= value(c) ==> value(a.plus(b)) <= value(c),
{
    let w = Width::Double;
    reveal(Real::spec_plus);
    sum_rounds(a, b);
    magnitude_by_parts(a.bits);
    magnitude_by_parts(b.bits);
    let d = c.absolute();
    assert(unsigned(w, d.bits) == unsigned(w, c.bits) && !negative(w, d.bits));
    assert(units(w, d.bits) == units(w, c.bits));
    magnitude_by_parts(c.bits);
    magnitude_by_parts(d.bits);
    assert(value(d) == value(c));
    let e = common_exponent(w, a.bits, b.bits);
    in_units_is(a, e);
    in_units_is(b, e);
    let (i, j) = (in_units(w, a.bits, e), in_units(w, b.bits, e));
    let n = i + j;
    let k = (e + 1074) as nat;
    let (p, one) = (power(k), power(1074));
    lemma_pow2_pos(1074);
    lemma_pow2_pos(k);
    power_adds(k, 1074);
    power_adds(1074, 1074);
    let x = value(a) + value(b);
    assert(x * one == n as real * p) by (nonlinear_arith)
        requires
            x == i as real * p / one + j as real * p / one,
            n as real == i as real + j as real,
            one > 0real,
    ;
    let r = a.plus(b);
    magnitude_by_parts(r.bits);
    if n > 0 {
        let (f, q) = (power((e + 2148) as nat), power(2148));
        assert(x == n as real * f / q) by (nonlinear_arith)
            requires
                x * one == n as real * p,
                f == p * one,
                q == one * one,
                one > 0real,
        ;
        nearest_keeps_sides(n as nat, e, x, d);
        order_is_that_of_values(r, d);
        order_is_that_of_values(d, r);
    } else {
        assert(n as real * p <= 0real) by (nonlinear_arith)
            requires
                n as real <= 0real,
                p > 0real,
        ;
        assert(x <= 0real) by (nonlinear_arith)
            requires
                x * one <= 0real,
                one > 0real,
        ;
        if n < 0 {
            assert(n as real * p < 0real) by (nonlinear_arith)
                requires
                    n as real <= -1real,
                    p > 0real,
            ;
            assert(x < 0real) by (nonlinear_arith)
                requires
                    x * one < 0real,
                    one > 0real,
            ;
            assert(negative(w, r.bits));
        } else {
            assert(zero(w, r.bits));
            assert(significand(w, r.bits) == 0);
            assert(0real * power((exponent(w, r.bits) + 1074) as nat) / one == 0real)
                by (nonlinear_arith)
                requires
                    one > 0real,
            ;
        }
    }
}

/// A rounded product of numbers that are not negative is on the same side of a number as the
/// product.
pub proof fn product_keeps_sides(a: Real, b: Real, c: Real)
    requires
        modest(a),
        modest(b),
        is_number(c),
        value(a) >= 0real,
        value(b) >= 0real,
        value(c) >= 0real,
    ensures
        value(a) * value(b) >= value(c) ==> value(a.times(b)) >= value(c),
        value(a) * value(b) <= value(c) ==> value(a.times(b)) <= value(c),
{
    let w = Width::Double;
    reveal(Real::spec_times);
    product_rounds(a, b);
    magnitude_by_parts(a.bits);
    magnitude_by_parts(b.bits);
    let d = c.absolute();
    assert(unsigned(w, d.bits) == unsigned(w, c.bits) && !negative(w, d.bits));
    assert(units(w, d.bits) == units(w, c.bits));
    magnitude_by_parts(c.bits);
    magnitude_by_parts(d.bits);
    assert(value(d) == value(c));
    let (s, t) = (significand(w, a.bits), significand(w, b.bits));
    let (y, z) = ((exponent(w, a.bits) + 1074) as nat, (exponent(w, b.bits) + 1074) as nat);
    let (e, n) = (exponent(w, a.bits) + exponent(w, b.bits), s * t);
    let one = power(1074);
    power_adds(y, z);
    power_adds(1074, 1074);
    lemma_pow2_pos(1074);
    assert(n as real == s as real * t as real) by (nonlinear_arith)
        requires
            n == s * t,
    ;
    let (u, v) = (magnitude(a.bits), magnitude(b.bits));
    let x = u * v;
    let q = power(2148);
    assert(x == n as real * power(y + z) / q) by (nonlinear_arith)
        requires
            x == u * v,
            u == s as real * power(y) / one,
            v == t as real * power(z) / one,
            n as real == s as real * t as real,
            power(y + z) == power(y) * power(z),
            q == one * one,
            one > 0real,
    ;
    assert(value(a) == u && value(b) == v) by {
        assert(-u >= 0real ==> u == 0real);
        assert(-v >= 0real ==> v == 0real);
    }
    nearest_keeps_sides(n, e, x, d);
    let r = a.times(b);
    let m = nearest(w, n, false, e);
    assert(unsigned(w, r.bits) == m);
    let pos = r.absolute();
    assert(unsigned(w, pos.bits) == m && !negative(w, pos.bits));
    assert(units(w, pos.bits) == units(w, r.bits));
    magnitude_by_parts(r.bits);
    magnitude_by_parts(pos.bits);
    order_is_that_of_values(pos, d);
    order_is_that_of_values(d, pos);
    if negative(w, r.bits) {
        // One factor is a zero with a minus sign.
        assert(x == 0real) by (nonlinear_arith)
            requires
                x == u * v,
                u == 0real || v == 0real,
        ;
        zero_is_zero();
        order_is_that_of_values(pos, Real { bits: 0 });
        nearest_keeps_sides(n, e, x, Real { bits: 0 });
    }
}

} // verus!
