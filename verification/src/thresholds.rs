//! Rounding does not carry a product or a quotient across a number that is met exactly.
use vstd::arithmetic::div_mod::*;
use vstd::arithmetic::power2::*;
use vstd::prelude::*;

use crate::binary::Real;
use crate::exact::{
    finite, formats, nearest_at_least, nearest_keeps_order, nearest_with_more, parts_of,
};
use crate::float::{exponent, lowest, significand, zero, Width};
use crate::tangents::is_positive;
use crate::units::{
    exact_units, pattern, pattern_of_units, product_in_units, units, units_keep_order,
};
use crate::value::{power, value};
use crate::wholes::whole_number;

verus! {

/// A number that is not negative, in units.
proof fn value_in_units(a: Real)
    requires
        is_positive(a),
    ensures
        value(a) * power(1074) == units(Width::Double, a.bits) as real,
        power(1074) > 0real,
        power(1074) == 2real * power(1073),
{
    lemma_pow2_pos(1074);
    lemma_pow2_unfold(1074);
    let (u, one) = (units(Width::Double, a.bits) as real, power(1074));
    assert(u / one * one == u) by (nonlinear_arith)
        requires
            one > 0real,
    ;
}

/// The number half way between `n` and the whole number after it.
proof fn half_step(n: nat) -> (c: Real)
    requires
        n <= 0x1_0000_0000,
    ensures
        is_positive(c),
        units(Width::Double, c.bits) == (2 * n + 1) * pow2(1073),
        value(c) == n as real + 1real / 2real,
{
    let w = Width::Double;
    formats(w);
    lemma_pow2_unfold(53);
    exact_units(w, 2 * n + 1, 1073);
    let c = Real { bits: pattern(w, (2 * n + 1) * pow2(1073)) as u64 };
    value_in_units(c);
    let (v, h, m) = (value(c), power(1073), (2 * n + 1) as real);
    let k = (2 * n + 1) * pow2(1073);
    assert(k as real == m * h) by (nonlinear_arith)
        requires
            k == (2 * n + 1) * pow2(1073),
            m == (2 * n + 1) as real,
            h == pow2(1073) as real,
    ;
    assert(v == m / 2real) by (nonlinear_arith)
        requires
            v * (2real * h) == m * h,
            h > 0real,
    ;
    c
}

/// A number that is not tiny has no tiny exponent.
proof fn exponent_at_least(a: u64, j: nat)
    requires
        finite(Width::Double, a),
        units(Width::Double, a) * pow2(j) >= pow2(1074),
        j <= 500,
    ensures
        exponent(Width::Double, a) >= -j - 53,
{
    let w = Width::Double;
    parts_of(w, a);
    formats(w);
    let (s, e) = (significand(w, a), exponent(w, a));
    if e < -j - 53 {
        let x = (e + 1074) as nat;
        lemma_pow2_unfold(53);
        lemma_pow2_pos(x);
        lemma_pow2_pos(j);
        lemma_pow2_adds(53, x);
        lemma_pow2_adds(53 + x, j);
        let (p, q, u) = (pow2(x), pow2(j), units(w, a));
        assert(u == s * p);
        assert(s * p < pow2(53) * p) by (nonlinear_arith)
            requires
                s < pow2(53),
                p > 0,
        ;
        assert(u * q < pow2(53 + x) * q) by (nonlinear_arith)
            requires
                u < pow2(53 + x),
                q > 0,
        ;
        lemma_pow2_strictly_increases(53 + x + j, 1074);
    }
}

/// A whole number below 2^32 keeps its digits well below the point.
proof fn exponent_at_most(a: u64, b: nat)
    requires
        finite(Width::Double, a),
        units(Width::Double, a) == b * pow2(1074),
        b <= 0xFFFF_FFFF,
    ensures
        exponent(Width::Double, a) <= -20,
{
    let w = Width::Double;
    parts_of(w, a);
    formats(w);
    lemma2_to64();
    let (s, e) = (significand(w, a), exponent(w, a));
    if e > -20 {
        let x = (e + 1074) as nat;
        lemma_pow2_adds(52, x);
        lemma_pow2_adds(32, 1074);
        lemma_pow2_strictly_increases(1106, 52 + x);
        lemma_pow2_pos(x);
        lemma_pow2_pos(1074);
        let (p, q) = (pow2(x), pow2(1074));
        assert(s * p >= pow2(52) * p) by (nonlinear_arith)
            requires
                s >= pow2(52),
                p > 0,
        ;
        assert(b * q < pow2(32) * q) by (nonlinear_arith)
            requires
                b < pow2(32),
                q > 0,
        ;
    }
}

/// What the values of two numbers that are not negative say of their units.
proof fn no_fewer_units(c: Real, v: Real)
    requires
        is_positive(c),
        is_positive(v),
        c.bits <= v.bits,
    ensures
        value(c) <= value(v),
{
    units_keep_order(Width::Double, c.bits, v.bits);
    value_in_units(c);
    value_in_units(v);
    let (x, y, one) = (value(c), value(v), power(1074));
    assert(x <= y) by (nonlinear_arith)
        requires
            x * one <= y * one,
            one > 0real,
    ;
}

/// A product of a whole number and another that reaches half way beyond `n` still does when
/// it is rounded.
pub proof fn product_reaches(b: u32, t: Real, n: nat)
    requires
        b >= 1,
        n <= 0x1_0000_0000,
        is_positive(t),
        value(t) * 17179869184real >= 1real,
        is_positive(Real::nearest_to(b as int).times(t)),
        b as real * value(t) >= n as real + 1real / 2real,
    ensures
        value(Real::nearest_to(b as int).times(t)) >= n as real + 1real / 2real,
{
    let w = Width::Double;
    reveal(Real::nearest_to);
    reveal(Real::spec_times);
    let a = Real::nearest_to(b as int);
    whole_number(b as nat);
    let c = half_step(n);
    least_exponent(t);
    value_in_units(t);
    value_in_units(c);
    let (ut, one) = (units(w, t.bits), pow2(1074));
    let u = b as nat * ut;
    assert(u * one == b as nat * one * ut) by (nonlinear_arith)
        requires
            u == b as nat * ut,
    ;
    product_in_units(w, a.bits, t.bits, u);
    assert(u >= units(w, c.bits)) by {
        let (x, y, z) = (b as real, value(t), power(1074));
        assert(u as real == x * (y * z)) by (nonlinear_arith)
            requires
                u == b as nat * ut,
                x == b as real,
                y * z == ut as real,
        ;
        let g = value(c);
        assert(x * (y * z) >= g * z) by (nonlinear_arith)
            requires
                x * y >= g,
                z > 0real,
        ;
    }
    nearest_keeps_order(w, units(w, c.bits), u, lowest(w));
    pattern_of_units(w, c.bits);
    no_fewer_units(c, a.times(t));
}

proof fn least_exponent(t: Real)
    requires
        is_positive(t),
        value(t) * 17179869184real >= 1real,
    ensures
        exponent(Width::Double, t.bits) >= -87,
        !zero(Width::Double, t.bits),
{
    let w = Width::Double;
    value_in_units(t);
    lemma2_to64_rest();
    let (v, z, p) = (value(t), power(1074), pow2(34));
    let u = units(w, t.bits);
    let q = u * p;
    assert(q as real == u as real * 17179869184real) by (nonlinear_arith)
        requires
            q == u * p,
            p == 17179869184,
    ;
    assert(v * z * 17179869184real >= z) by (nonlinear_arith)
        requires
            v * 17179869184real >= 1real,
            z > 0real,
    ;
    exponent_at_least(t.bits, 34);
    parts_of(w, t.bits);
    if zero(w, t.bits) {
        assert(u == 0) by (nonlinear_arith)
            requires
                u == significand(w, t.bits) * pow2((exponent(w, t.bits) - lowest(w)) as nat),
                significand(w, t.bits) == 0,
        ;
    }
}

/// A quotient of a whole number and another that reaches half way beyond `n` still does when
/// it is rounded.
pub proof fn quotient_reaches(b: u32, t: Real, n: nat)
    requires
        b >= 1,
        n <= 0x1_0000_0000,
        is_positive(t),
        value(t) * 17179869184real >= 1real,
        is_positive(Real::nearest_to(b as int).over(t)),
        b as real >= (n as real + 1real / 2real) * value(t),
    ensures
        value(Real::nearest_to(b as int).over(t)) >= n as real + 1real / 2real,
{
    let w = Width::Double;
    reveal(Real::nearest_to);
    reveal(Real::spec_over);
    let a = Real::nearest_to(b as int);
    whole_number(b as nat);
    exponent_at_most(a.bits, b as nat);
    let c = half_step(n);
    least_exponent(t);
    lemma_pow2_unfold(1074);
    assert((2 * n + 1) * pow2(1073) * 2 >= 2 * pow2(1073)) by (nonlinear_arith);
    lemma2_to64();
    exponent_at_least(c.bits, 1);
    parts_of(w, a.bits);
    parts_of(w, c.bits);
    parts_of(w, t.bits);
    formats(w);
    let (s, d, m) = (significand(w, a.bits), significand(w, t.bits), significand(w, c.bits));
    let (x, y, z) = (exponent(w, a.bits), exponent(w, t.bits), exponent(w, c.bits));
    let k = (z - x + y + 128) as nat;
    let (ua, ut, uc) = (units(w, a.bits), units(w, t.bits), units(w, c.bits));
    let one = pow2(1074);
    // The quotient reaches the number, in units.
    assert(ua * one >= uc * ut) by {
        value_in_units(t);
        value_in_units(c);
        reaches_in_units(b as nat, value(c), value(t), power(1074), ua, ut, uc, one);
    }
    let g = pow2((x + 2020) as nat);
    lemma_pow2_pos((x + 2020) as nat);
    let (px, py, pz) = (
        pow2((x + 1074) as nat),
        pow2((y + 1074) as nat),
        pow2((z + 1074) as nat),
    );
    lemma_pow2_adds((x + 1074) as nat, 1074);
    lemma_pow2_adds(128, (x + 2020) as nat);
    lemma_pow2_adds((z + 1074) as nat, (y + 1074) as nat);
    lemma_pow2_adds(k, (x + 2020) as nat);
    let q = pow2(k);
    without_shift(s, d, m, px, py, pz, one, pow2(128), q, g);
    let (high, low) = (s * pow2(128), m * q);
    assert(high >= d * low) by (nonlinear_arith)
        requires
            high == s * pow2(128),
            low == m * q,
            s * pow2(128) >= m * d * q,
    ;
    assert(high / d >= low) by {
        lemma_div_is_ordered((d * low) as int, high as int, d as int);
        lemma_div_multiples_vanish(low as int, d as int);
    }
    let e = x - y - 128;
    nearest_at_least(w, high / d, e, c.bits, k);
    nearest_with_more(w, high / d, high % d != 0, e);
    no_fewer_units(c, a.over(t));
}

proof fn reaches_in_units(
    b: nat,
    g: real,
    v: real,
    one: real,
    ua: nat,
    ut: nat,
    uc: nat,
    p: nat,
)
    requires
        ua == b * p,
        one == p as real,
        one > 0real,
        v * one == ut as real,
        g * one == uc as real,
        b as real >= g * v,
    ensures
        ua * p >= uc * ut,
{
    let (x, f) = (b as real, ua * p);
    assert(f as real == x * one * one) by (nonlinear_arith)
        requires
            f == b * p * p,
            x == b as real,
            one == p as real,
    ;
    let h = uc * ut;
    assert(h as real == (g * one) * (v * one)) by (nonlinear_arith)
        requires
            h == uc * ut,
            g * one == uc as real,
            v * one == ut as real,
    ;
    assert((g * one) * (v * one) == (g * v) * (one * one)) by (nonlinear_arith);
    let (r, o) = (g * v, one * one);
    assert(o > 0real) by (nonlinear_arith)
        requires
            o == one * one,
            one > 0real,
    ;
    assert(x * o >= r * o) by (nonlinear_arith)
        requires
            x >= r,
            o > 0real,
    ;
    assert(x * one * one == x * o) by (nonlinear_arith)
        requires
            o == one * one,
    ;
}

proof fn without_shift(
    s: nat,
    d: nat,
    m: nat,
    px: nat,
    py: nat,
    pz: nat,
    one: nat,
    top: nat,
    q: nat,
    g: nat,
)
    requires
        s * px * one >= m * pz * (d * py),
        px * one == top * g,
        pz * py == q * g,
        g > 0,
    ensures
        s * top >= m * d * q,
{
    assert(s * px * one == s * top * g) by (nonlinear_arith)
        requires
            px * one == top * g,
    ;
    assert(m * pz * (d * py) == m * d * q * g) by (nonlinear_arith)
        requires
            pz * py == q * g,
    {
        assert(m * pz * (d * py) == m * d * (pz * py));
        assert(m * d * (q * g) == m * d * q * g);
    }
    let (u, v) = (s * top, m * d * q);
    assert(u >= v) by (nonlinear_arith)
        requires
            u * g >= v * g,
            g > 0,
    ;
}

} // verus!
