//! Whole parts and remainders are exact.
use vstd::arithmetic::div_mod::*;
use vstd::arithmetic::power2::*;
use vstd::prelude::*;

use crate::binary::Real;
use crate::exact::{formats, is_number, parts_of};
use crate::float::{
    common_exponent, exponent, in_units, significand, whole_part, Width,
};
use crate::tangents::is_positive;
use crate::units::{exact_units, nearest_in_units};
use crate::value::{
    in_units_is, magnitude, magnitude_by_parts, modest, power, power_adds, range_of_exponent, value,
    zero_is_zero,
};

verus! {

proof fn fraction_of(x: real, p: real, one: real)
    requires
        one > 0real,
    ensures
        x * p / one == x * (p / one),
{
    assert(x * p / one == x * (p / one)) by (nonlinear_arith)
        requires
            one > 0real,
    ;
}

/// The whole part of a number that is not negative.
pub proof fn floor_is_near(a: Real) -> (n: nat)
    requires
        is_positive(a),
        value(a) <= 1000000000000000real,
    ensures
        a.floor_integer() == n,
        n as real <= value(a) < (n + 1) as real,
{
    let w = Width::Double;
    reveal(Real::spec_floor_integer);
    whole_part_bounds(a.bits);
    whole_part(w, a.bits)
}

/// A number lies between its whole part and the next whole number.
proof fn whole_part_bounds(a: u64)
    requires
        is_number(Real { bits: a }),
    ensures
        whole_part(Width::Double, a) as real <= magnitude(a),
        magnitude(a) < (whole_part(Width::Double, a) + 1) as real,
{
    let w = Width::Double;
    magnitude_by_parts(a);
    let (s, e) = (significand(w, a), exponent(w, a));
    let x = (e + 1074) as nat;
    let one = power(1074);
    lemma_pow2_pos(1074);
    if e >= 0 {
        let k = e as nat;
        power_adds(k, 1074);
        let n = s * pow2(k);
        assert(n as real == s as real * power(k)) by (nonlinear_arith)
            requires
                n == s * pow2(k),
        ;
        let (sr, p) = (s as real, power(k));
        assert(sr * (p * one) / one == sr * p) by (nonlinear_arith)
            requires
                one > 0real,
        ;
    } else {
        let y = (-e) as nat;
        power_adds(y, x);
        lemma_pow2_pos(y);
        let g = pow2(y);
        lemma_fundamental_div_mod(s as int, g as int);
        lemma_mod_bound(s as int, g as int);
        let (q, r) = (s / g, s % g);
        let gq = g * q;
        assert(gq as real == g as real * q as real) by (nonlinear_arith)
            requires
                gq == g * q,
        ;
        let (sr, gr, qr, rr, p) = (s as real, g as real, q as real, r as real, power(x));
        let m = sr * p / one;
        assert(m * gr == sr) by (nonlinear_arith)
            requires
                m == sr * p / one,
                one == gr * p,
                p > 0real,
                gr > 0real,
        ;
        let f = m - qr;
        assert((m - qr) * gr == m * gr - qr * gr) by (nonlinear_arith);
        assert(qr * gr == gr * qr) by (nonlinear_arith);
        if f < 0real {
            assert(f * gr < 0real) by (nonlinear_arith)
                requires
                    f < 0real,
                    gr > 0real,
            ;
        }
        if f >= 1real {
            assert(f * gr >= gr) by (nonlinear_arith)
                requires
                    f >= 1real,
                    gr > 0real,
            ;
        }
    }
}

/// What is left of a number after another has been taken away as often as it fits is exact.
pub proof fn remainder_is_exact(a: Real, b: Real) -> (k: nat)
    requires
        is_positive(a) && modest(a),
        is_positive(b) && modest(b),
        value(b) > 0real,
    ensures
        is_positive(a.left_of(b)),
        value(a.left_of(b)) == value(a) - k as real * value(b),
        0real <= value(a.left_of(b)) < value(b),
{
    let w = Width::Double;
    reveal(Real::spec_left_of);
    magnitude_by_parts(a.bits);
    magnitude_by_parts(b.bits);
    range_of_exponent(a);
    range_of_exponent(b);
    let e = common_exponent(w, a.bits, b.bits);
    in_units_is(a, e);
    in_units_is(b, e);
    parts_of(w, a.bits);
    parts_of(w, b.bits);
    formats(w);
    lemma_pow2_unfold(53);
    let (n, d) = (in_units(w, a.bits, e) as nat, in_units(w, b.bits, e) as nat);
    let y = (e + 1074) as nat;
    let (p, one) = (power(y), power(1074));
    lemma_pow2_pos(y);
    lemma_pow2_pos(1074);
    if d == 0 {
        assert(0real * p / one == 0real) by (nonlinear_arith)
            requires
                one > 0real,
        ;
    }
    lemma_fundamental_div_mod(n as int, d as int);
    lemma_mod_bound(n as int, d as int);
    let (k, r) = (n / d, n % d);
    let dk = d * k;
    let (nr, dr, kr, rr) = (n as real, d as real, k as real, r as real);
    assert(dk as real == dr * kr) by (nonlinear_arith)
        requires
            dk == d * k,
            dr == d as real,
            kr == k as real,
    ;
    assert(rr == nr - dr * kr);
    // One of the two has no digits below the grid.
    let (s, t) = (significand(w, a.bits), significand(w, b.bits));
    let unit = pow2(0);
    assert(s * unit == s && t * unit == t) by (nonlinear_arith)
        requires
            unit == 1,
    ;
    if n < d {
        lemma_small_mod(n, d);
    }
    if exponent(w, a.bits) == e {
        assert(n == s);
        lemma_mod_decreases(n, d);
    } else {
        assert(d == t);
    }
    assert(r < pow2(53));
    nearest_in_units(w, r, e);
    let c = a.left_of(b);
    if r > 0 {
        exact_units(w, r, y);
        let u = r * pow2(y);
        assert(u as real == rr * p) by (nonlinear_arith)
            requires
                u == r * pow2(y),
                rr == r as real,
                p == pow2(y) as real,
        ;
        assert(value(c) == rr * p / one);
    } else {
        zero_is_zero();
        assert(0real * p / one == 0real) by (nonlinear_arith)
            requires
                one > 0real,
        ;
        assert(value(c) == rr * p / one);
    }
    let q = p / one;
    assert(q > 0real) by (nonlinear_arith)
        requires
            q == p / one,
            p > 0real,
            one > 0real,
    ;
    fraction_of(rr, p, one);
    fraction_of(nr, p, one);
    fraction_of(dr, p, one);
    let z = dr * kr;
    assert((nr - z) * q == nr * q - z * q) by (nonlinear_arith);
    assert((dr * kr) * q == kr * (dr * q)) by (nonlinear_arith);
    assert(rr * q < dr * q) by (nonlinear_arith)
        requires
            rr < dr,
            q > 0real,
    ;
    assert(0real <= rr * q) by (nonlinear_arith)
        requires
            0real <= rr,
            q > 0real,
    ;
    k
}

} // verus!
