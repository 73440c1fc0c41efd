//! A weight and what is left of it to 1 make up 1, to the last bit.
use vstd::arithmetic::div_mod::*;
use vstd::arithmetic::power2::*;
use vstd::prelude::*;

use crate::binary::Real;
use crate::exact::{finite, formats, parts_of, sum_with_zero};
use crate::float::{bit_length_is, exponent, negative, opposite, rounded, significand, zero, Width};
use crate::number::ONE;
use crate::units::{
    difference_in_units, exact_units, pattern, pattern_of_units, sum_in_units, units,
    units_keep_order,
};

verus! {

/// The units of 1.
spec fn whole() -> nat {
    pow2(1074)
}

proof fn one_in_units()
    ensures
        units(Width::Double, ONE) == whole(),
        pattern(Width::Double, whole()) == ONE,
{
    formats(Width::Double);
    lemma_pow2_adds(52, 1022);
    pattern_of_units(Width::Double, ONE);
}

/// A number of units of `53 + s` bits is rounded to 53 bits.
proof fn pattern_by_rounding(u: nat, s: nat)
    requires
        pow2(52 + s) <= u < pow2(53 + s),
        0 < s <= 1900,
    ensures
        pow2(52) <= rounded(u, s, false) <= pow2(53),
        pattern(Width::Double, u) == rounded(u, s, false) + s * pow2(52),
{
    let w = Width::Double;
    formats(w);
    bit_length_is(u, 53 + s);
    lemma_pow2_pos(s);
    lemma_pow2_unfold(53);
    lemma_pow2_adds(52, s);
    lemma_pow2_adds(53, s);
    lemma_fundamental_div_mod(u as int, pow2(s) as int);
    lemma_mod_bound(u as int, pow2(s) as int);
    let (q, g) = (u / pow2(s), pow2(s));
    assert(pow2(52) <= q < pow2(53)) by (nonlinear_arith)
        requires
            pow2(52) * g <= u < pow2(53) * g,
            u == g * q + u % g,
            0 <= u % g < g,
            g > 0,
    ;
    let c = rounded(u, s, false);
    let unit = pow2(52);
    assert(c + s * unit < 0x7FF0_0000_0000_0000) by (nonlinear_arith)
        requires
            c <= 2 * unit,
            s <= 1900,
            unit == 0x10_0000_0000_0000,
    ;
}

/// A number of `53 + s` bits is met within half of `2^s`.
proof fn met_within_half(u: nat, s: nat)
    requires
        pow2(52 + s) <= u < pow2(53 + s),
        0 < s <= 1800,
    ensures
        ({
            let v = pattern(Width::Double, u) as u64;
            &&& finite(Width::Double, v)
            &&& !negative(Width::Double, v)
            &&& -pow2((s - 1) as nat) <= units(Width::Double, v) - u <= pow2((s - 1) as nat)
        }),
{
    let w = Width::Double;
    formats(w);
    pattern_by_rounding(u, s);
    let c = rounded(u, s, false);
    let (q, r, g, h) = (u / pow2(s), u % pow2(s), pow2(s), pow2((s - 1) as nat));
    lemma_pow2_pos(s);
    lemma_pow2_unfold(s);
    lemma_pow2_unfold(53);
    lemma_fundamental_div_mod(u as int, g as int);
    lemma_mod_bound(u as int, g as int);
    assert(-h <= c * g - u <= h) by (nonlinear_arith)
        requires
            u == g * q + r,
            0 <= r < g,
            g == 2 * h,
            c == q && r <= h || c == q + 1 && r >= h,
    ;
    // The pattern is that of c * 2^s.
    if c < pow2(53) {
        exact_units(w, c, s);
        lemma_pow2_adds(52, s);
        lemma_pow2_adds(53, s);
        assert(pow2(52) * g <= c * g < pow2(53) * g) by (nonlinear_arith)
            requires
                pow2(52) <= c < pow2(53),
                g > 0,
        ;
        pattern_by_rounding(c * g, s);
        lemma_fundamental_div_mod_converse((c * g) as int, g as int, c as int, 0);
    } else {
        lemma_pow2_adds(53, s);
        exact_units(w, 1, 53 + s);
        assert(1 * pow2(53 + s) == pow2(53 + s));
        lemma_pow2_adds(52, s + 1);
        lemma_pow2_unfold(54 + s);
        lemma_pow2_pos(53 + s);
        let n = pow2(53 + s);
        pattern_by_rounding(n, s + 1);
        lemma_pow2_pos(s + 1);
        lemma_fundamental_div_mod_converse(n as int, pow2(s + 1) as int, pow2(52) as int, 0);
        assert((s + 1) * pow2(52) + pow2(52) == pow2(53) + s * pow2(52)) by (nonlinear_arith)
            requires
                pow2(53) == 2 * pow2(52),
        ;
    }
}

/// What is within a half of the last place of 1 is rounded to 1.
proof fn near_one(u: nat)
    requires
        -pow2(1020) <= u - whole() <= pow2(1020),
    ensures
        pattern(Width::Double, u) == ONE,
{
    let w = Width::Double;
    formats(w);
    one_in_units();
    lemma_pow2_unfold(1075);
    lemma_pow2_unfold(1074);
    lemma_pow2_unfold(1022);
    lemma_pow2_unfold(1021);
    lemma_pow2_unfold(53);
    lemma_pow2_adds(52, 1022);
    lemma_pow2_adds(53, 1021);
    lemma_pow2_pos(1020);
    lemma_pow2_strictly_increases(1020, 1073);
    let h = pow2(1020);
    if u >= whole() {
        pattern_by_rounding(u, 1022);
        assert(pow2(52) * (4 * h) == 4 * h * pow2(52)) by (nonlinear_arith);
        lemma_fundamental_div_mod_converse(
            u as int,
            pow2(1022) as int,
            pow2(52) as int,
            u - whole(),
        );
    } else {
        pattern_by_rounding(u, 1021);
        let q = (pow2(53) - 1) as nat;
        let r = u - q * (2 * h);
        assert(r == 2 * h - (whole() - u)) by (nonlinear_arith)
            requires
                r == u - q * (2 * h),
                q == pow2(53) - 1,
                whole() == pow2(53) * (2 * h),
        ;
        lemma_fundamental_div_mod_converse(u as int, pow2(1021) as int, q as int, r);
        assert(q % 2 == 1);
        assert(rounded(u, 1021, false) == pow2(53));
        assert(pow2(53) + 1021 * pow2(52) == ONE);
    }
}

/// A number from one half to 1 has no digits below 2^-53.
proof fn large_weight(t: u64) -> (m: nat)
    requires
        finite(Width::Double, t),
        !negative(Width::Double, t),
        pow2(1073) < units(Width::Double, t) < whole(),
    ensures
        0 < m < pow2(52),
        whole() - units(Width::Double, t) == m * pow2(1021),
{
    let w = Width::Double;
    formats(w);
    parts_of(w, t);
    let (s, x) = (significand(w, t), (exponent(w, t) + 1074) as nat);
    lemma_pow2_unfold(53);
    lemma_pow2_pos(x);
    if x < 1021 {
        lemma_pow2_adds(53, x);
        if 53 + x < 1073 {
            lemma_pow2_strictly_increases(53 + x, 1073);
        }
        assert(s * pow2(x) <= pow2(53) * pow2(x)) by (nonlinear_arith)
            requires
                s <= pow2(53),
                pow2(x) > 0,
        ;
    }
    let d = (x - 1021) as nat;
    lemma_pow2_adds(1021, d);
    lemma_pow2_adds(53, 1021);
    lemma_pow2_adds(52, 1021);
    lemma_pow2_pos(1021);
    let g = pow2(1021);
    let k = s * pow2(d);
    assert(s * (g * pow2(d)) == k * g) by (nonlinear_arith)
        requires
            k == s * pow2(d),
    ;
    let m = (pow2(53) - k) as nat;
    assert(pow2(52) < k < pow2(53)) by (nonlinear_arith)
        requires
            pow2(52) * g < k * g < pow2(53) * g,
            g > 0,
    ;
    assert(m * g == pow2(53) * g - k * g) by (nonlinear_arith)
        requires
            m == pow2(53) - k,
    ;
    m
}

/// A number from 0 to 1, and what is left of it to 1, make up 1.
pub proof fn parts_make_up_one(t: Real)
    requires
        finite(Width::Double, t.bits),
        zero(Width::Double, t.bits) || t.bits <= ONE,
    ensures
        (Real { bits: ONE }).minus(t).plus(t) == (Real { bits: ONE }),
{
    let w = Width::Double;
    let o = ONE;
    reveal(Real::spec_plus);
    reveal(Real::spec_negated);
    formats(w);
    one_in_units();
    if zero(w, t.bits) {
        sum_with_zero(w, o, opposite(w, t.bits));
        sum_with_zero(w, o, t.bits);
    } else {
        units_keep_order(w, t.bits, o);
        difference_in_units(w, o, t.bits);
        let u = units(w, t.bits);
        let d = (whole() - u) as nat;
        let v = pattern(w, d) as u64;
        lemma_pow2_pos(1020);
        lemma_pow2_unfold(1074);
        lemma_pow2_pos(1073);
        if d == 0 {
            parts_of(w, 0);
            assert(0 * pow2(0) == 0);
            sum_in_units(w, v, t.bits);
        } else if d < pow2(1073) {
            let m = large_weight(t.bits);
            lemma_pow2_unfold(53);
            exact_units(w, m, 1021);
            sum_in_units(w, v, t.bits);
        } else {
            assert(u > 0) by {
                parts_of(w, t.bits);
                let x = (exponent(w, t.bits) + 1074) as nat;
                lemma_pow2_pos(x);
                assert(significand(w, t.bits) * pow2(x) > 0) by (nonlinear_arith)
                    requires
                        significand(w, t.bits) > 0,
                        pow2(x) > 0,
                ;
            }
            met_within_half(d, 1021);
            sum_in_units(w, v, t.bits);
            near_one(units(w, v) + u);
        }
    }
}

} // verus!
