//! Arithmetic on whole numbers is exact as long as they are small enough.
use vstd::arithmetic::div_mod::*;
use vstd::arithmetic::power2::*;
use vstd::prelude::*;

use crate::binary::Real;
use crate::exact::{finite, formats, nearest_keeps_order, nearest_of_shifted, parts_of};
use crate::float::{
    exponent, fractional, half_or_more, negative, of_integer, product, quotient, significand,
    whole, whole_part, zero, Rounding, Width,
};
use crate::linear::{quantize_1e9, BILLION};
use crate::number::MILLION;
use crate::units::{
    exact_units, nearest_in_units, pattern_of_units, product_in_units, sum_in_units, units,
    whole_part_in_units,
};

verus! {

/// A whole number other than zero that is met exactly.
pub open spec fn is_small(n: nat) -> bool {
    0 < n < 0x20_0000_0000_0000
}

/// Numbers that are not negative are the same if they have the same units.
pub proof fn same_units(a: u64, b: u64)
    requires
        finite(Width::Double, a),
        finite(Width::Double, b),
        !negative(Width::Double, a),
        !negative(Width::Double, b),
        units(Width::Double, a) == units(Width::Double, b),
    ensures
        a == b,
{
    pattern_of_units(Width::Double, a);
    pattern_of_units(Width::Double, b);
}

/// A small whole number has its units, and no digits below them.
pub proof fn whole_number(n: nat)
    requires
        is_small(n),
    ensures
        ({
            let a = of_integer(Width::Double, n as int);
            &&& finite(Width::Double, a)
            &&& !negative(Width::Double, a)
            &&& units(Width::Double, a) == n * pow2(1074)
            &&& -52 <= exponent(Width::Double, a) <= 0
        }),
{
    let w = Width::Double;
    formats(w);
    lemma_pow2_unfold(53);
    nearest_in_units(w, n, 0);
    exact_units(w, n, 1074);
    let a = of_integer(w, n as int);
    parts_of(w, a);
    let s = significand(w, a);
    let x = exponent(w, a) + 1074;
    lemma_pow2_pos(x as nat);
    lemma_pow2_pos(1074);
    if x < 1022 {
        let d = (1074 - x) as nat;
        lemma_pow2_adds(x as nat, d);
        if 53 < d {
            lemma_pow2_strictly_increases(53, d);
        }
        assert(s * pow2(x as nat) < pow2(x as nat) * pow2(d)) by (nonlinear_arith)
            requires
                s < pow2(d),
                pow2(x as nat) > 0,
        ;
        assert(n * pow2(1074) >= pow2(1074)) by (nonlinear_arith)
            requires
                n >= 1,
                pow2(1074) > 0,
        ;
    }
    if x > 1074 {
        let d = (x - 1074) as nat;
        lemma_pow2_adds(1074, d);
        lemma_pow2_pos((d - 1) as nat);
        lemma_pow2_unfold(d);
        assert(s * pow2(x as nat) >= pow2(53) * pow2(1074)) by (nonlinear_arith)
            requires
                s >= pow2(52),
                pow2(53) == 2 * pow2(52),
                pow2(x as nat) == pow2(1074) * pow2(d),
                pow2(d) >= 2,
        ;
        assert(n * pow2(1074) < pow2(53) * pow2(1074)) by (nonlinear_arith)
            requires
                n < pow2(53),
                pow2(1074) > 0,
        ;
    }
}

/// The product of small whole numbers is exact.
pub proof fn wholes_multiply(n: nat, m: nat)
    requires
        is_small(n),
        is_small(m),
        is_small(n * m),
    ensures
        product(Width::Double, of_integer(Width::Double, n as int), of_integer(Width::Double, m as int))
            == of_integer(Width::Double, (n * m) as int),
{
    let w = Width::Double;
    whole_number(n);
    whole_number(m);
    whole_number(n * m);
    let (a, b) = (of_integer(w, n as int), of_integer(w, m as int));
    let u = n * m * pow2(1074);
    let z = pow2(1074);
    assert(u * z == (n * z) * (m * z)) by (nonlinear_arith)
        requires
            u == n * m * z,
    ;
    product_in_units(w, a, b, u);
    pattern_of_units(w, of_integer(w, (n * m) as int));
}

/// The quotient of a small whole number and a divisor of it is exact.
pub proof fn wholes_divide(n: nat, m: nat)
    requires
        is_small(n),
        is_small(m),
        is_small(n * m),
    ensures
        quotient(
            Width::Double,
            of_integer(Width::Double, (n * m) as int),
            of_integer(Width::Double, m as int),
        ) == of_integer(Width::Double, n as int),
{
    let w = Width::Double;
    whole_number(n);
    whole_number(m);
    whole_number(n * m);
    let (a, b) = (of_integer(w, (n * m) as int), of_integer(w, m as int));
    parts_of(w, a);
    parts_of(w, b);
    let (s, t) = (significand(w, a), significand(w, b));
    let (x, y) = ((exponent(w, a) + 1074) as nat, (exponent(w, b) + 1074) as nat);
    let j = (128 - x + y) as nat;
    lemma_pow2_adds(128, y);
    lemma_pow2_adds(j, x);
    lemma_pow2_pos(x);
    lemma_pow2_pos(1074);
    let z = pow2(1074);
    let q = n * pow2(j);
    assert(s * pow2(128) == t * q) by (nonlinear_arith)
        requires
            s * pow2(x) == n * m * z,
            t * pow2(y) == m * z,
            pow2(128) * pow2(y) == pow2(j) * pow2(x),
            q == n * pow2(j),
            pow2(x) > 0,
    {
        assert(s * pow2(x) == n * (t * pow2(y)));
        assert(s * pow2(128) * pow2(x) == n * (t * pow2(y)) * pow2(128));
        assert(n * (t * pow2(y)) * pow2(128) == n * t * (pow2(128) * pow2(y)));
        assert(n * t * (pow2(j) * pow2(x)) == t * q * pow2(x));
    }
    assert(t > 0) by (nonlinear_arith)
        requires
            t * pow2(y) == m * z,
            m > 0,
            z > 0,
    ;
    assert(t * q == q * t) by (nonlinear_arith);
    lemma_fundamental_div_mod_converse((s * pow2(128)) as int, t as int, q as int, 0);
    nearest_of_shifted(w, n, j, 0);
}

/// A small whole number is whole.
pub proof fn whole_has_no_fraction(n: nat, how: Rounding)
    requires
        is_small(n),
    ensures
        ({
            let a = of_integer(Width::Double, n as int);
            &&& whole_part(Width::Double, a) == n
            &&& !fractional(Width::Double, a)
            &&& !half_or_more(Width::Double, a)
            &&& whole(Width::Double, a, how) == a
        }),
{
    let w = Width::Double;
    whole_number(n);
    let a = of_integer(w, n as int);
    parts_of(w, a);
    whole_part_in_units(w, a);
    lemma_pow2_pos(1074);
    lemma_div_multiples_vanish(n as int, pow2(1074) as int);
    assert(pow2(1074) * n == n * pow2(1074)) by (nonlinear_arith);
    let s = significand(w, a);
    let e = exponent(w, a);
    if e < 0 {
        let (x, y) = ((e + 1074) as nat, (-e) as nat);
        lemma_pow2_adds(y, x);
        lemma_pow2_pos(x);
        lemma_pow2_pos(y);
        assert(s == n * pow2(y)) by (nonlinear_arith)
            requires
                s * pow2(x) == n * (pow2(y) * pow2(x)),
                pow2(x) > 0,
        ;
        lemma_fundamental_div_mod_converse(s as int, pow2(y) as int, n as int, 0);
    }
}

/// The numbers of the grids are whole.
pub proof fn million_and_billion()
    ensures
        of_integer(Width::Double, 1_000_000) == MILLION,
        of_integer(Width::Double, 1_000_000_000) == BILLION,
{
    let w = Width::Double;
    formats(w);
    lemma2_to64();
    lemma2_to64_rest();
    whole_number(1_000_000);
    whole_number(1_000_000_000);
    lemma_pow2_adds(33, 1041);
    lemma_pow2_adds(23, 1051);
    let (x, y) = (pow2(1041), pow2(1051));
    assert(significand(w, MILLION) == 1_000_000 * pow2(33) && exponent(w, MILLION) == -33);
    assert(1_000_000 * pow2(33) * x == 1_000_000 * (pow2(33) * x)) by (nonlinear_arith);
    same_units(of_integer(w, 1_000_000), MILLION);
    assert(significand(w, BILLION) == 1_000_000_000 * pow2(23) && exponent(w, BILLION) == -23);
    assert(1_000_000_000 * pow2(23) * y == 1_000_000_000 * (pow2(23) * y)) by (nonlinear_arith);
    same_units(of_integer(w, 1_000_000_000), BILLION);
}

/// A whole number stays on a grid of millionths.
pub proof fn wholes_are_millionths(n: nat)
    requires
        n * 1_000_000 < 0x20_0000_0000_0000,
    ensures
        Real::nearest_to(n as int).on_grid() == Real::nearest_to(n as int),
{
    million_and_billion();
    reveal(Real::nearest_to);
    reveal(Real::spec_times);
    reveal(Real::spec_round);
    reveal(Real::spec_over);
    if n == 0 {
        zero_stays(1_000_000);
    } else {
        wholes_multiply(n, 1_000_000);
        whole_has_no_fraction(n * 1_000_000, Rounding::Nearest);
        wholes_divide(n, 1_000_000);
    }
}

/// A whole number stays on a grid of 1e-9.
pub proof fn wholes_are_billionths(n: nat)
    requires
        n * 1_000_000_000 < 0x20_0000_0000_0000,
    ensures
        quantize_1e9(Real::nearest_to(n as int)) == Real::nearest_to(n as int),
{
    million_and_billion();
    reveal(Real::nearest_to);
    reveal(Real::spec_times);
    reveal(Real::spec_round);
    reveal(Real::spec_over);
    if n == 0 {
        zero_stays(1_000_000_000);
    } else {
        wholes_multiply(n, 1_000_000_000);
        whole_has_no_fraction(n * 1_000_000_000, Rounding::Nearest);
        wholes_divide(n, 1_000_000_000);
    }
}

/// Zero times a whole number, rounded, and over a whole number, is zero.
pub proof fn zero_stays(m: nat)
    requires
        is_small(m),
    ensures
        ({
            let b = of_integer(Width::Double, m as int);
            &&& product(Width::Double, 0, b) == 0
            &&& whole(Width::Double, 0, Rounding::Nearest) == 0
            &&& quotient(Width::Double, 0, b) == 0
        }),
{
    let w = Width::Double;
    formats(w);
    whole_number(m);
    let b = of_integer(w, m as int);
    parts_of(w, 0);
    parts_of(w, b);
    lemma_pow2_pos(1074);
    assert(significand(w, b) > 0) by {
        if significand(w, b) == 0 {
            assert(m * pow2(1074) > 0) by (nonlinear_arith)
                requires
                    m > 0,
                    pow2(1074) > 0,
            ;
            assert(0 * pow2((exponent(w, b) + 1074) as nat) == 0) by (nonlinear_arith);
        }
    }
    assert(0 * significand(w, b) == 0) by (nonlinear_arith);
    assert(0 * pow2(128) == 0) by (nonlinear_arith);
    lemma_pow2_pos(1075);
    lemma_basic_div(0, significand(w, b) as int);
    let h = pow2((-exponent(w, 0)) as nat);
    lemma_pow2_pos((-exponent(w, 0)) as nat);
    lemma_basic_div(0, h as int);
    lemma_small_mod(0, h);
}

/// A whole number rounds to itself, either way.
pub proof fn wholes_round_to_themselves(n: nat)
    requires
        n < 0x20_0000_0000_0000,
    ensures
        Real::nearest_to(n as int).floor_integer() == n,
        Real::nearest_to(n as int).ceiling_integer() == n,
        Real::nearest_to(n as int).round_integer() == n,
        Real::nearest_to(n as int).floor() == Real::nearest_to(n as int),
{
    reveal(Real::nearest_to);
    reveal(Real::spec_floor);
    reveal(Real::spec_floor_integer);
    reveal(Real::spec_ceiling_integer);
    reveal(Real::spec_round_integer);
    if n == 0 {
        formats(Width::Double);
        parts_of(Width::Double, 0);
        let h = pow2(1074);
        lemma_pow2_pos(1074);
        lemma_basic_div(0, h as int);
        lemma_small_mod(0, h);
    } else {
        whole_number(n);
        whole_has_no_fraction(n, Rounding::Down);
    }
}

/// Whole numbers as numbers are finite, not negative, and in order.
pub proof fn wholes_are_in_order(n: nat, m: nat)
    requires
        n < 0x20_0000_0000_0000,
        m < 0x20_0000_0000_0000,
    ensures
        finite(Width::Double, Real::nearest_to(n as int).bits),
        !negative(Width::Double, Real::nearest_to(n as int).bits),
        zero(Width::Double, Real::nearest_to(n as int).bits) <==> n == 0,
        Real::nearest_to(n as int).below(Real::nearest_to(m as int)) <==> n < m,
{
    let w = Width::Double;
    reveal(Real::nearest_to);
    formats(w);
    if n > 0 {
        whole_number(n);
        not_zero(n);
    }
    if m > 0 {
        whole_number(m);
        not_zero(m);
    }
    let (a, b) = (of_integer(w, n as int), of_integer(w, m as int));
    if n > 0 && m > 0 {
        lemma_pow2_pos(1074);
        let z = pow2(1074);
        pattern_of_units(w, a);
        pattern_of_units(w, b);
        if n <= m {
            nearest_keeps_order(w, n, m, 0);
        } else {
            nearest_keeps_order(w, m, n, 0);
        }
        assert(n * z == m * z ==> n == m) by (nonlinear_arith)
            requires
                z > 0,
        ;
    }
}

proof fn not_zero(n: nat)
    requires
        is_small(n),
    ensures
        !zero(Width::Double, of_integer(Width::Double, n as int)),
{
    let w = Width::Double;
    whole_number(n);
    let a = of_integer(w, n as int);
    parts_of(w, a);
    lemma_pow2_pos(1074);
    if significand(w, a) == 0 {
        assert(n * pow2(1074) > 0) by (nonlinear_arith)
            requires
                n > 0,
                pow2(1074) > 0,
        ;
        assert(0 * pow2((exponent(w, a) + 1074) as nat) == 0) by (nonlinear_arith);
    }
}

/// The sum of small whole numbers is exact.
pub proof fn wholes_add(n: nat, m: nat)
    requires
        n + m < 0x20_0000_0000_0000,
    ensures
        Real::nearest_to(n as int).plus(Real::nearest_to(m as int)) == Real::nearest_to(
            (n + m) as int,
        ),
{
    let w = Width::Double;
    reveal(Real::nearest_to);
    reveal(Real::spec_plus);
    formats(w);
    let (a, b, c) = (
        of_integer(w, n as int),
        of_integer(w, m as int),
        of_integer(w, (n + m) as int),
    );
    parts_of(w, 0);
    let z = pow2(1074);
    assert(0 * pow2(0) == 0) by (nonlinear_arith);
    if n > 0 {
        whole_number(n);
    }
    if m > 0 {
        whole_number(m);
    }
    sum_in_units(w, a, b);
    assert((n + m) * z == n * z + m * z) by (nonlinear_arith);
    assert(0 * z == 0) by (nonlinear_arith);
    if n + m > 0 {
        whole_number(n + m);
        pattern_of_units(w, c);
    }
}

} // verus!
