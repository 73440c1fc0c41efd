//! Rounding to whole numbers moves a number by at most a half.
use vstd::arithmetic::div_mod::*;
use vstd::arithmetic::power2::*;
use vstd::prelude::*;

use crate::binary::Real;
use crate::exact::{formats, is_number, parts_of};
use crate::float::{
    ceiling_value, exponent, floor_value, fractional, half_or_more, nearest, negative, of_integer, round_value, signed, significand,
    unsigned, whole_part, zero, Width,
};
use crate::tangents::is_positive;
use crate::units::{difference_in_units, pattern_of_units, units};
use crate::value::{magnitude, magnitude_by_parts, power, power_adds, value, wholes_are_themselves};
use crate::wholes::{same_units, whole_number};

verus! {

/// The difference of small whole numbers is exact.
pub proof fn wholes_subtract(n: nat, m: nat)
    requires
        m <= n < 0x20_0000_0000_0000,
    ensures
        Real::nearest_to(n as int).minus(Real::nearest_to(m as int)) == Real::nearest_to(
            (n - m) as int,
        ),
{
    let w = Width::Double;
    reveal(Real::nearest_to);
    reveal(Real::spec_plus);
    reveal(Real::spec_negated);
    formats(w);
    let (a, b, c) = (
        of_integer(w, n as int),
        of_integer(w, m as int),
        of_integer(w, (n - m) as int),
    );
    parts_of(w, 0);
    let z = pow2(1074);
    assert(0 * pow2(0) == 0) by (nonlinear_arith);
    if n > 0 {
        whole_number(n);
    }
    if m > 0 {
        whole_number(m);
    }
    assert(0 * z == 0) by (nonlinear_arith);
    assert(m * z <= n * z) by (nonlinear_arith)
        requires
            m <= n,
    ;
    difference_in_units(w, a, b);
    assert((n - m) * z == n * z - m * z) by (nonlinear_arith);
    if n > m {
        whole_number((n - m) as nat);
        pattern_of_units(w, c);
    }
}

/// The size of a number, and its whole part, rounded: they differ by at most a half, and by
/// less than that where the whole part is below the size.
proof fn rounded_part(a: u64)
    requires
        is_number(Real { bits: a }),
    ensures
        ({
            let n = whole_part(Width::Double, a) + if half_or_more(Width::Double, a) {
                1nat
            } else {
                0nat
            };
            -(1real / 2real) < n as real - magnitude(a) <= 1real / 2real
        }),
{
    let w = Width::Double;
    magnitude_by_parts(a);
    let (s, e) = (significand(w, a), exponent(w, a));
    let x = (e + 1074) as nat;
    let one = power(1074);
    lemma_pow2_pos(1074);
    if e >= 0 {
        let k = e as nat;
        power_adds(k, 1074);
        let n = s * pow2(k);
        assert(n as real == s as real * power(k)) by (nonlinear_arith)
            requires
                n == s * pow2(k),
        ;
        let (sr, p) = (s as real, power(k));
        assert(sr * (p * one) / one == sr * p) by (nonlinear_arith)
            requires
                one > 0real,
        ;
    } else {
        let y = (-e) as nat;
        power_adds(y, x);
        lemma_pow2_pos(y);
        let g = pow2(y);
        lemma_fundamental_div_mod(s as int, g as int);
        lemma_mod_bound(s as int, g as int);
        let (q, r) = (s / g, s % g);
        let gq = g * q;
        assert(gq as real == g as real * q as real) by (nonlinear_arith)
            requires
                gq == g * q,
        ;
        let (sr, gr, qr, rr, p) = (s as real, g as real, q as real, r as real, power(x));
        // The value is q + r / g.
        let m = sr * p / one;
        assert(m * gr == sr) by (nonlinear_arith)
            requires
                m == sr * p / one,
                one == gr * p,
                p > 0real,
                gr > 0real,
        ;
        parts_of_whole(m, gr, qr, rr);
    }
}

proof fn parts_of_whole(m: real, g: real, q: real, r: real)
    requires
        g > 0real,
        m * g == g * q + r,
        0real <= r < g,
    ensures
        2real * r >= g ==> -(1real / 2real) < q + 1real - m <= 1real / 2real,
        2real * r < g ==> -(1real / 2real) < q - m <= 1real / 2real,
{
    let f = m - q;
    assert(f * g == r) by (nonlinear_arith)
        requires
            f == m - q,
            m * g == g * q + r,
    ;
    if f < 0real {
        assert(f * g < 0real) by (nonlinear_arith)
            requires
                f < 0real,
                g > 0real,
        ;
    }
    if f >= 1real {
        assert(f * g >= g) by (nonlinear_arith)
            requires
                f >= 1real,
                g > 0real,
        ;
    }
    if f < 1real / 2real {
        assert(2real * (f * g) < g) by (nonlinear_arith)
            requires
                f < 1real / 2real,
                g > 0real,
        ;
    }
    if f >= 1real / 2real {
        assert(2real * (f * g) >= g) by (nonlinear_arith)
            requires
                f >= 1real / 2real,
                g > 0real,
        ;
    }
    if f > 1real / 2real {
        assert(2real * (f * g) > g) by (nonlinear_arith)
            requires
                f > 1real / 2real,
                g > 0real,
        ;
    }
}

/// A number that is not negative, rounded, is a whole number within a half of it.
pub proof fn round_is_near(a: Real) -> (n: nat)
    requires
        is_positive(a),
        value(a) <= 1000000000000000real,
    ensures
        a.round() == Real::nearest_to(n as int),
        -(1real / 2real) <= n as real - value(a) <= 1real / 2real,
        a.round_integer() == n,
        n <= 1000000000000001,
{
    let w = Width::Double;
    reveal(Real::spec_round);
    reveal(Real::spec_round_integer);
    rounded_part(a.bits);
    let n = whole_part(w, a.bits) + if half_or_more(w, a.bits) {
        1nat
    } else {
        0nat
    };
    assert(round_value(w, a.bits) == n);
    assert(a.round() == Real::nearest_to(n as int)) by {
        reveal(Real::nearest_to);
        if exponent(w, a.bits) >= 0 {
            rounds_to_itself(a.bits, n);
        }
    }
    n
}

/// A number that is not negative, rounded to the nearest integer: halves go up, and what is
/// too large is kept in range.
pub proof fn round_goes_up(a: Real) -> (n: nat)
    requires
        is_positive(a),
    ensures
        n as real - 1real / 2real <= value(a) < n as real + 1real / 2real,
        a.round_integer() == if n > i64::MAX {
            i64::MAX as int
        } else {
            n as int
        },
{
    let w = Width::Double;
    reveal(Real::spec_round_integer);
    rounded_part(a.bits);
    let n = whole_part(w, a.bits) + if half_or_more(w, a.bits) {
        1nat
    } else {
        0nat
    };
    assert(round_value(w, a.bits) == n);
    n
}

/// The size of a number, and its whole part: the fraction is less than one, and above zero
/// where there is one.
proof fn part_below(a: u64)
    requires
        is_number(Real { bits: a }),
    ensures
        ({
            let n = whole_part(Width::Double, a) as real;
            &&& n <= magnitude(a) < n + 1real
            &&& fractional(Width::Double, a) <==> n < magnitude(a)
        }),
{
    let w = Width::Double;
    magnitude_by_parts(a);
    let (s, e) = (significand(w, a), exponent(w, a));
    let x = (e + 1074) as nat;
    let one = power(1074);
    lemma_pow2_pos(1074);
    if e >= 0 {
        let k = e as nat;
        power_adds(k, 1074);
        let n = s * pow2(k);
        assert(n as real == s as real * power(k)) by (nonlinear_arith)
            requires
                n == s * pow2(k),
        ;
        let (sr, p) = (s as real, power(k));
        assert(sr * (p * one) / one == sr * p) by (nonlinear_arith)
            requires
                one > 0real,
        ;
    } else {
        let y = (-e) as nat;
        power_adds(y, x);
        lemma_pow2_pos(y);
        let g = pow2(y);
        lemma_fundamental_div_mod(s as int, g as int);
        lemma_mod_bound(s as int, g as int);
        let (q, r) = (s / g, s % g);
        let gq = g * q;
        assert(gq as real == g as real * q as real) by (nonlinear_arith)
            requires
                gq == g * q,
        ;
        let (sr, gr, qr, rr, p) = (s as real, g as real, q as real, r as real, power(x));
        let m = sr * p / one;
        assert(m * gr == sr) by (nonlinear_arith)
            requires
                m == sr * p / one,
                one == gr * p,
                p > 0real,
                gr > 0real,
        ;
        let f = m - qr;
        assert(f * gr == rr) by (nonlinear_arith)
            requires
                f == m - qr,
                m * gr == gr * qr + rr,
        ;
        assert(0real <= f < 1real && (f > 0real <==> rr > 0real)) by (nonlinear_arith)
            requires
                f * gr == rr,
                0real <= rr < gr,
        ;
    }
}

/// A number that is not negative, rounded down, is a whole number at most one below it.
pub proof fn floor_is_near(a: Real) -> (n: nat)
    requires
        is_positive(a),
        value(a) <= 1000000000000000real,
    ensures
        a.floor() == Real::nearest_to(n as int),
        n as real <= value(a) < n as real + 1real,
        n <= 1000000000000000,
{
    let w = Width::Double;
    reveal(Real::spec_floor);
    part_below(a.bits);
    let n = whole_part(w, a.bits);
    assert(floor_value(w, a.bits) == n);
    assert(a.floor() == Real::nearest_to(n as int)) by {
        reveal(Real::nearest_to);
        if exponent(w, a.bits) >= 0 {
            rounds_to_itself(a.bits, n);
        }
    }
    n
}

/// A number that is not negative, rounded up, is a whole number at most one above it.
pub proof fn ceiling_is_near(a: Real)
    requires
        is_positive(a),
        value(a) <= 1000000000000000real,
    ensures
        a.ceiling_integer() as real - 1real < value(a) <= a.ceiling_integer() as real,
        0 <= a.ceiling_integer() <= 1000000000000001,
{
    let w = Width::Double;
    reveal(Real::spec_ceiling_integer);
    part_below(a.bits);
    let n = ceiling_value(w, a.bits);
    assert(0 <= n <= 1000000000000001);
}

/// A number without a fraction is the whole number that it stands for.
proof fn rounds_to_itself(a: u64, n: nat)
    requires
        is_positive(Real { bits: a }),
        exponent(Width::Double, a) >= 0,
        n == whole_part(Width::Double, a),
        n < 0x20_0000_0000_0000,
    ensures
        a == of_integer(Width::Double, n as int),
{
    let w = Width::Double;
    parts_of(w, a);
    let (s, e) = (significand(w, a), exponent(w, a));
    formats(w);
    lemma_pow2_adds(e as nat, 1074);
    lemma_pow2_pos(e as nat);
    let u = s * pow2((e + 1074) as nat);
    assert(u == n * pow2(1074)) by (nonlinear_arith)
        requires
            u == s * (pow2(e as nat) * pow2(1074)),
            n == s * pow2(e as nat),
    ;
    assert(n > 0) by (nonlinear_arith)
        requires
            n == s * pow2(e as nat),
            s > 0,
            pow2(e as nat) > 0,
    ;
    whole_number(n);
    same_units(a, of_integer(w, n as int));
}

/// A number of less than a quarter, either way, rounds to a zero.
pub proof fn small_rounds_to_zero(a: Real)
    requires
        is_number(a),
        -(1real / 4real) < value(a) < 1real / 4real,
    ensures
        is_number(a.round()),
        zero(Width::Double, a.round().bits),
        a.round_integer() == 0,
{
    let w = Width::Double;
    reveal(Real::spec_round);
    reveal(Real::spec_round_integer);
    magnitude_by_parts(a.bits);
    rounded_part(a.bits);
    let n = whole_part(w, a.bits) + if half_or_more(w, a.bits) {
        1nat
    } else {
        0nat
    };
    assert(n == 0);
    let (s, e) = (significand(w, a.bits), exponent(w, a.bits));
    if e >= 0 {
        lemma_pow2_pos(e as nat);
        assert(s * pow2(e as nat) == 0);
        assert(s == 0) by (nonlinear_arith)
            requires
                s * pow2(e as nat) == 0,
                pow2(e as nat) > 0,
        ;
        parts_of(w, a.bits);
        formats(w);
    }
    parts_of(w, 0);
}

/// A negative number, rounded, is a whole number with a minus sign, or zero with it.
pub proof fn round_of_negative(a: Real)
    requires
        is_number(a),
        negative(Width::Double, a.bits),
        -1000000000000000real <= value(a),
    ensures
        is_number(a.round()),
        negative(Width::Double, a.round().bits),
        value(a) - 1real <= value(a.round()) <= 0real,
        a.round_integer() <= 0,
{
    let w = Width::Double;
    reveal(Real::spec_round);
    reveal(Real::spec_round_integer);
    magnitude_by_parts(a.bits);
    rounded_part(a.bits);
    let n = whole_part(w, a.bits) + if half_or_more(w, a.bits) {
        1nat
    } else {
        0nat
    };
    if exponent(w, a.bits) < 0 {
        wholes_are_themselves(n);
        let b = Real::nearest_to(n as int);
        assert(b.bits == nearest(w, n, false, 0) as u64) by {
            reveal(Real::nearest_to);
        }
        let c = a.round();
        assert(c.bits == signed(w, true, b.bits as int)) by {
            reveal(Real::nearest_to);
        }
        assert(unsigned(w, c.bits) == b.bits && negative(w, c.bits));
        assert(units(w, c.bits) == units(w, b.bits));
    }
}

/// A number, rounded, is a whole number within a half of it, on either side of zero.
pub proof fn round_is_close(a: Real)
    requires
        is_number(a),
    ensures
        is_number(a.round()),
        -(1real / 2real) <= value(a.round()) - value(a) <= 1real / 2real,
{
    let w = Width::Double;
    magnitude_by_parts(a.bits);
    reveal(Real::spec_round);
    rounded_part(a.bits);
    let n = whole_part(w, a.bits) + if half_or_more(w, a.bits) {
        1nat
    } else {
        0nat
    };
    let e = exponent(w, a.bits);
    if e < 0 {
        parts_of(w, a.bits);
        formats(w);
        lemma_pow2_unfold(53);
        let (s, x, one) = (significand(w, a.bits) as real, (e + 1074) as nat, power(1074));
        lemma_pow2_unfold(1074);
        assert(one == 2real * power(1073));
        lemma_pow2_pos(x);
        if x < 1073 {
            lemma_pow2_strictly_increases(x, 1073);
        }
        let m = magnitude(a.bits);
        assert(m <= 4503599627370496real) by (nonlinear_arith)
            requires
                m == s * power(x) / one,
                0real <= s <= 9007199254740992real,
                0real < 2real * power(x) <= one,
        ;
        wholes_are_themselves(n);
        let b = Real::nearest_to(n as int);
        assert(b.bits == nearest(w, n, false, 0) as u64) by {
            reveal(Real::nearest_to);
        }
        let c = a.round();
        assert(c.bits == signed(w, negative(w, a.bits), b.bits as int)) by {
            reveal(Real::nearest_to);
        }
        assert(unsigned(w, c.bits) == b.bits && negative(w, c.bits) == negative(w, a.bits));
        assert(units(w, c.bits) == units(w, b.bits));
    }
}

} // verus!
