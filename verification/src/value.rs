//! What numbers stand for, and how far rounding can move them.
use vstd::arithmetic::div_mod::*;
use vstd::arithmetic::power2::*;
use vstd::prelude::*;

use crate::binary::Real;
use crate::exact::{finite, formats, is_number, parts_of};
use crate::float::{
    bit_length, bit_length_bounds, common_exponent, dropped, exponent, in_units, infinity, nearest, negative, rounded, scaled,
    signed, significand, unsigned, zero, Width,
};
use crate::number::{
    BYTE_MAX, FOUR, FULL_TURN, HUNDRED, MINUS_TWO, NINE, ONE, SIX, SIXTY, TEN, THREE, TWO,
};
use crate::units::{units, units_keep_order};
use crate::wholes::{same_units, whole_number};

verus! {

/// A power of two.
pub open spec fn power(k: nat) -> real {
    pow2(k) as real
}

/// Powers of two multiply by adding what they are raised to.
pub proof fn power_adds(i: nat, j: nat)
    ensures
        power(i + j) == power(i) * power(j),
        power(i) > 0real,
        power(j) > 0real,
{
    lemma_pow2_adds(i, j);
    lemma_pow2_pos(i);
    lemma_pow2_pos(j);
    let (a, b) = (pow2(i) as int, pow2(j) as int);
    assert((a * b) as real == (a as real) * (b as real)) by (nonlinear_arith);
}

/// The size of a finite number.
pub open spec fn magnitude(a: u64) -> real {
    units(Width::Double, a) as real / power(1074)
}

/// A significand and a place make a pattern.
proof fn pattern_units(c: nat, k: nat)
    requires
        c <= pow2(53),
        k == 0 || c >= pow2(52),
        k <= 2000,
    ensures
        ({
            let v = (c + k * pow2(52)) as u64;
            &&& v == c + k * pow2(52)
            &&& finite(Width::Double, v)
            &&& !negative(Width::Double, v)
            &&& units(Width::Double, v) == c * pow2(k)
        }),
{
    let w = Width::Double;
    formats(w);
    lemma_pow2_unfold(53);
    let unit = pow2(52) as int;
    let v = c + k * unit;
    assert(0 <= v <= 2002 * unit) by (nonlinear_arith)
        requires
            v == c + k * unit,
            0 <= c <= 2 * unit,
            0 <= k <= 2000,
            unit > 0,
    ;
    if c < unit {
        assert(v == c) by (nonlinear_arith)
            requires
                v == c + k * unit,
                k == 0,
        ;
        lemma_fundamental_div_mod_converse(v as int, unit, 0, c as int);
        assert(c * pow2(0) == c);
    } else if c < 2 * unit {
        assert(v == (k + 1) * unit + (c - unit)) by (nonlinear_arith)
            requires
                v == c + k * unit,
        ;
        lemma_fundamental_div_mod_converse(v as int, unit, (k + 1) as int, c - unit);
    } else {
        assert(v == (k + 2) * unit) by (nonlinear_arith)
            requires
                v == c + k * unit,
                c == 2 * unit,
        ;
        lemma_fundamental_div_mod_converse(v as int, unit, (k + 2) as int, 0);
        lemma_pow2_adds(1, k);
        lemma2_to64();
        assert(unit * (2 * pow2(k)) == c * pow2(k)) by (nonlinear_arith)
            requires
                c == 2 * unit,
        ;
    }
}

/// Dropping `s` places moves a value by at most a half of what is left.
pub proof fn rounded_within_half(n: nat, s: nat, more: bool, y: real)
    requires
        s > 0,
        n as real <= y,
        more ==> y < (n + 1) as real,
        !more ==> y == n as real,
    ensures
        -power((s - 1) as nat) <= rounded(n, s, more) as real * power(s) - y <= power(
            (s - 1) as nat,
        ),
{
    let (q, r, g, h) = (n / pow2(s), n % pow2(s), pow2(s), pow2((s - 1) as nat));
    let c = rounded(n, s, more);
    lemma_pow2_pos(s);
    lemma_pow2_unfold(s);
    lemma_fundamental_div_mod(n as int, g as int);
    lemma_mod_bound(n as int, g as int);
    let z = c * g;
    assert(c as real * (g as real) == z as real) by (nonlinear_arith)
        requires
            z == c * g,
    ;
    assert(c == q ==> z == n - r) by (nonlinear_arith)
        requires
            z == c * g,
            n == g * q + r,
    ;
    assert(c == q + 1 ==> z == n - r + g) by (nonlinear_arith)
        requires
            z == c * g,
            n == g * q + r,
    ;
}

/// A value `y * 2^e`, in units of `2^-2148`, of which the whole part of `y` is known, and the
/// number nearest to it: they differ by at most one part in 2^53, or half a unit.
pub proof fn nearest_is_near(n: nat, more: bool, e: int, y: real)
    requires
        n > 0,
        n as real <= y,
        more ==> y < (n + 1) as real,
        !more ==> y == n as real,
        more ==> bit_length(n) > 53,
        -2148 <= e,
        bit_length(n) + e <= 900,
    ensures
        ({
            let v = nearest(Width::Double, n, more, e);
            let x = y * power((e + 2148) as nat) / power(2148);
            let a = magnitude(v as u64);
            &&& 0 <= v < infinity(Width::Double)
            &&& finite(Width::Double, v as u64)
            &&& !negative(Width::Double, v as u64)
            &&& -(x / power(53) + 1real / power(1074)) <= a - x
            &&& a - x <= x / power(53) + 1real / power(1074)
        }),
{
    let w = Width::Double;
    formats(w);
    bit_length_bounds(n);
    lemma_pow2_unfold(53);
    let b = bit_length(n);
    let s = dropped(w, n, e);
    let k = (e + s + 1074) as nat;
    let c = scaled(n, s, more);
    // The significand has at most 53 bits.
    if s > 0 {
        significand_fits(n, s as nat, more);
    } else {
        let d = (-s) as nat;
        lemma_pow2_pos(d);
        lemma_pow2_adds(b, d);
        lemma_pow2_adds((b - 1) as nat, d);
        assert(pow2((b - 1) as nat) * pow2(d) <= c < pow2(b) * pow2(d)) by (nonlinear_arith)
            requires
                c == n * pow2(d),
                pow2((b - 1) as nat) <= n < pow2(b),
                pow2(d) > 0,
        ;
        if b + d < 53 {
            lemma_pow2_strictly_increases(b + d, 53);
        }
        if b - 53 == s {
            assert(b - 1 + d == 52);
        }
    }
    pattern_units(c, k);
    let v = nearest(w, n, more, e) as u64;
    assert(v == c + k * pow2(52));
    // In units of 2^-2148.
    let (eu, x) = ((e + 2148) as nat, y * power((e + 2148) as nat) / power(2148));
    let a = magnitude(v);
    lemma_pow2_pos(1074);
    let one = power(1074);
    let ck = c * pow2(k);
    assert(ck as real == c as real * power(k)) by (nonlinear_arith)
        requires
            ck == c * pow2(k),
    ;
    power_adds(1074, 1074);
    power_adds(k, 1074);
    lemma_pow2_pos(eu);
    lemma_pow2_pos(53);
    assert(one * one > 0real) by (nonlinear_arith)
        requires
            one > 0real,
    ;
    assert(x >= 0real) by (nonlinear_arith)
        requires
            x == y * power(eu) / power(2148),
            y >= 0real,
            power(eu) > 0real,
            power(2148) > 0real,
    ;
    not_negative(x, power(53), one);
    if s > 0 {
        let t = s as nat;
        rounded_within_half(n, t, more, y);
        power_adds(t, eu);
        power_adds((t - 1) as nat, eu);
        power_adds(1, (t - 1) as nat);
        power_adds(k, 1074);
        assert(t + eu == k + 1074);
        moved_by_half(c as real, y, power(t), power((t - 1) as nat), power(eu), power(k), one);
        // Half of the last place is a 2^53rd part of the value, or half a unit.
        let half = power((t - 1) as nat) * power(eu) / (one * one);
        if b - 53 == s {
            power_adds(53, (t - 1) as nat);
            assert(power((b - 1) as nat) <= y);
            part_of_value(y, power(53), power((t - 1) as nat), power(eu), one);
        } else {
            assert(k == 0);
            power_adds((t - 1) as nat, eu);
            assert((t - 1) as nat + eu == 1073);
            power_adds(1, 1073);
            lemma2_to64();
            half_a_unit(power(1073), one);
        }
    } else {
        let d = (-s) as nat;
        power_adds(d, k + 1074);
        assert(d + k + 1074 == eu);
        power_adds(d, k);
        assert(c as real == n as real * power(d)) by (nonlinear_arith)
            requires
                c == n * pow2(d),
        ;
        met_exactly(n as real, c as real, power(d), power(k), power(eu), one);
    }
}

proof fn significand_fits(n: nat, s: nat, more: bool)
    requires
        n > 0,
        s > 0,
        bit_length(n) - 53 <= s,
    ensures
        rounded(n, s, more) <= pow2(53),
        bit_length(n) - 53 == s ==> rounded(n, s, more) >= pow2(52),
{
    formats(Width::Double);
    bit_length_bounds(n);
    lemma_pow2_unfold(53);
    let b = bit_length(n);
    let g = pow2(s);
    lemma_pow2_pos(s);
    lemma_pow2_adds(53, s);
    lemma_pow2_adds(52, s);
    if b < 53 + s {
        lemma_pow2_strictly_increases(b, 53 + s);
    }
    lemma_fundamental_div_mod(n as int, g as int);
    lemma_mod_bound(n as int, g as int);
    let q = n / g;
    assert(q < pow2(53)) by (nonlinear_arith)
        requires
            n < pow2(53) * g,
            n == g * q + n % g,
            0 <= n % g,
            g > 0,
    ;
    if b == 53 + s {
        assert(q >= pow2(52)) by (nonlinear_arith)
            requires
                n >= pow2(52) * g,
                n == g * q + n % g,
                n % g < g,
                g > 0,
        ;
    }
}

/// What half a place amounts to in units.
pub proof fn moved_by_half(c: real, y: real, ps: real, ph: real, pe: real, pk: real, one: real)
    requires
        -ph <= c * ps - y <= ph,
        ps * pe == pk * one,
        pe > 0real,
        one > 0real,
    ensures
        -(ph * pe / (one * one)) <= c * pk / one - y * pe / (one * one) <= ph * pe / (one * one),
{
    assert(c * pk / one == c * ps * pe / (one * one)) by (nonlinear_arith)
        requires
            ps * pe == pk * one,
            one > 0real,
    ;
    let u = one * one;
    assert(u > 0real) by (nonlinear_arith)
        requires
            u == one * one,
            one > 0real,
    ;
    assert(-(ph * pe / u) <= c * ps * pe / u - y * pe / u <= ph * pe / u) by (nonlinear_arith)
        requires
            -ph <= c * ps - y <= ph,
            pe > 0real,
            u > 0real,
    ;
}

/// Half of the last place is a small part of the value.
pub proof fn part_of_value(y: real, p53: real, ph: real, pe: real, one: real)
    requires
        p53 * ph <= y,
        p53 > 0real,
        pe > 0real,
        one > 0real,
    ensures
        ph * pe / (one * one) <= y * pe / (one * one) / p53,
        1real / one >= 0real,
{
    let u = one * one;
    assert(u > 0real) by (nonlinear_arith)
        requires
            u == one * one,
            one > 0real,
    ;
    assert(ph * pe / u <= y * pe / u / p53) by (nonlinear_arith)
        requires
            p53 * ph <= y,
            p53 > 0real,
            pe > 0real,
            u > 0real,
    ;
    assert(1real / one >= 0real) by (nonlinear_arith)
        requires
            one > 0real,
    ;
}

/// Half of the last place is at most a unit.
pub proof fn half_a_unit(half: real, one: real)
    requires
        2real * half == one,
        one > 0real,
    ensures
        half / (one * one) <= 1real / one,
{
    assert(half / (one * one) <= 1real / one) by (nonlinear_arith)
        requires
            2real * half == one,
            one > 0real,
    ;
}

/// A value that needs no rounding is met.
pub proof fn met_exactly(n: real, c: real, pd: real, pk: real, pe: real, one: real)
    requires
        c == n * pd,
        pe == pd * (pk * one),
        one > 0real,
    ensures
        c * pk / one == n * pe / (one * one),
{
    assert(c * pk / one == n * pe / (one * one)) by (nonlinear_arith)
        requires
            c == n * pd,
            pe == pd * (pk * one),
            one > 0real,
    ;
}

/// Quotients of what is not negative.
pub proof fn not_negative(x: real, p: real, one: real)
    requires
        x >= 0real,
        p > 0real,
        one > 0real,
    ensures
        x / p >= 0real,
        1real / one >= 0real,
{
    assert(x / p >= 0real && 1real / one >= 0real) by (nonlinear_arith)
        requires
            x >= 0real,
            p > 0real,
            one > 0real,
    ;
}

/// What a finite number stands for.
pub open spec fn value(v: Real) -> real {
    if negative(Width::Double, v.bits) {
        -magnitude(v.bits)
    } else {
        magnitude(v.bits)
    }
}

/// A finite number that is not large.
pub open spec fn modest(v: Real) -> bool {
    is_number(v) && -power(60) <= value(v) <= power(60)
}

/// The size of a number.
pub open spec fn size(x: real) -> real {
    if x < 0real {
        -x
    } else {
        x
    }
}

/// How far rounding can move a value.
pub open spec fn slack(x: real) -> real {
    size(x) / power(53) + 1real / power(1074)
}

/// A number is what a value is rounded to.
pub open spec fn rounds(v: Real, x: real) -> bool {
    is_number(v) && -slack(x) <= value(v) - x <= slack(x)
}

/// The value of a number by its significand and its exponent.
pub proof fn magnitude_by_parts(a: u64)
    requires
        finite(Width::Double, a),
    ensures
        ({
            let x = (exponent(Width::Double, a) + 1074) as nat;
            let s = significand(Width::Double, a);
            &&& exponent(Width::Double, a) >= -1074
            &&& magnitude(a) == s as real * power(x) / power(1074)
            &&& units(Width::Double, a) as real == s as real * power(x)
            &&& magnitude(a) >= 0real
            &&& s == 0 <==> zero(Width::Double, a)
            &&& magnitude(a) * power(1074) == units(Width::Double, a) as real
        }),
{
    let w = Width::Double;
    parts_of(w, a);
    let x = (exponent(w, a) + 1074) as nat;
    let s = significand(w, a);
    let u = s * pow2(x);
    assert(u as real == s as real * power(x)) by (nonlinear_arith)
        requires
            u == s * pow2(x),
    ;
    lemma_pow2_pos(1074);
    let (r, o) = (u as real, power(1074));
    assert(r / o >= 0real && r / o * o == r) by (nonlinear_arith)
        requires
            r >= 0real,
            o > 0real,
    ;
}

/// The number of bits of what is not large.
pub proof fn modest_length(n: nat, e: int, bound: nat)
    requires
        n > 0,
        e >= -2148,
        n as real * power((e + 2148) as nat) <= power(bound + 2148),
    ensures
        bit_length(n) + e <= bound + 1,
{
    bit_length_bounds(n);
    let b = bit_length(n);
    let (i, j) = ((b - 1) as nat, (e + 2148) as nat);
    if b + e > bound + 1 {
        power_adds(i, j);
        lemma_pow2_strictly_increases(bound + 2148, i + j);
        assert(power(i) * power(j) <= n as real * power(j)) by (nonlinear_arith)
            requires
                power(i) <= n as real,
                power(j) > 0real,
        ;
    }
}

/// A signed pattern of what rounds to a size rounds to the value.
pub proof fn signed_rounds(minus: bool, m: int, x: real)
    requires
        0 <= m < infinity(Width::Double),
        x >= 0real,
        -slack(x) <= magnitude(m as u64) - x <= slack(x),
    ensures
        rounds(
            Real { bits: signed(Width::Double, minus, m) },
            if minus {
                -x
            } else {
                x
            },
        ),
        negative(Width::Double, signed(Width::Double, minus, m)) == minus,
{
    let w = Width::Double;
    let v = signed(w, minus, m);
    assert(unsigned(w, v) == m && negative(w, v) == minus);
    assert(units(w, v) == units(w, m as u64));
}

/// The product of numbers that are not large.
pub proof fn product_rounds(a: Real, b: Real)
    requires
        modest(a),
        modest(b),
    ensures
        rounds(a.times(b), value(a) * value(b)),
        negative(Width::Double, a.times(b).bits) == (negative(Width::Double, a.bits) != negative(
            Width::Double,
            b.bits,
        )),
{
    let w = Width::Double;
    reveal(Real::spec_times);
    magnitude_by_parts(a.bits);
    magnitude_by_parts(b.bits);
    let (s, t) = (significand(w, a.bits), significand(w, b.bits));
    let (x, y) = ((exponent(w, a.bits) + 1074) as nat, (exponent(w, b.bits) + 1074) as nat);
    let (e, n) = (exponent(w, a.bits) + exponent(w, b.bits), s * t);
    let (p, q) = (magnitude(a.bits), magnitude(b.bits));
    let one = power(1074);
    power_adds(x, y);
    power_adds(1074, 1074);
    power_adds(60, 60);
    power_adds(120, 2148);
    lemma_pow2_pos(53);
    assert(n as real == s as real * t as real) by (nonlinear_arith)
        requires
            n == s * t,
    ;
    let exact = n as real * power(x + y) / power(2148);
    assert(exact == p * q) by (nonlinear_arith)
        requires
            p == s as real * power(x) / one,
            q == t as real * power(y) / one,
            n as real == s as real * t as real,
            power(x + y) == power(x) * power(y),
            power(2148) == one * one,
            exact == n as real * power(x + y) / power(2148),
            one > 0real,
    ;
    let minus = negative(w, a.bits) != negative(w, b.bits);
    assert(value(a) * value(b) == if minus {
        -(p * q)
    } else {
        p * q
    }) by (nonlinear_arith)
        requires
            value(a) == if negative(w, a.bits) {
                -p
            } else {
                p
            },
            value(b) == if negative(w, b.bits) {
                -q
            } else {
                q
            },
            minus == (negative(w, a.bits) != negative(w, b.bits)),
    ;
    assert(0real <= p * q <= power(120)) by (nonlinear_arith)
        requires
            0real <= p <= power(60),
            0real <= q <= power(60),
            power(120) == power(60) * power(60),
    ;
    if n > 0 {
        assert(n as real * power(x + y) <= power(120 + 2148)) by (nonlinear_arith)
            requires
                exact == n as real * power(x + y) / power(2148),
                exact <= power(120),
                power(120 + 2148) == power(120) * power(2148),
                power(2148) > 0real,
        ;
        modest_length(n, e, 120);
        nearest_is_near(n, false, e, n as real);
        signed_rounds(minus, nearest(w, n, false, e), exact);
    } else {
        assert(exact == 0real) by (nonlinear_arith)
            requires
                exact == n as real * power(x + y) / power(2148),
                n as real == 0real,
                power(2148) > 0real,
        ;
        magnitude_by_parts(0);
        not_negative(0real, power(53), one);
        zero_is_zero();
        signed_rounds(minus, 0, 0real);
    }
}

/// Zero stands for zero.
pub proof fn zero_is_zero()
    ensures
        magnitude(0) == 0real,
{
    magnitude_by_parts(0);
    formats(Width::Double);
    let (z, o) = (power((exponent(Width::Double, 0) + 1074) as nat), power(1074));
    lemma_pow2_pos(1074);
    assert(0real * z / o == 0real) by (nonlinear_arith)
        requires
            o > 0real,
    ;
}

/// The sum of numbers that are not large.
pub proof fn sum_rounds(a: Real, b: Real)
    requires
        modest(a),
        modest(b),
    ensures
        rounds(a.plus(b), value(a) + value(b)),
        !negative(Width::Double, a.bits) && !negative(Width::Double, b.bits) ==> !negative(
            Width::Double,
            a.plus(b).bits,
        ),
{
    let w = Width::Double;
    reveal(Real::spec_plus);
    magnitude_by_parts(a.bits);
    magnitude_by_parts(b.bits);
    let e = common_exponent(w, a.bits, b.bits);
    let k = (e + 1074) as nat;
    let (i, j) = (in_units(w, a.bits, e), in_units(w, b.bits, e));
    in_units_is(a, e);
    in_units_is(b, e);
    let n = i + j;
    let one = power(1074);
    let exact = value(a) + value(b);
    power_adds(1074, 1074);
    power_adds(k, 1074);
    power_adds(1, 60);
    power_adds(61, 2148);
    lemma2_to64();
    assert(n as real * power(k) / one == exact) by (nonlinear_arith)
        requires
            n as real == i as real + j as real,
            i as real * power(k) / one == value(a),
            j as real * power(k) / one == value(b),
            exact == value(a) + value(b),
            one > 0real,
    ;
    let minus = negative(w, a.bits) && negative(w, b.bits);
    lemma_pow2_pos(53);
    not_negative(0real, power(53), one);
    lemma_pow2_unfold(61);
    if n == 0 {
        assert(exact == 0real) by (nonlinear_arith)
            requires
                n as real * power(k) / one == exact,
                n as real == 0real,
                one > 0real,
        ;
        zero_is_zero();
        signed_rounds(minus, 0, 0real);
    } else {
        let m = if n < 0 {
            (-n) as nat
        } else {
            n as nat
        };
        let x = size(exact);
        assert(m as real * power(k + 1074) / power(2148) == x) by (nonlinear_arith)
            requires
                n as real * power(k) / one == exact,
                m as real == n as real && n as real >= 0real || m as real == -(n as real)
                    && n as real <= 0real,
                x == exact && exact >= 0real || x == -exact && exact <= 0real,
                power(k + 1074) == power(k) * one,
                power(2148) == one * one,
                power(k) > 0real,
                one > 0real,
        ;
        assert(m as real * power(k + 1074) <= power(61 + 2148)) by (nonlinear_arith)
            requires
                m as real * power(k + 1074) / power(2148) == x,
                x <= power(61),
                power(61 + 2148) == power(61) * power(2148),
                power(2148) > 0real,
        ;
        modest_length(m, e, 61);
        nearest_is_near(m, false, e, m as real);
        assert((n < 0) == (exact < 0real)) by (nonlinear_arith)
            requires
                n as real * power(k) / one == exact,
                n != 0,
                power(k) > 0real,
                one > 0real,
        ;
        signed_rounds(n < 0, nearest(w, m, false, e), x);
    }
}

/// A number in units of a smaller exponent has its value.
pub proof fn in_units_is(a: Real, e: int)
    requires
        is_number(a),
        -1074 <= e <= exponent(Width::Double, a.bits),
    ensures
        in_units(Width::Double, a.bits, e) as real * power((e + 1074) as nat) / power(1074) == value(
            a,
        ),
{
    let w = Width::Double;
    magnitude_by_parts(a.bits);
    let d = (exponent(w, a.bits) - e) as nat;
    let (k, x) = ((e + 1074) as nat, (exponent(w, a.bits) + 1074) as nat);
    let s = significand(w, a.bits);
    let n = s * pow2(d);
    assert(n as real == s as real * power(d)) by (nonlinear_arith)
        requires
            n == s * pow2(d),
    ;
    power_adds(d, k);
    let one = power(1074);
    lemma_pow2_pos(1074);
    assert(n as real * power(k) / one == s as real * power(x) / one) by (nonlinear_arith)
        requires
            n as real == s as real * power(d),
            power(x) == power(d) * power(k),
            one > 0real,
    ;
    let r = n as real;
    assert((-r) * power(k) / one == -(r * power(k) / one)) by (nonlinear_arith)
        requires
            one > 0real,
    ;
}

/// The difference of numbers that are not large.
pub proof fn difference_rounds(a: Real, b: Real)
    requires
        modest(a),
        modest(b),
    ensures
        rounds(a.minus(b), value(a) - value(b)),
{
    let w = Width::Double;
    reveal(Real::spec_negated);
    let c = b.negated();
    assert(unsigned(w, c.bits) == unsigned(w, b.bits));
    assert(negative(w, c.bits) != negative(w, b.bits));
    assert(units(w, c.bits) == units(w, b.bits));
    sum_rounds(a, c);
}

/// The quotient of a number and another that is not tiny.
pub proof fn quotient_rounds(a: Real, b: Real)
    requires
        modest(a),
        modest(b),
        size(value(b)) * power(60) >= 1real,
    ensures
        rounds(a.over(b), value(a) / value(b)),
        negative(Width::Double, a.over(b).bits) == (negative(Width::Double, a.bits) != negative(
            Width::Double,
            b.bits,
        )),
{
    let w = Width::Double;
    reveal(Real::spec_over);
    magnitude_by_parts(a.bits);
    magnitude_by_parts(b.bits);
    let (s, t) = (significand(w, a.bits), significand(w, b.bits));
    let (x, y) = ((exponent(w, a.bits) + 1074) as nat, (exponent(w, b.bits) + 1074) as nat);
    let e = exponent(w, a.bits) - exponent(w, b.bits) - 128;
    let (p, q) = (magnitude(a.bits), magnitude(b.bits));
    let one = power(1074);
    lemma_pow2_pos(1074);
    lemma_pow2_pos(60);
    lemma_pow2_pos(53);
    not_negative(0real, power(53), one);
    assert(q > 0real) by (nonlinear_arith)
        requires
            q * power(60) >= 1real,
            power(60) > 0real,
    ;
    if t == 0 {
        assert(0real * power(y) / one == 0real) by (nonlinear_arith)
            requires
                one > 0real,
        ;
    }
    let minus = negative(w, a.bits) != negative(w, b.bits);
    let exact = p / q;
    assert(value(a) / value(b) == if minus {
        -exact
    } else {
        exact
    }) by (nonlinear_arith)
        requires
            value(a) == if negative(w, a.bits) {
                -p
            } else {
                p
            },
            value(b) == if negative(w, b.bits) {
                -q
            } else {
                q
            },
            minus == (negative(w, a.bits) != negative(w, b.bits)),
            exact == p / q,
            q > 0real,
    ;
    let c = s * pow2(128);
    if s == 0 {
        assert(0 * pow2(128) == 0) by (nonlinear_arith);
        lemma_basic_div(0, t as int);
        lemma_small_mod(0, t);
        assert(p == 0real && exact == 0real) by (nonlinear_arith)
            requires
                p == 0real * power(x) / one,
                exact == p / q,
                q > 0real,
                one > 0real,
        ;
        zero_is_zero();
        signed_rounds(minus, 0, 0real);
    } else {
        lemma_fundamental_div_mod(c as int, t as int);
        lemma_mod_bound(c as int, t as int);
        let (n, r) = (c / t, c % t);
        let (cr, tr, nr, rr) = (c as real, t as real, n as real, r as real);
        let z = cr / tr;
        let nt = t * n;
        assert(nt as real == tr * nr) by (nonlinear_arith)
            requires
                nt == t * n,
                tr == t as real,
                nr == n as real,
        ;
        assert(nr <= z && z < nr + 1real && (rr == 0real ==> z == nr)) by (nonlinear_arith)
            requires
                cr == tr * nr + rr,
                0real <= rr < tr,
                z == cr / tr,
        ;
        formats(w);
        lemma_pow2_unfold(53);
        parts_of(w, a.bits);
        parts_of(w, b.bits);
        quotient_is_long(s, t);
        range_of_exponent(b);
        let k = (e + 2148) as nat;
        power_adds(128, k);
        power_adds(128 + k, y);
        power_adds(x, 2148);
        power_adds(1074, 1074);
        assert(128 + k + y == x + 2148);
        assert(cr == s as real * power(128)) by (nonlinear_arith)
            requires
                c == s * pow2(128),
                cr == c as real,
        ;
        assert(z * power(k) / power(2148) == exact) by (nonlinear_arith)
            requires
                z == cr / tr,
                cr == s as real * power(128),
                power(128) * power(k) * power(y) == power(x) * power(2148),
                p == s as real * power(x) / one,
                q == tr * power(y) / one,
                exact == p / q,
                tr > 0real,
                power(y) > 0real,
                power(2148) > 0real,
                one > 0real,
        ;
        power_adds(60, 60);
        power_adds(120, 2148);
        assert(exact <= power(120)) by (nonlinear_arith)
            requires
                exact == p / q,
                0real <= p <= power(60),
                q * power(60) >= 1real,
                q > 0real,
                power(120) == power(60) * power(60),
                power(60) > 0real,
        ;
        assert(exact >= 0real) by (nonlinear_arith)
            requires
                exact == p / q,
                p >= 0real,
                q > 0real,
        ;
        assert(nr * power(k) <= power(120 + 2148)) by (nonlinear_arith)
            requires
                nr <= z,
                z * power(k) / power(2148) == exact,
                exact <= power(120),
                power(120 + 2148) == power(120) * power(2148),
                power(2148) > 0real,
                power(k) > 0real,
        ;
        modest_length(n, e, 120);
        nearest_is_near(n, r != 0, e, z);
        signed_rounds(minus, nearest(w, n, r != 0, e), exact);
    }
}

/// A quotient of significands, moved up far, is long.
pub proof fn quotient_is_long(s: nat, t: nat)
    requires
        s > 0,
        0 < t < pow2(53),
    ensures
        s * pow2(128) / t > 0,
        s * pow2(128) / t >= pow2(75),
        bit_length(s * pow2(128) / t) > 53,
{
    let c = s * pow2(128);
    lemma_fundamental_div_mod(c as int, t as int);
    lemma_mod_bound(c as int, t as int);
    let n = c / t;
    lemma_pow2_adds(53, 75);
    lemma_pow2_pos(75);
    assert(n >= pow2(75)) by (nonlinear_arith)
        requires
            c == s * pow2(128),
            pow2(128) == pow2(53) * pow2(75),
            s >= 1,
            t < pow2(53),
            c < t * n + t,
            t > 0,
            pow2(75) > 0,
    {
        assert(c >= pow2(53) * pow2(75));
        assert(t * (n + 1) > t * pow2(75));
    }
    bit_length_bounds(n);
    if bit_length(n) <= 53 {
        lemma_pow2_strictly_increases(bit_length(n), 75);
    }
}

/// The exponent of a number that is not large.
pub proof fn range_of_exponent(b: Real)
    requires
        modest(b),
    ensures
        exponent(Width::Double, b.bits) <= 61,
{
    let w = Width::Double;
    magnitude_by_parts(b.bits);
    formats(w);
    parts_of(w, b.bits);
    let x = (exponent(w, b.bits) + 1074) as nat;
    if exponent(w, b.bits) > 61 {
        let (s, one) = (significand(w, b.bits), power(1074));
        power_adds(60, 1074);
        lemma_pow2_strictly_increases(1134, x);
        assert(s as real * power(x) / one > power(60)) by (nonlinear_arith)
            requires
                s as real >= 1real,
                power(x) > power(1134),
                power(1134) == power(60) * one,
                one > 0real,
        ;
    }
}

/// A whole number stands for itself.
pub proof fn wholes_are_themselves(n: nat)
    requires
        n < 0x20_0000_0000_0000,
    ensures
        is_number(Real::nearest_to(n as int)),
        !negative(Width::Double, Real::nearest_to(n as int).bits),
        value(Real::nearest_to(n as int)) == n as real,
{
    reveal(Real::nearest_to);
    if n == 0 {
        zero_is_zero();
    } else {
        whole_number(n);
        lemma_pow2_pos(1074);
        let u = n * pow2(1074);
        let (r, one) = (n as real, power(1074));
        assert(u as real == r * one) by (nonlinear_arith)
            requires
                u == n * pow2(1074),
                r == n as real,
                one == pow2(1074) as real,
        ;
        assert(r * one / one == r) by (nonlinear_arith)
            requires
                one > 0real,
        ;
    }
}

/// The values of some numbers.
pub proof fn some_values()
    ensures
        is_number(Real { bits: ONE }) && value(Real { bits: ONE }) == 1real,
        is_number(Real { bits: TWO }) && value(Real { bits: TWO }) == 2real,
        is_number(Real { bits: THREE }) && value(Real { bits: THREE }) == 3real,
        is_number(Real { bits: NINE }) && value(Real { bits: NINE }) == 9real,
        is_number(Real { bits: MINUS_TWO }) && value(Real { bits: MINUS_TWO }) == -2real,
{
    let w = Width::Double;
    formats(w);
    lemma2_to64();
    lemma2_to64_rest();
    literal(ONE, 1, 52);
    literal(TWO, 2, 51);
    literal(THREE, 3, 51);
    literal(NINE, 9, 49);
    assert(units(w, MINUS_TWO) == units(w, TWO));
}

/// The values of the numbers of the colour wheel.
pub proof fn wheel_values()
    ensures
        is_number(Real { bits: FOUR }) && value(Real { bits: FOUR }) == 4real,
        is_number(Real { bits: SIX }) && value(Real { bits: SIX }) == 6real,
        is_number(Real { bits: SIXTY }) && value(Real { bits: SIXTY }) == 60real,
        is_number(Real { bits: FULL_TURN }) && value(Real { bits: FULL_TURN }) == 360real,
        is_number(Real { bits: BYTE_MAX }) && value(Real { bits: BYTE_MAX }) == 255real,
{
    formats(Width::Double);
    lemma2_to64();
    lemma2_to64_rest();
    literal(FOUR, 4, 50);
    literal(SIX, 6, 50);
    literal(SIXTY, 60, 47);
    literal(FULL_TURN, 360, 44);
    literal(BYTE_MAX, 255, 45);
}

/// The values of the numbers that make a percentage a share.
pub proof fn share_values()
    ensures
        is_number(Real { bits: TEN }) && value(Real { bits: TEN }) == 10real,
        is_number(Real { bits: HUNDRED }) && value(Real { bits: HUNDRED }) == 100real,
{
    formats(Width::Double);
    lemma2_to64();
    lemma2_to64_rest();
    literal(TEN, 10, 49);
    literal(HUNDRED, 100, 46);
}

proof fn literal(bits: u64, n: nat, k: nat)
    requires
        finite(Width::Double, bits),
        !negative(Width::Double, bits),
        significand(Width::Double, bits) == n * pow2(k),
        exponent(Width::Double, bits) == -k,
        k <= 60,
    ensures
        value(Real { bits }) == n as real,
{
    magnitude_by_parts(bits);
    let x = (1074 - k) as nat;
    power_adds(k, x);
    lemma_pow2_pos(1074);
    let (m, r, one) = (n * pow2(k), n as real, power(1074));
    assert(m as real == r * power(k)) by (nonlinear_arith)
        requires
            m == n * pow2(k),
            r == n as real,
    ;
    assert(m as real * power(x) / one == r) by (nonlinear_arith)
        requires
            m as real == r * power(k),
            one == power(k) * power(x),
            one > 0real,
    ;
}

/// Numbers that are not negative are in the order of their values.
pub proof fn order_is_by_value(a: Real, b: Real)
    requires
        is_number(a) && !negative(Width::Double, a.bits),
        is_number(b) && !negative(Width::Double, b.bits),
    ensures
        a.below(b) <==> value(a) < value(b),
        value(a) >= 0real,
{
    let w = Width::Double;
    magnitude_by_parts(a.bits);
    magnitude_by_parts(b.bits);
    let (p, q, one) = (units(w, a.bits) as real, units(w, b.bits) as real, power(1074));
    lemma_pow2_pos(1074);
    assert(p / one < q / one <==> p < q) by (nonlinear_arith)
        requires
            one > 0real,
    ;
    if a.bits < b.bits {
        units_keep_order(w, a.bits, b.bits);
        if units(w, a.bits) == units(w, b.bits) {
            same_units(a.bits, b.bits);
        }
    } else {
        units_keep_order(w, b.bits, a.bits);
    }
}

} // verus!
