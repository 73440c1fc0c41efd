//! What binary32 numbers stand for, and how far rounding can move them.
use vstd::arithmetic::div_mod::*;
use vstd::arithmetic::power2::*;
use vstd::prelude::*;

use crate::binary::Real32;
use crate::exact::{finite, formats, parts_of};
use crate::float::{
    bit_length, bit_length_bounds, common_exponent, dropped, exponent, in_units, infinity, nearest,
    negative, rounded, scaled, signed, significand, unsigned, zero, Width,
};
use crate::units::{exact_units, nearest_in_units, pattern_of_units, units, units_keep_order};
use crate::value::{
    half_a_unit, met_exactly, moved_by_half, not_negative, part_of_value, power, power_adds,
    rounded_within_half, size,
};

verus! {

/// The size of a finite number.
pub open spec fn magnitude(a: u64) -> real {
    units(Width::Single, a) as real / power(149)
}

/// A significand and a place make a pattern.
proof fn pattern_units(c: nat, k: nat)
    requires
        c <= pow2(24),
        k == 0 || c >= pow2(23),
        k <= 240,
    ensures
        ({
            let v = (c + k * pow2(23)) as u64;
            &&& v == c + k * pow2(23)
            &&& finite(Width::Single, v)
            &&& !negative(Width::Single, v)
            &&& units(Width::Single, v) == c * pow2(k)
        }),
{
    let w = Width::Single;
    formats(w);
    lemma_pow2_unfold(24);
    let unit = pow2(23) as int;
    let v = c + k * unit;
    assert(0 <= v <= 242 * unit) by (nonlinear_arith)
        requires
            v == c + k * unit,
            0 <= c <= 2 * unit,
            0 <= k <= 240,
            unit > 0,
    ;
    if c < unit {
        assert(v == c) by (nonlinear_arith)
            requires
                v == c + k * unit,
                k == 0,
        ;
        lemma_fundamental_div_mod_converse(v as int, unit, 0, c as int);
        assert(c * pow2(0) == c);
    } else if c < 2 * unit {
        assert(v == (k + 1) * unit + (c - unit)) by (nonlinear_arith)
            requires
                v == c + k * unit,
        ;
        lemma_fundamental_div_mod_converse(v as int, unit, (k + 1) as int, c - unit);
    } else {
        assert(v == (k + 2) * unit) by (nonlinear_arith)
            requires
                v == c + k * unit,
                c == 2 * unit,
        ;
        lemma_fundamental_div_mod_converse(v as int, unit, (k + 2) as int, 0);
        lemma_pow2_adds(1, k);
        lemma2_to64();
        assert(unit * (2 * pow2(k)) == c * pow2(k)) by (nonlinear_arith)
            requires
                c == 2 * unit,
        ;
    }
}

/// A value `y * 2^e`, in units of `2^-298`, of which the whole part of `y` is known, and the
/// number nearest to it: they differ by at most one part in 2^24, or half a unit.
pub proof fn nearest_is_near(n: nat, more: bool, e: int, y: real)
    requires
        n > 0,
        n as real <= y,
        more ==> y < (n + 1) as real,
        !more ==> y == n as real,
        more ==> bit_length(n) > 24,
        -298 <= e,
        bit_length(n) + e <= 100,
    ensures
        ({
            let v = nearest(Width::Single, n, more, e);
            let x = y * power((e + 298) as nat) / power(298);
            let a = magnitude(v as u64);
            &&& 0 <= v < infinity(Width::Single)
            &&& finite(Width::Single, v as u64)
            &&& !negative(Width::Single, v as u64)
            &&& -(x / power(24) + 1real / power(149)) <= a - x
            &&& a - x <= x / power(24) + 1real / power(149)
        }),
{
    let w = Width::Single;
    formats(w);
    bit_length_bounds(n);
    lemma_pow2_unfold(24);
    let b = bit_length(n);
    let s = dropped(w, n, e);
    let k = (e + s + 149) as nat;
    let c = scaled(n, s, more);
    // The significand has at most 24 bits.
    if s > 0 {
        significand_fits(n, s as nat, more);
    } else {
        let d = (-s) as nat;
        lemma_pow2_pos(d);
        lemma_pow2_adds(b, d);
        lemma_pow2_adds((b - 1) as nat, d);
        assert(pow2((b - 1) as nat) * pow2(d) <= c < pow2(b) * pow2(d)) by (nonlinear_arith)
            requires
                c == n * pow2(d),
                pow2((b - 1) as nat) <= n < pow2(b),
                pow2(d) > 0,
        ;
        if b + d < 24 {
            lemma_pow2_strictly_increases(b + d, 24);
        }
        if b - 24 == s {
            assert(b - 1 + d == 23);
        }
    }
    pattern_units(c, k);
    let v = nearest(w, n, more, e) as u64;
    assert(v == c + k * pow2(23));
    // In units of 2^-298.
    let (eu, x) = ((e + 298) as nat, y * power((e + 298) as nat) / power(298));
    let a = magnitude(v);
    lemma_pow2_pos(149);
    let one = power(149);
    let ck = c * pow2(k);
    assert(ck as real == c as real * power(k)) by (nonlinear_arith)
        requires
            ck == c * pow2(k),
    ;
    power_adds(149, 149);
    power_adds(k, 149);
    lemma_pow2_pos(eu);
    lemma_pow2_pos(24);
    assert(one * one > 0real) by (nonlinear_arith)
        requires
            one > 0real,
    ;
    assert(x >= 0real) by (nonlinear_arith)
        requires
            x == y * power(eu) / power(298),
            y >= 0real,
            power(eu) > 0real,
            power(298) > 0real,
    ;
    not_negative(x, power(24), one);
    if s > 0 {
        let t = s as nat;
        rounded_within_half(n, t, more, y);
        power_adds(t, eu);
        power_adds((t - 1) as nat, eu);
        power_adds(1, (t - 1) as nat);
        power_adds(k, 149);
        assert(t + eu == k + 149);
        moved_by_half(c as real, y, power(t), power((t - 1) as nat), power(eu), power(k), one);
        // Half of the last place is a 2^24rd part of the value, or half a unit.
        let half = power((t - 1) as nat) * power(eu) / (one * one);
        if b - 24 == s {
            power_adds(24, (t - 1) as nat);
            assert(power((b - 1) as nat) <= y);
            part_of_value(y, power(24), power((t - 1) as nat), power(eu), one);
        } else {
            assert(k == 0);
            power_adds((t - 1) as nat, eu);
            assert((t - 1) as nat + eu == 148);
            power_adds(1, 148);
            lemma2_to64();
            half_a_unit(power(148), one);
        }
    } else {
        let d = (-s) as nat;
        power_adds(d, k + 149);
        assert(d + k + 149 == eu);
        power_adds(d, k);
        assert(c as real == n as real * power(d)) by (nonlinear_arith)
            requires
                c == n * pow2(d),
        ;
        met_exactly(n as real, c as real, power(d), power(k), power(eu), one);
    }
}

proof fn significand_fits(n: nat, s: nat, more: bool)
    requires
        n > 0,
        s > 0,
        bit_length(n) - 24 <= s,
    ensures
        rounded(n, s, more) <= pow2(24),
        bit_length(n) - 24 == s ==> rounded(n, s, more) >= pow2(23),
{
    formats(Width::Single);
    bit_length_bounds(n);
    lemma_pow2_unfold(24);
    let b = bit_length(n);
    let g = pow2(s);
    lemma_pow2_pos(s);
    lemma_pow2_adds(24, s);
    lemma_pow2_adds(23, s);
    if b < 24 + s {
        lemma_pow2_strictly_increases(b, 24 + s);
    }
    lemma_fundamental_div_mod(n as int, g as int);
    lemma_mod_bound(n as int, g as int);
    let q = n / g;
    assert(q < pow2(24)) by (nonlinear_arith)
        requires
            n < pow2(24) * g,
            n == g * q + n % g,
            0 <= n % g,
            g > 0,
    ;
    if b == 24 + s {
        assert(q >= pow2(23)) by (nonlinear_arith)
            requires
                n >= pow2(23) * g,
                n == g * q + n % g,
                n % g < g,
                g > 0,
        ;
    }
}

/// A binary32 number is neither infinite nor a NaN.
pub open spec fn is_number(v: Real32) -> bool {
    finite(Width::Single, v.bits as u64)
}

/// What a finite number stands for.
pub open spec fn value(v: Real32) -> real {
    if negative(Width::Single, v.bits as u64) {
        -magnitude(v.bits as u64)
    } else {
        magnitude(v.bits as u64)
    }
}

/// A finite number that is not large.
pub open spec fn modest(v: Real32) -> bool {
    is_number(v) && -power(20) <= value(v) <= power(20)
}

/// How far rounding can move a value.
pub open spec fn slack(x: real) -> real {
    size(x) / power(24) + 1real / power(149)
}

/// A number is what a value is rounded to.
pub open spec fn rounds(v: Real32, x: real) -> bool {
    is_number(v) && -slack(x) <= value(v) - x <= slack(x)
}

/// The value of a number by its significand and its exponent.
pub proof fn magnitude_by_parts(a: u64)
    requires
        finite(Width::Single, a),
    ensures
        ({
            let x = (exponent(Width::Single, a) + 149) as nat;
            let s = significand(Width::Single, a);
            &&& exponent(Width::Single, a) >= -149
            &&& magnitude(a) == s as real * power(x) / power(149)
            &&& units(Width::Single, a) as real == s as real * power(x)
            &&& magnitude(a) >= 0real
            &&& s == 0 <==> zero(Width::Single, a)
            &&& magnitude(a) * power(149) == units(Width::Single, a) as real
        }),
{
    let w = Width::Single;
    parts_of(w, a);
    let x = (exponent(w, a) + 149) as nat;
    let s = significand(w, a);
    let u = s * pow2(x);
    assert(u as real == s as real * power(x)) by (nonlinear_arith)
        requires
            u == s * pow2(x),
    ;
    lemma_pow2_pos(149);
    let (r, o) = (u as real, power(149));
    assert(r / o >= 0real && r / o * o == r) by (nonlinear_arith)
        requires
            r >= 0real,
            o > 0real,
    ;
}

/// The number of bits of what is not large.
pub proof fn modest_length(n: nat, e: int, bound: nat)
    requires
        n > 0,
        e >= -298,
        n as real * power((e + 298) as nat) <= power(bound + 298),
    ensures
        bit_length(n) + e <= bound + 1,
{
    bit_length_bounds(n);
    let b = bit_length(n);
    let (i, j) = ((b - 1) as nat, (e + 298) as nat);
    if b + e > bound + 1 {
        power_adds(i, j);
        lemma_pow2_strictly_increases(bound + 298, i + j);
        assert(power(i) * power(j) <= n as real * power(j)) by (nonlinear_arith)
            requires
                power(i) <= n as real,
                power(j) > 0real,
        ;
    }
}

/// A signed pattern of what rounds to a size rounds to the value.
pub proof fn signed_rounds(minus: bool, m: int, x: real)
    requires
        0 <= m < infinity(Width::Single),
        x >= 0real,
        -slack(x) <= magnitude(m as u64) - x <= slack(x),
    ensures
        rounds(
            Real32 { bits: signed(Width::Single, minus, m) as u32 },
            if minus {
                -x
            } else {
                x
            },
        ),
        negative(Width::Single, signed(Width::Single, minus, m)) == minus,
{
    let w = Width::Single;
    let v = signed(w, minus, m);
    formats(w);
    assert(v < 0x1_0000_0000);
    assert((v as u32) as u64 == v);
    assert(unsigned(w, v) == m && negative(w, v) == minus);
    assert(units(w, v) == units(w, m as u64));
}

/// The product of numbers that are not large.
pub proof fn product_rounds(a: Real32, b: Real32)
    requires
        modest(a),
        modest(b),
    ensures
        rounds(a.times(b), value(a) * value(b)),
        negative(Width::Single, a.times(b).bits as u64) == (negative(Width::Single, a.bits as u64) != negative(
            Width::Single,
            b.bits as u64,
        )),
{
    let w = Width::Single;
    reveal(Real32::spec_times);
    magnitude_by_parts(a.bits as u64);
    magnitude_by_parts(b.bits as u64);
    let (s, t) = (significand(w, a.bits as u64), significand(w, b.bits as u64));
    let (x, y) = ((exponent(w, a.bits as u64) + 149) as nat, (exponent(w, b.bits as u64) + 149) as nat);
    let (e, n) = (exponent(w, a.bits as u64) + exponent(w, b.bits as u64), s * t);
    let (p, q) = (magnitude(a.bits as u64), magnitude(b.bits as u64));
    let one = power(149);
    power_adds(x, y);
    power_adds(149, 149);
    power_adds(20, 20);
    power_adds(40, 298);
    lemma_pow2_pos(24);
    assert(n as real == s as real * t as real) by (nonlinear_arith)
        requires
            n == s * t,
    ;
    let exact = n as real * power(x + y) / power(298);
    assert(exact == p * q) by (nonlinear_arith)
        requires
            p == s as real * power(x) / one,
            q == t as real * power(y) / one,
            n as real == s as real * t as real,
            power(x + y) == power(x) * power(y),
            power(298) == one * one,
            exact == n as real * power(x + y) / power(298),
            one > 0real,
    ;
    let minus = negative(w, a.bits as u64) != negative(w, b.bits as u64);
    assert(value(a) * value(b) == if minus {
        -(p * q)
    } else {
        p * q
    }) by (nonlinear_arith)
        requires
            value(a) == if negative(w, a.bits as u64) {
                -p
            } else {
                p
            },
            value(b) == if negative(w, b.bits as u64) {
                -q
            } else {
                q
            },
            minus == (negative(w, a.bits as u64) != negative(w, b.bits as u64)),
    ;
    assert(0real <= p * q <= power(40)) by (nonlinear_arith)
        requires
            0real <= p <= power(20),
            0real <= q <= power(20),
            power(40) == power(20) * power(20),
    ;
    if n > 0 {
        assert(n as real * power(x + y) <= power(40 + 298)) by (nonlinear_arith)
            requires
                exact == n as real * power(x + y) / power(298),
                exact <= power(40),
                power(40 + 298) == power(40) * power(298),
                power(298) > 0real,
        ;
        modest_length(n, e, 40);
        nearest_is_near(n, false, e, n as real);
        signed_rounds(minus, nearest(w, n, false, e), exact);
    } else {
        assert(exact == 0real) by (nonlinear_arith)
            requires
                exact == n as real * power(x + y) / power(298),
                n as real == 0real,
                power(298) > 0real,
        ;
        magnitude_by_parts(0);
        not_negative(0real, power(24), one);
        zero_is_zero();
        signed_rounds(minus, 0, 0real);
    }
}

/// Zero stands for zero.
pub proof fn zero_is_zero()
    ensures
        magnitude(0) == 0real,
{
    magnitude_by_parts(0);
    formats(Width::Single);
    let (z, o) = (power((exponent(Width::Single, 0) + 149) as nat), power(149));
    lemma_pow2_pos(149);
    assert(0real * z / o == 0real) by (nonlinear_arith)
        requires
            o > 0real,
    ;
}

/// The sum of numbers that are not large.
pub proof fn sum_rounds(a: Real32, b: Real32)
    requires
        modest(a),
        modest(b),
    ensures
        rounds(a.plus(b), value(a) + value(b)),
        !negative(Width::Single, a.bits as u64) && !negative(Width::Single, b.bits as u64) ==> !negative(
            Width::Single,
            a.plus(b).bits as u64,
        ),
{
    let w = Width::Single;
    reveal(Real32::spec_plus);
    magnitude_by_parts(a.bits as u64);
    magnitude_by_parts(b.bits as u64);
    let e = common_exponent(w, a.bits as u64, b.bits as u64);
    let k = (e + 149) as nat;
    let (i, j) = (in_units(w, a.bits as u64, e), in_units(w, b.bits as u64, e));
    in_units_is(a, e);
    in_units_is(b, e);
    let n = i + j;
    let one = power(149);
    let exact = value(a) + value(b);
    power_adds(149, 149);
    power_adds(k, 149);
    power_adds(1, 20);
    power_adds(21, 298);
    lemma2_to64();
    assert(n as real * power(k) / one == exact) by (nonlinear_arith)
        requires
            n as real == i as real + j as real,
            i as real * power(k) / one == value(a),
            j as real * power(k) / one == value(b),
            exact == value(a) + value(b),
            one > 0real,
    ;
    let minus = negative(w, a.bits as u64) && negative(w, b.bits as u64);
    lemma_pow2_pos(24);
    not_negative(0real, power(24), one);
    lemma_pow2_unfold(21);
    if n == 0 {
        assert(exact == 0real) by (nonlinear_arith)
            requires
                n as real * power(k) / one == exact,
                n as real == 0real,
                one > 0real,
        ;
        zero_is_zero();
        signed_rounds(minus, 0, 0real);
    } else {
        let m = if n < 0 {
            (-n) as nat
        } else {
            n as nat
        };
        let x = size(exact);
        assert(m as real * power(k + 149) / power(298) == x) by (nonlinear_arith)
            requires
                n as real * power(k) / one == exact,
                m as real == n as real && n as real >= 0real || m as real == -(n as real)
                    && n as real <= 0real,
                x == exact && exact >= 0real || x == -exact && exact <= 0real,
                power(k + 149) == power(k) * one,
                power(298) == one * one,
                power(k) > 0real,
                one > 0real,
        ;
        assert(m as real * power(k + 149) <= power(21 + 298)) by (nonlinear_arith)
            requires
                m as real * power(k + 149) / power(298) == x,
                x <= power(21),
                power(21 + 298) == power(21) * power(298),
                power(298) > 0real,
        ;
        modest_length(m, e, 21);
        nearest_is_near(m, false, e, m as real);
        assert((n < 0) == (exact < 0real)) by (nonlinear_arith)
            requires
                n as real * power(k) / one == exact,
                n != 0,
                power(k) > 0real,
                one > 0real,
        ;
        signed_rounds(n < 0, nearest(w, m, false, e), x);
    }
}

/// A number in units of a smaller exponent has its value.
pub proof fn in_units_is(a: Real32, e: int)
    requires
        is_number(a),
        -149 <= e <= exponent(Width::Single, a.bits as u64),
    ensures
        in_units(Width::Single, a.bits as u64, e) as real * power((e + 149) as nat) / power(149) == value(
            a,
        ),
{
    let w = Width::Single;
    magnitude_by_parts(a.bits as u64);
    let d = (exponent(w, a.bits as u64) - e) as nat;
    let (k, x) = ((e + 149) as nat, (exponent(w, a.bits as u64) + 149) as nat);
    let s = significand(w, a.bits as u64);
    let n = s * pow2(d);
    assert(n as real == s as real * power(d)) by (nonlinear_arith)
        requires
            n == s * pow2(d),
    ;
    power_adds(d, k);
    let one = power(149);
    lemma_pow2_pos(149);
    assert(n as real * power(k) / one == s as real * power(x) / one) by (nonlinear_arith)
        requires
            n as real == s as real * power(d),
            power(x) == power(d) * power(k),
            one > 0real,
    ;
    let r = n as real;
    assert((-r) * power(k) / one == -(r * power(k) / one)) by (nonlinear_arith)
        requires
            one > 0real,
    ;
}

/// The difference of numbers that are not large.
pub proof fn difference_rounds(a: Real32, b: Real32)
    requires
        modest(a),
        modest(b),
    ensures
        rounds(a.minus(b), value(a) - value(b)),
{
    let w = Width::Single;
    reveal(Real32::spec_negated);
    let c = b.negated();
    assert(unsigned(w, c.bits as u64) == unsigned(w, b.bits as u64));
    assert(negative(w, c.bits as u64) != negative(w, b.bits as u64));
    assert(units(w, c.bits as u64) == units(w, b.bits as u64));
    sum_rounds(a, c);
}

/// The quotient of a number and another that is not tiny.
pub proof fn quotient_rounds(a: Real32, b: Real32)
    requires
        modest(a),
        modest(b),
        size(value(b)) * power(20) >= 1real,
    ensures
        rounds(a.over(b), value(a) / value(b)),
        negative(Width::Single, a.over(b).bits as u64) == (negative(Width::Single, a.bits as u64) != negative(
            Width::Single,
            b.bits as u64,
        )),
{
    let w = Width::Single;
    reveal(Real32::spec_over);
    magnitude_by_parts(a.bits as u64);
    magnitude_by_parts(b.bits as u64);
    let (s, t) = (significand(w, a.bits as u64), significand(w, b.bits as u64));
    let (x, y) = ((exponent(w, a.bits as u64) + 149) as nat, (exponent(w, b.bits as u64) + 149) as nat);
    let e = exponent(w, a.bits as u64) - exponent(w, b.bits as u64) - 128;
    let (p, q) = (magnitude(a.bits as u64), magnitude(b.bits as u64));
    let one = power(149);
    lemma_pow2_pos(149);
    lemma_pow2_pos(20);
    lemma_pow2_pos(24);
    not_negative(0real, power(24), one);
    assert(q > 0real) by (nonlinear_arith)
        requires
            q * power(20) >= 1real,
            power(20) > 0real,
    ;
    if t == 0 {
        assert(0real * power(y) / one == 0real) by (nonlinear_arith)
            requires
                one > 0real,
        ;
    }
    let minus = negative(w, a.bits as u64) != negative(w, b.bits as u64);
    let exact = p / q;
    assert(value(a) / value(b) == if minus {
        -exact
    } else {
        exact
    }) by (nonlinear_arith)
        requires
            value(a) == if negative(w, a.bits as u64) {
                -p
            } else {
                p
            },
            value(b) == if negative(w, b.bits as u64) {
                -q
            } else {
                q
            },
            minus == (negative(w, a.bits as u64) != negative(w, b.bits as u64)),
            exact == p / q,
            q > 0real,
    ;
    let c = s * pow2(128);
    if s == 0 {
        assert(0 * pow2(128) == 0) by (nonlinear_arith);
        lemma_basic_div(0, t as int);
        lemma_small_mod(0, t);
        assert(p == 0real && exact == 0real) by (nonlinear_arith)
            requires
                p == 0real * power(x) / one,
                exact == p / q,
                q > 0real,
                one > 0real,
        ;
        zero_is_zero();
        signed_rounds(minus, 0, 0real);
    } else {
        lemma_fundamental_div_mod(c as int, t as int);
        lemma_mod_bound(c as int, t as int);
        let (n, r) = (c / t, c % t);
        let (cr, tr, nr, rr) = (c as real, t as real, n as real, r as real);
        let z = cr / tr;
        let nt = t * n;
        assert(nt as real == tr * nr) by (nonlinear_arith)
            requires
                nt == t * n,
                tr == t as real,
                nr == n as real,
        ;
        assert(nr <= z && z < nr + 1real && (rr == 0real ==> z == nr)) by (nonlinear_arith)
            requires
                cr == tr * nr + rr,
                0real <= rr < tr,
                z == cr / tr,
        ;
        formats(w);
        lemma_pow2_unfold(24);
        parts_of(w, a.bits as u64);
        parts_of(w, b.bits as u64);
        quotient_is_long(s, t);
        range_of_exponent(b);
        let k = (e + 298) as nat;
        power_adds(128, k);
        power_adds(128 + k, y);
        power_adds(x, 298);
        power_adds(149, 149);
        assert(128 + k + y == x + 298);
        assert(cr == s as real * power(128)) by (nonlinear_arith)
            requires
                c == s * pow2(128),
                cr == c as real,
        ;
        assert(z * power(k) / power(298) == exact) by (nonlinear_arith)
            requires
                z == cr / tr,
                cr == s as real * power(128),
                power(128) * power(k) * power(y) == power(x) * power(298),
                p == s as real * power(x) / one,
                q == tr * power(y) / one,
                exact == p / q,
                tr > 0real,
                power(y) > 0real,
                power(298) > 0real,
                one > 0real,
        ;
        power_adds(20, 20);
        power_adds(40, 298);
        assert(exact <= power(40)) by (nonlinear_arith)
            requires
                exact == p / q,
                0real <= p <= power(20),
                q * power(20) >= 1real,
                q > 0real,
                power(40) == power(20) * power(20),
                power(20) > 0real,
        ;
        assert(exact >= 0real) by (nonlinear_arith)
            requires
                exact == p / q,
                p >= 0real,
                q > 0real,
        ;
        assert(nr * power(k) <= power(40 + 298)) by (nonlinear_arith)
            requires
                nr <= z,
                z * power(k) / power(298) == exact,
                exact <= power(40),
                power(40 + 298) == power(40) * power(298),
                power(298) > 0real,
                power(k) > 0real,
        ;
        modest_length(n, e, 40);
        nearest_is_near(n, r != 0, e, z);
        signed_rounds(minus, nearest(w, n, r != 0, e), exact);
    }
}

proof fn quotient_is_long(s: nat, t: nat)
    requires
        s > 0,
        0 < t < pow2(24),
    ensures
        s * pow2(128) / t > 0,
        bit_length(s * pow2(128) / t) > 24,
{
    let c = s * pow2(128);
    lemma_fundamental_div_mod(c as int, t as int);
    lemma_mod_bound(c as int, t as int);
    let n = c / t;
    lemma_pow2_adds(24, 104);
    lemma_pow2_pos(104);
    assert(n >= pow2(104)) by (nonlinear_arith)
        requires
            c == s * pow2(128),
            pow2(128) == pow2(24) * pow2(104),
            s >= 1,
            t < pow2(24),
            c < t * n + t,
            t > 0,
            pow2(104) > 0,
    {
        assert(c >= pow2(24) * pow2(104));
        assert(t * (n + 1) > t * pow2(104));
    }
    bit_length_bounds(n);
    if bit_length(n) <= 24 {
        lemma_pow2_strictly_increases(bit_length(n), 104);
    }
}

/// The exponent of a number that is not large.
pub proof fn range_of_exponent(b: Real32)
    requires
        modest(b),
    ensures
        exponent(Width::Single, b.bits as u64) <= 20,
{
    let w = Width::Single;
    magnitude_by_parts(b.bits as u64);
    formats(w);
    parts_of(w, b.bits as u64);
    let x = (exponent(w, b.bits as u64) + 149) as nat;
    if exponent(w, b.bits as u64) > 20 {
        let (s, one) = (significand(w, b.bits as u64), power(149));
        power_adds(20, 149);
        lemma_pow2_strictly_increases(169, x);
        assert(s as real * power(x) / one > power(20)) by (nonlinear_arith)
            requires
                s as real >= 1real,
                power(x) > power(169),
                power(169) == power(20) * one,
                one > 0real,
        ;
    }
}

/// A whole number stands for itself.
pub proof fn wholes_are_themselves(n: nat)
    requires
        n < 0x100_0000,
    ensures
        is_number(Real32::nearest_to(n as int)),
        !negative(Width::Single, Real32::nearest_to(n as int).bits as u64),
        value(Real32::nearest_to(n as int)) == n as real,
{
    reveal(Real32::nearest_to);
    if n == 0 {
        zero_is_zero();
    } else {
        let w = Width::Single;
        formats(w);
        lemma2_to64();
        nearest_in_units(w, n, 0);
        exact_units(w, n, 149);
        lemma_pow2_pos(149);
        let u = n * pow2(149);
        let (r, one) = (n as real, power(149));
        assert(u as real == r * one) by (nonlinear_arith)
            requires
                u == n * pow2(149),
                r == n as real,
                one == pow2(149) as real,
        ;
        assert(r * one / one == r) by (nonlinear_arith)
            requires
                one > 0real,
        ;
    }
}

/// Numbers that are not negative are in the order of their values.
pub proof fn order_is_by_value(a: Real32, b: Real32)
    requires
        is_number(a) && !negative(Width::Single, a.bits as u64),
        is_number(b) && !negative(Width::Single, b.bits as u64),
    ensures
        a.below(b) <==> value(a) < value(b),
        value(a) >= 0real,
{
    let w = Width::Single;
    magnitude_by_parts(a.bits as u64);
    magnitude_by_parts(b.bits as u64);
    let (p, q, one) = (units(w, a.bits as u64) as real, units(w, b.bits as u64) as real, power(149));
    lemma_pow2_pos(149);
    assert(p / one < q / one <==> p < q) by (nonlinear_arith)
        requires
            one > 0real,
    ;
    if a.bits < b.bits {
        units_keep_order(w, a.bits as u64, b.bits as u64);
        if units(w, a.bits as u64) == units(w, b.bits as u64) {
            pattern_of_units(w, a.bits as u64);
            pattern_of_units(w, b.bits as u64);
        }
    } else {
        units_keep_order(w, b.bits as u64, a.bits as u64);
    }
}

} // verus!
