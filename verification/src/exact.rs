//! Where the arithmetic is exact: what sums, products and quotients keep unchanged.
use vstd::arithmetic::div_mod::*;
use vstd::arithmetic::power2::*;
use vstd::prelude::*;

use crate::binary::{Real, Real32};
use crate::number::{SHORT_ONE, SHORT_ZERO};
use crate::float::{
    bit_length, bit_length_bounds, bit_length_is, bit_length_shifted, dropped, exponent,
    fraction_bits, in_units, infinite, infinity, lowest, nan, nearest, negative, of_integer,
    opposite, product, quotient, rounded, scaled, significand, sum, unsigned, valid, zero, Width,
};

verus! {

/// A pattern of a number that is neither infinite nor a NaN.
pub open spec fn finite(w: Width, a: u64) -> bool {
    valid(w, a) && unsigned(w, a) < infinity(w)
}

/// The pattern of 1.
pub open spec fn one(w: Width) -> u64 {
    match w {
        Width::Single => 0x3F80_0000,
        Width::Double => 0x3FF0_0000_0000_0000,
    }
}

/// The number of fraction bits of each format, as a power of two.
pub proof fn formats(w: Width)
    ensures
        pow2(fraction_bits(w)) == (match w {
            Width::Single => 0x80_0000nat,
            Width::Double => 0x10_0000_0000_0000nat,
        }),
        pow2(0) == 1,
{
    lemma2_to64();
    lemma2_to64_rest();
}

/// A pattern by its significand and its exponent.
pub proof fn parts_of(w: Width, a: u64)
    requires
        finite(w, a),
    ensures
        unsigned(w, a) == significand(w, a) + (exponent(w, a) - lowest(w)) * pow2(fraction_bits(w)),
        exponent(w, a) >= lowest(w),
        significand(w, a) < 2 * pow2(fraction_bits(w)),
        exponent(w, a) > lowest(w) ==> significand(w, a) >= pow2(fraction_bits(w)),
        significand(w, a) == 0 <==> zero(w, a),
{
    formats(w);
    let unit = pow2(fraction_bits(w));
    let m = unsigned(w, a) as nat;
    lemma_fundamental_div_mod(m as int, unit as int);
    let q = m / unit;
    assert(unit * q == q * unit) by (nonlinear_arith);
    if q > 0 {
        assert((q - 1) * unit == q * unit - unit) by (nonlinear_arith);
    } else {
        assert(0 * unit == 0) by (nonlinear_arith);
    }
}

/// Dropping places that are all zero rounds nothing.
pub proof fn rounded_exactly(n: nat, t: nat)
    ensures
        scaled(n * pow2(t), t as int, false) == n,
{
    lemma_pow2_pos(t);
    lemma2_to64();
    if t > 0 {
        lemma_pow2_pos((t - 1) as nat);
        lemma_fundamental_div_mod_converse(
            (n * pow2(t)) as int,
            pow2(t) as int,
            n as int,
            0,
        );
    } else {
        assert(n * 1 == n);
    }
}

/// A number is the one nearest to itself, however finely its significand is written.
pub proof fn nearest_of_own(w: Width, a: u64, t: nat)
    requires
        finite(w, a),
    ensures
        nearest(w, significand(w, a) * pow2(t), false, exponent(w, a) - t) == unsigned(w, a),
{
    parts_of(w, a);
    formats(w);
    lemma_pow2_pos(t);
    let s = significand(w, a);
    let f = fraction_bits(w);
    let n = s * pow2(t);
    if s == 0 {
        assert(n == 0) by (nonlinear_arith)
            requires
                n == s * pow2(t),
                s == 0,
        ;
    } else {
        assert(n > 0) by (nonlinear_arith)
            requires
                n == s * pow2(t),
                s > 0,
                pow2(t) > 0,
        ;
        bit_length_bounds(s);
        bit_length_shifted(s, t, 0);
        lemma_pow2_unfold(f + 1);
        let b = bit_length(s);
        if b > f + 1 {
            if f + 1 < b - 1 {
                lemma_pow2_strictly_increases(f + 1, (b - 1) as nat);
            }
        }
        assert(b <= f + 1);
        if exponent(w, a) > lowest(w) {
            bit_length_is(s, f + 1);
        }
        assert(dropped(w, n, exponent(w, a) - t) == t);
        rounded_exactly(s, t);
    }
}

/// A value rounds alike however finely it is written.
pub proof fn nearest_of_shifted(w: Width, n: nat, t: nat, e: int)
    ensures
        nearest(w, n * pow2(t), false, e - t) == nearest(w, n, false, e),
{
    lemma_pow2_pos(t);
    let m = n * pow2(t);
    if n == 0 {
        assert(m == 0) by (nonlinear_arith)
            requires
                m == n * pow2(t),
                n == 0,
        ;
    } else {
        assert(m > 0) by (nonlinear_arith)
            requires
                m == n * pow2(t),
                n > 0,
                pow2(t) > 0,
        ;
        bit_length_shifted(n, t, 0);
        let s = dropped(w, n, e);
        assert(dropped(w, m, e - t) == s + t);
        assert(scaled(m, s + t, false) == scaled(n, s, false)) by {
            scaled_when_shifted(n, t, s);
        }
    }
}

proof fn scaled_when_shifted(n: nat, t: nat, s: int)
    ensures
        scaled(n * pow2(t), s + t, false) == scaled(n, s, false),
{
    let p = pow2(t);
    lemma_pow2_pos(t);
    if s <= 0 {
        let k = (-s) as nat;
        if s + t <= 0 {
            let j = (k - t) as nat;
            lemma_pow2_adds(t, j);
            assert(n * p * pow2(j) == n * pow2(k)) by (nonlinear_arith)
                requires
                    pow2(k) == p * pow2(j),
            ;
        } else {
            let j = (t - k) as nat;
            lemma_pow2_adds(k, j);
            let x = n * pow2(k);
            assert(n * p == x * pow2(j)) by (nonlinear_arith)
                requires
                    p == pow2(k) * pow2(j),
                    x == n * pow2(k),
            ;
            rounded_exactly(x, j);
        }
    } else {
        let u = s as nat;
        let d = pow2(u);
        let half = pow2((u - 1) as nat);
        lemma_pow2_pos(u);
        lemma_pow2_adds(u, t);
        lemma_pow2_adds((u - 1) as nat, t);
        assert(((u - 1) as nat + t) as nat == (u + t - 1) as nat);
        let q = n / d;
        let r = n % d;
        lemma_fundamental_div_mod(n as int, d as int);
        assert(n * p == q * (d * p) + r * p) by (nonlinear_arith)
            requires
                n == d * q + r,
        ;
        assert(0 <= r * p < d * p) by (nonlinear_arith)
            requires
                0 <= r < d,
                p > 0,
        ;
        lemma_fundamental_div_mod_converse((n * p) as int, (d * p) as int, q as int, (r * p) as int);
        assert((r * p > half * p) == (r > half)) by (nonlinear_arith)
            requires
                p > 0,
        ;
        assert((r * p == half * p) == (r == half)) by (nonlinear_arith)
            requires
                p > 0,
        ;
    }
}

proof fn rounding_keeps_order(n: nat, m: nat, s: nat)
    requires
        n <= m,
        s >= 1,
    ensures
        rounded(n, s, false) <= rounded(m, s, false),
{
    let d = pow2(s) as int;
    lemma_pow2_pos(s);
    lemma_fundamental_div_mod(n as int, d);
    lemma_fundamental_div_mod(m as int, d);
    let (q, p) = (n as int / d, m as int / d);
    lemma_div_is_ordered(n as int, m as int, d);
    if q == p {
        assert(n % pow2(s) <= m % pow2(s)) by (nonlinear_arith)
            requires
                n <= m,
                q == p,
                n == d * q + n % pow2(s),
                m == d * p + m % pow2(s),
        ;
    }
}

proof fn scaling_keeps_order(n: nat, m: nat, s: int)
    requires
        n <= m,
    ensures
        scaled(n, s, false) <= scaled(m, s, false),
{
    if s <= 0 {
        let k = pow2((-s) as nat);
        assert(n * k <= m * k) by (nonlinear_arith)
            requires
                n <= m,
                k >= 0,
        ;
    } else {
        rounding_keeps_order(n, m, s as nat);
    }
}

proof fn scaled_at_most(n: nat, s: int, b: nat)
    requires
        n > 0,
        bit_length(n) - s <= b,
    ensures
        scaled(n, s, false) <= pow2(b),
{
    bit_length_bounds(n);
    let l = bit_length(n);
    if s <= 0 {
        let k = (-s) as nat;
        lemma_pow2_adds(l, k);
        assert(n * pow2(k) <= pow2(l) * pow2(k)) by (nonlinear_arith)
            requires
                n <= pow2(l),
                pow2(k) >= 0,
        ;
        if l + k < b {
            lemma_pow2_strictly_increases(l + k, b);
        }
    } else {
        let u = s as nat;
        lemma_pow2_pos(u);
        lemma_pow2_adds(b, u);
        if l < b + u {
            lemma_pow2_strictly_increases(l, b + u);
        }
        lemma_fundamental_div_mod(n as int, pow2(u) as int);
        let q = n / pow2(u);
        assert(q < pow2(b)) by (nonlinear_arith)
            requires
                n < pow2(b) * pow2(u),
                n >= pow2(u) * q,
                pow2(u) > 0,
        ;
    }
}

proof fn scaled_at_least(n: nat, s: int, b: nat)
    requires
        n > 0,
        bit_length(n) - s == b + 1,
    ensures
        scaled(n, s, false) >= pow2(b),
{
    bit_length_bounds(n);
    let l = (bit_length(n) - 1) as nat;
    if s <= 0 {
        let k = (-s) as nat;
        lemma_pow2_adds(l, k);
        assert(n * pow2(k) >= pow2(l) * pow2(k)) by (nonlinear_arith)
            requires
                n >= pow2(l),
                pow2(k) >= 0,
        ;
    } else {
        let u = s as nat;
        lemma_pow2_pos(u);
        lemma_pow2_adds(b, u);
        lemma_fundamental_div_mod(n as int, pow2(u) as int);
        let q = n / pow2(u);
        assert(q >= pow2(b)) by (nonlinear_arith)
            requires
                n >= pow2(b) * pow2(u),
                n == pow2(u) * q + n % pow2(u),
                n % pow2(u) < pow2(u),
                pow2(u) > 0,
        ;
    }
}

/// A larger value has no smaller number nearest to it.
pub proof fn nearest_keeps_order(w: Width, n: nat, m: nat, e: int)
    requires
        n <= m,
    ensures
        nearest(w, n, false, e) <= nearest(w, m, false, e),
{
    formats(w);
    if n > 0 {
        let f = fraction_bits(w);
        let unit = pow2(f) as int;
        let s = dropped(w, n, e);
        let t = dropped(w, m, e);
        bit_length_bounds(n);
        bit_length_bounds(m);
        if bit_length(m) < bit_length(n) {
            if bit_length(m) < bit_length(n) - 1 {
                lemma_pow2_strictly_increases(bit_length(m), (bit_length(n) - 1) as nat);
            }
        }
        assert(s <= t);
        if s == t {
            scaling_keeps_order(n, m, s);
        } else {
            scaled_at_most(n, s, f + 1);
            scaled_at_least(m, t, f);
            lemma_pow2_unfold(f + 1);
            let x = e + s - lowest(w);
            let y = e + t - lowest(w);
            assert(x * unit + unit <= y * unit) by (nonlinear_arith)
                requires
                    x + 1 <= y,
                    unit > 0,
            ;
        }
    } else if m > 0 {
        nearest_is_no_less_than_zero(w, m, e);
    }
}

/// A value with digits left out lies between it and the next one.
pub proof fn nearest_with_more(w: Width, n: nat, more: bool, e: int)
    ensures
        nearest(w, n, false, e) <= nearest(w, n, more, e) <= nearest(w, n + 1, false, e),
{
    nearest_keeps_order(w, n, n + 1, e);
    if more && n > 0 {
        formats(w);
        let f = fraction_bits(w);
        let unit = pow2(f) as int;
        let s = dropped(w, n, e);
        let t = dropped(w, n + 1, e);
        bit_length_bounds(n);
        bit_length_bounds(n + 1);
        if bit_length(n + 1) < bit_length(n) {
            if bit_length(n + 1) < bit_length(n) - 1 {
                lemma_pow2_strictly_increases(bit_length(n + 1), (bit_length(n) - 1) as nat);
            }
        }
        if s <= 0 {
        } else if s == t {
            rounding_up_at_most(n, s as nat);
        } else {
            scaled_up_at_most(n, s, f + 1);
            scaled_at_least(n + 1, t, f);
            lemma_pow2_unfold(f + 1);
            let x = e + s - lowest(w);
            let y = e + t - lowest(w);
            assert(x * unit + unit <= y * unit) by (nonlinear_arith)
                requires
                    x + 1 <= y,
                    unit > 0,
            ;
        }
    } else if n == 0 {
        nearest_is_no_less_than_zero(w, 1, e);
    }
}

proof fn rounding_up_at_most(n: nat, s: nat)
    requires
        s >= 1,
    ensures
        rounded(n, s, true) <= rounded(n + 1, s, false),
{
    let d = pow2(s) as int;
    lemma_pow2_pos(s);
    lemma_pow2_unfold(s);
    lemma_fundamental_div_mod(n as int, d);
    let q = n as int / d;
    let r = n as int % d;
    if r + 1 < d {
        lemma_fundamental_div_mod_converse((n + 1) as int, d, q, r + 1);
    } else {
        assert(n + 1 == d * (q + 1)) by (nonlinear_arith)
            requires
                n == d * q + r,
                r + 1 == d,
        ;
        assert(d * (q + 1) == (q + 1) * d + 0) by (nonlinear_arith);
        lemma_fundamental_div_mod_converse((n + 1) as int, d, q + 1, 0);
    }
}

proof fn scaled_up_at_most(n: nat, s: int, b: nat)
    requires
        n > 0,
        s > 0,
        bit_length(n) - s <= b,
    ensures
        scaled(n, s, true) <= pow2(b),
{
    bit_length_bounds(n);
    let l = bit_length(n);
    let u = s as nat;
    lemma_pow2_pos(u);
    lemma_pow2_adds(b, u);
    if l < b + u {
        lemma_pow2_strictly_increases(l, b + u);
    }
    lemma_fundamental_div_mod(n as int, pow2(u) as int);
    let q = n / pow2(u);
    assert(q < pow2(b)) by (nonlinear_arith)
        requires
            n < pow2(b) * pow2(u),
            n >= pow2(u) * q,
            pow2(u) > 0,
    ;
}

proof fn nearest_is_no_less_than_zero(w: Width, n: nat, e: int)
    requires
        n > 0,
    ensures
        nearest(w, n, false, e) >= 0,
{
    formats(w);
    let s = dropped(w, n, e);
    let x = e + s - lowest(w);
    let unit = pow2(fraction_bits(w)) as int;
    assert(x * unit >= 0) by (nonlinear_arith)
        requires
            x >= 0,
            unit > 0,
    ;
}

/// A value that is no larger than a number, both in units of `2^e`, has a number nearest to
/// it that is no larger.
pub proof fn nearest_at_most(w: Width, n: nat, e: int, b: u64, t: nat)
    requires
        finite(w, b),
        e == exponent(w, b) - t,
        n <= significand(w, b) * pow2(t),
    ensures
        nearest(w, n, false, e) <= unsigned(w, b),
{
    nearest_of_own(w, b, t);
    nearest_keeps_order(w, n, significand(w, b) * pow2(t), e);
}

/// A value that is no smaller than a number, both in units of `2^e`, has a number nearest to
/// it that is no smaller.
pub proof fn nearest_at_least(w: Width, n: nat, e: int, b: u64, t: nat)
    requires
        finite(w, b),
        e == exponent(w, b) - t,
        n >= significand(w, b) * pow2(t),
    ensures
        nearest(w, n, false, e) >= unsigned(w, b),
{
    nearest_of_own(w, b, t);
    nearest_keeps_order(w, significand(w, b) * pow2(t), n, e);
}

proof fn parts_of_one(w: Width)
    ensures
        finite(w, one(w)),
        !negative(w, one(w)),
        significand(w, one(w)) == pow2(fraction_bits(w)),
        exponent(w, one(w)) == -fraction_bits(w),
{
    formats(w);
}

/// A number that is at most 1 in size makes no product larger in size than the other
/// factor.
pub proof fn product_at_most(w: Width, a: u64, b: u64)
    requires
        finite(w, a),
        finite(w, b),
        unsigned(w, a) <= one(w),
    ensures
        unsigned(w, product(w, a, b)) <= unsigned(w, b),
        valid(w, product(w, a, b)),
{
    formats(w);
    parts_of(w, a);
    let f = fraction_bits(w);
    let unit = pow2(f) as int;
    let s = significand(w, a);
    let x = exponent(w, a);
    let k = -f - lowest(w);
    assert(one(w) == unit + k * unit) by {
        formats(w);
    }
    assert(x <= -f) by {
        if x > -f {
            assert((x - lowest(w)) * unit >= (k + 1) * unit) by (nonlinear_arith)
                requires
                    x - lowest(w) >= k + 1,
                    unit > 0,
            ;
            assert((k + 1) * unit == k * unit + unit) by (nonlinear_arith);
        }
    }
    let t = (-x) as nat;
    assert(s <= pow2(t)) by {
        if x == -f {
            assert((x - lowest(w)) * unit == k * unit);
        } else {
            lemma_pow2_unfold(f + 1);
            if f + 1 < t {
                lemma_pow2_strictly_increases(f + 1, t);
            }
        }
    }
    let c = significand(w, b);
    assert(s * c <= c * pow2(t)) by (nonlinear_arith)
        requires
            s <= pow2(t),
            c >= 0,
    ;
    nearest_at_most(w, s * c, x + exponent(w, b), b, t);
    if s * c > 0 {
        nearest_is_no_less_than_zero(w, s * c, x + exponent(w, b));
    }
}

/// A number times 1 is itself.
pub proof fn product_by_one(w: Width, a: u64)
    requires
        finite(w, a),
    ensures
        product(w, a, one(w)) == a,
        product(w, one(w), a) == a,
{
    parts_of_one(w);
    nearest_of_own(w, a, fraction_bits(w));
    assert(significand(w, a) * pow2(fraction_bits(w)) == pow2(fraction_bits(w)) * significand(w, a))
        by (nonlinear_arith);
}

/// A finite number times a zero is a zero.
pub proof fn product_by_zero(w: Width, a: u64, z: u64)
    requires
        finite(w, a),
        valid(w, z),
        zero(w, z),
    ensures
        zero(w, product(w, a, z)),
        zero(w, product(w, z, a)),
        finite(w, product(w, a, z)),
        finite(w, product(w, z, a)),
{
    parts_of(w, z);
    assert(significand(w, a) * significand(w, z) == 0) by (nonlinear_arith)
        requires
            significand(w, z) == 0,
    ;
    assert(significand(w, z) * significand(w, a) == 0) by (nonlinear_arith)
        requires
            significand(w, z) == 0,
    ;
}

/// A product is the same either way round.
pub proof fn product_commutes(w: Width, a: u64, b: u64)
    ensures
        product(w, a, b) == product(w, b, a),
{
    assert(significand(w, a) * significand(w, b) == significand(w, b) * significand(w, a))
        by (nonlinear_arith);
}

/// A sum is the same either way round.
pub proof fn sum_commutes(w: Width, a: u64, b: u64)
    requires
        valid(w, a),
        valid(w, b),
    ensures
        sum(w, a, b) == sum(w, b, a),
{
}

/// A number other than zero plus a zero is itself.
pub proof fn sum_with_zero(w: Width, a: u64, z: u64)
    requires
        finite(w, a),
        !zero(w, a),
        valid(w, z),
        zero(w, z),
    ensures
        sum(w, a, z) == a,
        sum(w, z, a) == a,
{
    parts_of(w, a);
    parts_of(w, z);
    formats(w);
    let s = significand(w, a);
    let t = (exponent(w, a) - lowest(w)) as nat;
    nearest_of_own(w, a, t);
    lemma_pow2_pos(t);
    let n = s * pow2(t);
    assert(n > 0) by (nonlinear_arith)
        requires
            n == s * pow2(t),
            s > 0,
            pow2(t) > 0,
    ;
    assert(exponent(w, z) == lowest(w));
    assert(in_units(w, z, lowest(w)) == 0) by {
        assert(0 * pow2(0) == 0);
    }
}

/// A number over 1 is itself.
pub proof fn quotient_by_one(w: Width, a: u64)
    requires
        finite(w, a),
    ensures
        quotient(w, a, one(w)) == a,
{
    parts_of_one(w);
    let f = fraction_bits(w);
    let t = (128 - f) as nat;
    nearest_of_own(w, a, t);
    let s = significand(w, a);
    let d = pow2(f);
    lemma_pow2_pos(f);
    lemma_pow2_adds(t, f);
    let q = s * pow2(t);
    assert(s * pow2(128) == q * d) by (nonlinear_arith)
        requires
            q == s * pow2(t),
            pow2(128) == pow2(t) * d,
    ;
    lemma_fundamental_div_mod_converse((s * pow2(128)) as int, d as int, q as int, 0);
}

/// A number over itself is 1.
pub proof fn quotient_by_itself(w: Width, a: u64)
    requires
        finite(w, a),
        !zero(w, a),
    ensures
        quotient(w, a, a) == one(w),
{
    parts_of(w, a);
    parts_of_one(w);
    let f = fraction_bits(w);
    let t = (128 - f) as nat;
    nearest_of_own(w, one(w), t);
    lemma_pow2_adds(f, t);
    let s = significand(w, a);
    let n = s * pow2(128);
    assert(n == pow2(128) * s) by (nonlinear_arith)
        requires
            n == s * pow2(128),
    ;
    lemma_fundamental_div_mod_converse(n as int, s as int, pow2(128) as int, 0);
}

/// A number less itself is zero.
pub proof fn difference_with_itself(w: Width, a: u64)
    requires
        finite(w, a),
    ensures
        sum(w, a, opposite(w, a)) == 0,
{
    let b = opposite(w, a);
    assert(unsigned(w, b) == unsigned(w, a));
    assert(negative(w, b) == !negative(w, a));
    let e = exponent(w, a);
    assert(in_units(w, a, e) + in_units(w, b, e) == 0);
}

/// A whole number of 32 bits is a finite number, and zero only for zero.
pub proof fn whole_is_finite(n: u32)
    ensures
        finite(Width::Double, of_integer(Width::Double, n as int)),
        !negative(Width::Double, of_integer(Width::Double, n as int)),
        zero(Width::Double, of_integer(Width::Double, n as int)) == (n == 0),
{
    let w = Width::Double;
    if n > 0 {
        lemma2_to64();
        lemma2_to64_rest();
        parts_of_one(w);
        let big = 0x41F0_0000_0000_0000u64;
        formats(w);
        assert(unsigned(w, big) == 0x41F * 0x10_0000_0000_0000);
        assert(significand(w, big) == pow2(52));
        assert(exponent(w, big) == -20);
        nearest_of_shifted(w, n as nat, 52, 0);
        nearest_of_shifted(w, n as nat, 20, 0);
        assert(n * pow2(52) >= pow2(52) * pow2(0)) by (nonlinear_arith)
            requires
                n >= 1,
                pow2(0) == 1,
                pow2(52) >= 0,
        ;
        assert(n * pow2(20) <= pow2(52) * pow2(0)) by (nonlinear_arith)
            requires
                n <= 0xFFFF_FFFF,
                pow2(0) == 1,
                pow2(20) == 0x10_0000,
                pow2(52) == 0x10_0000_0000_0000,
        ;
        nearest_at_least(w, (n * pow2(52)) as nat, -52, one(w), 0);
        nearest_at_most(w, (n * pow2(20)) as nat, -20, big, 0);
    }
}

/// A finite number other than zero over a number is a number.
pub proof fn quotient_is_a_number(a: u64, b: u64)
    requires
        finite(Width::Double, a),
        !zero(Width::Double, a),
        !nan(Width::Double, b),
    ensures
        !nan(Width::Double, quotient(Width::Double, a, b)),
{
    let w = Width::Double;
    if !infinite(w, b) && !zero(w, b) {
        parts_of(w, b);
        let n = significand(w, a) * pow2(128);
        let d = significand(w, b);
        lemma_div_pos_is_pos(n as int, d as int);
        nearest_has_a_pattern(w, n / d, n % d != 0, exponent(w, a) - exponent(w, b) - 128);
    }
}

/// A finite number other than zero times a number is a number.
pub proof fn product_is_a_number(a: u64, b: u64)
    requires
        finite(Width::Double, a),
        !zero(Width::Double, a),
        !nan(Width::Double, b),
    ensures
        !nan(Width::Double, product(Width::Double, a, b)),
{
    let w = Width::Double;
    if !infinite(w, b) {
        nearest_has_a_pattern(
            w,
            significand(w, a) * significand(w, b),
            false,
            exponent(w, a) + exponent(w, b),
        );
    }
}

/// What a value is rounded to is the pattern of a number, or of infinity.
pub proof fn nearest_has_a_pattern(w: Width, n: nat, more: bool, e: int)
    ensures
        0 <= nearest(w, n, more, e) <= infinity(w),
{
    formats(w);
    if n > 0 {
        let s = dropped(w, n, e);
        let x = e + s - lowest(w);
        let unit = pow2(fraction_bits(w)) as int;
        assert(x * unit >= 0) by (nonlinear_arith)
            requires
                x >= 0,
                unit > 0,
        ;
    }
}

// The same for numbers of either width.

/// Two numbers are equal, or neither is a number.
pub open spec fn agree(a: Real32, b: Real32) -> bool {
    a.same(b) || (a.is_nan() && b.is_nan())
}

/// A number that is neither infinite nor a NaN.
pub open spec fn is_finite32(v: Real32) -> bool {
    finite(Width::Single, v.bits as u64)
}

/// A zero of either sign.
pub open spec fn is_zero32(v: Real32) -> bool {
    zero(Width::Single, v.bits as u64)
}

/// 1.
pub open spec fn one32() -> Real32 {
    Real32 { bits: SHORT_ONE }
}

/// A number times 1 is itself.
pub proof fn times_one(v: Real32)
    requires
        is_finite32(v),
    ensures
        v.times(one32()) == v,
        one32().times(v) == v,
{
    reveal(Real32::spec_times);
    product_by_one(Width::Single, v.bits as u64);
}

/// A number from -1 to 1 makes a finite product with a finite number.
pub proof fn unit_times_is_finite(a: Real32, b: Real32)
    requires
        is_finite32(a),
        is_finite32(b),
        unsigned(Width::Single, a.bits as u64) <= one(Width::Single),
    ensures
        is_finite32(a.times(b)),
{
    reveal(Real32::spec_times);
    product_at_most(Width::Single, a.bits as u64, b.bits as u64);
}

/// A number over 1 is itself.
pub proof fn over_one(v: Real32)
    requires
        is_finite32(v),
    ensures
        v.over(one32()) == v,
{
    reveal(Real32::spec_over);
    quotient_by_one(Width::Single, v.bits as u64);
}

/// A finite number times a zero is a zero.
pub proof fn times_zero(v: Real32, z: Real32)
    requires
        is_finite32(v),
        is_zero32(z),
    ensures
        is_zero32(v.times(z)),
        is_zero32(z.times(v)),
        is_finite32(v.times(z)),
        is_finite32(z.times(v)),
{
    reveal(Real32::spec_times);
    product_by_zero(Width::Single, v.bits as u64, z.bits as u64);
}

/// A number other than zero plus a zero is itself.
pub proof fn plus_zero(v: Real32, z: Real32)
    requires
        is_finite32(v),
        !is_zero32(v),
        is_zero32(z),
    ensures
        v.plus(z) == v,
        z.plus(v) == v,
{
    reveal(Real32::spec_plus);
    sum_with_zero(Width::Single, v.bits as u64, z.bits as u64);
}

/// The sum of two zeros is a zero.
pub proof fn zeros_add_up(a: Real32, b: Real32)
    requires
        is_zero32(a),
        is_zero32(b),
    ensures
        is_zero32(a.plus(b)),
        is_finite32(a.plus(b)),
{
    reveal(Real32::spec_plus);
    parts_of(Width::Single, a.bits as u64);
    parts_of(Width::Single, b.bits as u64);
    assert(0 * pow2(0) == 0);
    assert(in_units(Width::Single, a.bits as u64, lowest(Width::Single)) == 0);
    assert(in_units(Width::Single, b.bits as u64, lowest(Width::Single)) == 0);
}

/// What 1 leaves as it is when it multiplies and divides, and zeros when they are added.
pub proof fn passes_through(y: Real32, v: Real32, z: Real32)
    requires
        is_zero32(y),
        is_zero32(z),
    ensures
        agree(y.plus(one32().times(v)).plus(z).over(one32()), v),
        is_finite32(v) && !is_zero32(v) ==> y.plus(one32().times(v)).plus(z).over(one32()) == v,
{
    if is_finite32(v) {
        times_one(v);
        if is_zero32(v) {
            zeros_add_up(y, v);
            zeros_add_up(y.plus(v), z);
            over_one(y.plus(v).plus(z));
        } else {
            plus_zero(v, y);
            plus_zero(v, z);
            over_one(v);
        }
    } else {
        parts_of_one(Width::Single);
        reveal(Real32::spec_times);
        reveal(Real32::spec_plus);
        reveal(Real32::spec_over);
    }
}

/// 1 less 1 is zero.
pub proof fn one_less_one()
    ensures
        one32().minus(one32()) == (Real32 { bits: SHORT_ZERO }),
{
    reveal(Real32::spec_plus);
    reveal(Real32::spec_negated);
    parts_of_one(Width::Single);
    difference_with_itself(Width::Single, SHORT_ONE as u64);
}

/// Sums and products of numbers are the same either way round.
pub proof fn order_does_not_matter(a: Real, b: Real)
    ensures
        a.plus(b) == b.plus(a),
        a.times(b) == b.times(a),
{
    reveal(Real::spec_plus);
    reveal(Real::spec_times);
    sum_commutes(Width::Double, a.bits, b.bits);
    product_commutes(Width::Double, a.bits, b.bits);
}

/// A number that is neither infinite nor a NaN.
pub open spec fn is_number(v: Real) -> bool {
    finite(Width::Double, v.bits)
}

/// The sum of two zeros is a zero.
pub proof fn sum_of_zeros(w: Width, a: u64, b: u64)
    requires
        finite(w, a) && zero(w, a),
        finite(w, b) && zero(w, b),
    ensures
        finite(w, sum(w, a, b)),
        zero(w, sum(w, a, b)),
{
    parts_of(w, a);
    parts_of(w, b);
    let n = pow2(0);
    assert(0 * n == 0) by (nonlinear_arith);
}

/// Twice a number is the number and itself.
pub proof fn twice(a: u64)
    requires
        finite(Width::Double, a),
    ensures
        product(Width::Double, 0x4000_0000_0000_0000, a) == sum(Width::Double, a, a),
{
    let w = Width::Double;
    formats(w);
    parts_of(w, a);
    lemma2_to64();
    lemma2_to64_rest();
    let two = 0x4000_0000_0000_0000u64;
    let (s, e) = (significand(w, a), exponent(w, a));
    assert(significand(w, two) == pow2(52) && exponent(w, two) == -51);
    lemma_pow2_unfold(52);
    let n = 2 * s;
    assert(pow2(52) * s == n * pow2(51)) by (nonlinear_arith)
        requires
            pow2(52) == 2 * pow2(51),
            n == 2 * s,
    ;
    nearest_of_shifted(w, n, 51, e);
    assert(s * pow2(0) == s);
}

/// A number over one that is no smaller is at most 1.
pub proof fn quotient_at_most_one(w: Width, a: u64, b: u64)
    requires
        finite(w, a),
        finite(w, b),
        !negative(w, a),
        !negative(w, b),
        a <= b,
        !zero(w, b),
    ensures
        finite(w, quotient(w, a, b)),
        !negative(w, quotient(w, a, b)),
        quotient(w, a, b) <= one(w),
{
    formats(w);
    parts_of(w, a);
    parts_of(w, b);
    let (s, t) = (significand(w, a), significand(w, b));
    let (x, y) = (exponent(w, a), exponent(w, b));
    let unit = pow2(fraction_bits(w)) as int;
    assert(x <= y + 1) by (nonlinear_arith)
        requires
            s + (x - lowest(w)) * unit <= t + (y - lowest(w)) * unit,
            0 <= s,
            t < 2 * unit,
            unit > 0,
    ;
    let k = (128 + y - x) as nat;
    let c = s * pow2(128);
    // The value is at most 1.
    assert(c <= t * pow2(k)) by {
        if x <= y {
            let d = (y - x) as nat;
            lemma_pow2_adds(128, d);
            lemma_pow2_pos(d);
            lemma_pow2_pos(128);
            assert(s <= t * pow2(d)) by {
                if d > 0 {
                    lemma_pow2_unfold(d);
                    lemma_pow2_pos((d - 1) as nat);
                    assert(s <= t * pow2(d)) by (nonlinear_arith)
                        requires
                            s < 2 * unit,
                            t >= unit,
                            pow2(d) >= 2,
                    ;
                } else {
                    assert(t * pow2(0) == t);
                }
            }
            assert(s * pow2(128) <= t * (pow2(128) * pow2(d))) by (nonlinear_arith)
                requires
                    s <= t * pow2(d),
                    pow2(128) > 0,
            ;
        } else {
            lemma_pow2_unfold(128);
            lemma_pow2_pos(127);
            assert((x - lowest(w)) * unit == (y - lowest(w)) * unit + unit) by (nonlinear_arith)
                requires
                    x == y + 1,
            ;
            assert(s * (2 * pow2(127)) <= t * pow2(127)) by (nonlinear_arith)
                requires
                    s + unit <= t,
                    s >= unit,
                    t < 2 * unit,
                    pow2(127) > 0,
            ;
        }
    }
    lemma_fundamental_div_mod(c as int, t as int);
    lemma_mod_bound(c as int, t as int);
    let q = c / t;
    let more = c % t != 0;
    let top = pow2(k);
    assert(q <= top && (more ==> q + 1 <= top)) by (nonlinear_arith)
        requires
            c <= t * top,
            c == t * q + c % t,
            0 <= c % t,
            more == (c % t != 0),
            t > 0,
    ;
    nearest_with_more(w, q, more, -k);
    nearest_keeps_order(w, q, top, -k);
    if more {
        nearest_keeps_order(w, q + 1, top, -k);
    }
    nearest_of_shifted(w, 1, k, 0);
    parts_of_one(w);
    let f = fraction_bits(w);
    nearest_of_own(w, one(w), 0);
    nearest_of_shifted(w, 1, f, 0);
    assert(1 * pow2(k) == pow2(k));
    assert(1 * pow2(f) == pow2(f));
    if q > 0 {
        nearest_is_no_less_than_zero(w, q, -k);
    }
}

} // verus!
