//! Numbers as multiples of the smallest one of their format, which makes bounds on results
//! plain inequalities between whole numbers.
use vstd::arithmetic::div_mod::*;
use vstd::arithmetic::power2::*;
use vstd::prelude::*;

use crate::exact::{
    finite, formats, nearest_keeps_order, nearest_of_own, nearest_of_shifted, parts_of,
    rounded_exactly,
};
use crate::float::{
    bit_length, bit_length_bounds, bit_length_shifted, common_exponent, dropped, exponent,
    fraction_bits, infinity, lowest, nearest, negative, opposite, product, significand, sum,
    unsigned, whole_part, Width,
};

verus! {

/// The size of a finite number in units of the smallest one.
pub open spec fn units(w: Width, a: u64) -> nat {
    significand(w, a) * pow2((exponent(w, a) - lowest(w)) as nat)
}

/// The pattern of the number nearest to a number of units.
pub open spec fn pattern(w: Width, u: nat) -> int {
    nearest(w, u, false, lowest(w))
}

/// A number is the one nearest to its units.
pub proof fn pattern_of_units(w: Width, a: u64)
    requires
        finite(w, a),
    ensures
        pattern(w, units(w, a)) == unsigned(w, a),
{
    parts_of(w, a);
    nearest_of_own(w, a, (exponent(w, a) - lowest(w)) as nat);
}

/// A larger pattern has no fewer units.
pub proof fn units_keep_order(w: Width, a: u64, b: u64)
    requires
        finite(w, a),
        finite(w, b),
        unsigned(w, a) <= unsigned(w, b),
    ensures
        units(w, a) <= units(w, b),
{
    parts_of(w, a);
    parts_of(w, b);
    formats(w);
    let f = fraction_bits(w);
    let unit = pow2(f) as int;
    let (s, t) = (significand(w, a) as int, significand(w, b) as int);
    let (x, y) = (exponent(w, a) - lowest(w), exponent(w, b) - lowest(w));
    lemma_pow2_pos(x as nat);
    lemma_pow2_pos(y as nat);
    if x == y {
        assert(s * pow2(x as nat) <= t * pow2(x as nat)) by (nonlinear_arith)
            requires
                s <= t,
                pow2(x as nat) > 0,
        ;
    } else if x < y {
        let d = (y - x - 1) as nat;
        lemma_pow2_adds(d, (x + 1) as nat);
        lemma_pow2_unfold((x + 1) as nat);
        lemma_pow2_pos(d);
        let p = pow2(x as nat) as int;
        let q = pow2(d) as int;
        assert(pow2(y as nat) == q * (2 * p));
        assert(s * p <= t * (q * (2 * p))) by (nonlinear_arith)
            requires
                0 <= s <= 2 * unit,
                t >= unit,
                unit > 0,
                q >= 1,
                p >= 1,
        {
            assert(s * p <= 2 * unit * p);
            assert(t * q >= unit);
            assert(t * q * (2 * p) >= unit * (2 * p));
            assert(t * (q * (2 * p)) == t * q * (2 * p));
        }
    } else {
        assert(x * unit >= (y + 1) * unit) by (nonlinear_arith)
            requires
                x >= y + 1,
                unit > 0,
        ;
        assert((y + 1) * unit == y * unit + unit) by (nonlinear_arith);
        // The significand of `a` has its leading bit, so its pattern would be larger.
        assert(s >= unit);
    }
}

/// A value on a coarser grid, in units.
pub proof fn nearest_in_units(w: Width, n: nat, e: int)
    requires
        e >= lowest(w),
    ensures
        nearest(w, n, false, e) == pattern(w, n * pow2((e - lowest(w)) as nat)),
{
    nearest_of_shifted(w, n, (e - lowest(w)) as nat, e);
}

/// How many places a whole number can be moved without leaving the range.
pub open spec fn reach(w: Width) -> nat {
    match w {
        Width::Single => 200,
        Width::Double => 1900,
    }
}

/// A number of units with few enough digits is met exactly.
pub proof fn exact_units(w: Width, m: nat, k: nat)
    requires
        0 < m < pow2(fraction_bits(w) + 1),
        k <= reach(w),
    ensures
        0 <= pattern(w, m * pow2(k)) < infinity(w),
        finite(w, pattern(w, m * pow2(k)) as u64),
        !negative(w, pattern(w, m * pow2(k)) as u64),
        units(w, pattern(w, m * pow2(k)) as u64) == m * pow2(k),
{
    formats(w);
    let f = fraction_bits(w);
    let unit = pow2(f);
    let n = m * pow2(k);
    lemma_pow2_pos(k);
    lemma_pow2_unfold(f + 1);
    bit_length_bounds(m);
    bit_length_shifted(m, k, 0);
    let b = bit_length(m);
    if b > f + 1 {
        if f + 1 < b - 1 {
            lemma_pow2_strictly_increases(f + 1, (b - 1) as nat);
        }
    }
    assert(n > 0) by (nonlinear_arith)
        requires
            n == m * pow2(k),
            m > 0,
            pow2(k) > 0,
    ;
    bit_length_bounds(n);
    let s = dropped(w, n, lowest(w));
    let r = pattern(w, n);
    if bit_length(n) <= f + 1 {
        assert(s == 0);
        if bit_length(n) < f + 1 {
            lemma_pow2_strictly_increases(bit_length(n), f + 1);
        }
        assert(n * pow2(0) == n);
        assert(r == n);
        assert(units(w, r as u64) == n) by {
            if n < unit {
                lemma_fundamental_div_mod_converse(n as int, unit as int, 0, n as int);
            } else {
                lemma_fundamental_div_mod_converse(n as int, unit as int, 1, n - unit);
            }
        }
    } else {
        let d = s as nat;
        assert(s == bit_length(n) - (f + 1));
        assert(d <= k);
        let c = m * pow2((k - d) as nat);
        lemma_pow2_adds((k - d) as nat, d);
        assert(n == c * pow2(d)) by (nonlinear_arith)
            requires
                n == m * pow2(k),
                c == m * pow2((k - d) as nat),
                pow2(k) == pow2((k - d) as nat) * pow2(d),
        ;
        rounded_exactly(c, d);
        lemma_pow2_pos((k - d) as nat);
        bit_length_shifted(m, (k - d) as nat, 0);
        assert(bit_length(c) == f + 1);
        assert(c > 0) by (nonlinear_arith)
            requires
                c == m * pow2((k - d) as nat),
                m > 0,
                pow2((k - d) as nat) > 0,
        ;
        bit_length_bounds(c);
        assert(unit <= c < 2 * unit);
        let p = c + d * unit;
        assert(p == (d + 1) * unit + (c - unit)) by (nonlinear_arith)
            requires
                p == c + d * unit,
        ;
        assert(p < (reach(w) + 2) * unit) by (nonlinear_arith)
            requires
                p == c + d * unit,
                d <= reach(w),
                c < 2 * unit,
                unit > 0,
        ;
        assert((reach(w) + 2) * unit < infinity(w));
        assert(r == p);
        lemma_fundamental_div_mod_converse(p as int, unit as int, (d + 1) as int, c - unit);
        assert(significand(w, r as u64) == c);
        assert(exponent(w, r as u64) == d + lowest(w));
    }
}

/// A number of units between two that are met exactly has a number nearest to it between
/// them.
pub proof fn pattern_between(w: Width, lo: nat, u: nat, hi: nat, k: nat)
    requires
        0 < lo,
        hi < pow2(fraction_bits(w) + 1),
        k <= reach(w),
        lo * pow2(k) <= u <= hi * pow2(k),
    ensures
        0 <= pattern(w, u) < infinity(w),
        finite(w, pattern(w, u) as u64),
        !negative(w, pattern(w, u) as u64),
        lo * pow2(k) <= units(w, pattern(w, u) as u64) <= hi * pow2(k),
{
    formats(w);
    lemma_pow2_pos(k);
    assert(lo <= hi) by (nonlinear_arith)
        requires
            lo * pow2(k) <= hi * pow2(k),
            pow2(k) > 0,
    ;
    exact_units(w, lo, k);
    exact_units(w, hi, k);
    nearest_keeps_order(w, lo * pow2(k), u, lowest(w));
    nearest_keeps_order(w, u, hi * pow2(k), lowest(w));
    let (a, b, c) = (
        pattern(w, lo * pow2(k)) as u64,
        pattern(w, u) as u64,
        pattern(w, hi * pow2(k)) as u64,
    );
    units_keep_order(w, a, b);
    units_keep_order(w, b, c);
}

/// The units of a product before it is rounded.
pub proof fn product_in_units(w: Width, a: u64, b: u64, u: nat)
    requires
        finite(w, a),
        finite(w, b),
        !negative(w, a),
        !negative(w, b),
        exponent(w, a) + exponent(w, b) >= lowest(w),
        u * pow2((-lowest(w)) as nat) == units(w, a) * units(w, b),
    ensures
        product(w, a, b) == pattern(w, u) as u64,
{
    parts_of(w, a);
    parts_of(w, b);
    let l = (-lowest(w)) as nat;
    let (x, y) = ((exponent(w, a) + l) as nat, (exponent(w, b) + l) as nat);
    let z = (exponent(w, a) + exponent(w, b) + l) as nat;
    let (s, t) = (significand(w, a), significand(w, b));
    lemma_pow2_adds(x, y);
    lemma_pow2_adds(z, l);
    assert(x + y == z + l);
    let n = s * t;
    assert(s * pow2(x) * (t * pow2(y)) == n * (pow2(x) * pow2(y))) by (nonlinear_arith)
        requires
            n == s * t,
    ;
    lemma_pow2_pos(l);
    assert(u == n * pow2(z)) by (nonlinear_arith)
        requires
            u * pow2(l) == n * (pow2(z) * pow2(l)),
            pow2(l) > 0,
    ;
    nearest_in_units(w, n, exponent(w, a) + exponent(w, b));
}

/// The units of a sum before it is rounded.
pub proof fn sum_in_units(w: Width, a: u64, b: u64)
    requires
        finite(w, a),
        finite(w, b),
        !negative(w, a),
        !negative(w, b),
    ensures
        sum(w, a, b) == pattern(w, units(w, a) + units(w, b)) as u64,
{
    parts_of(w, a);
    parts_of(w, b);
    let e = common_exponent(w, a, b);
    let c = (e - lowest(w)) as nat;
    let (x, y) = ((exponent(w, a) - e) as nat, (exponent(w, b) - e) as nat);
    let (s, t) = (significand(w, a), significand(w, b));
    lemma_pow2_adds(x, c);
    lemma_pow2_adds(y, c);
    assert(s * pow2(x) * pow2(c) == s * (pow2(x) * pow2(c))) by (nonlinear_arith);
    assert(t * pow2(y) * pow2(c) == t * (pow2(y) * pow2(c))) by (nonlinear_arith);
    let n = s * pow2(x) + t * pow2(y);
    assert(n * pow2(c) == s * pow2(x) * pow2(c) + t * pow2(y) * pow2(c)) by (nonlinear_arith)
        requires
            n == s * pow2(x) + t * pow2(y),
    ;
    nearest_in_units(w, n, e);
}

/// The units of a difference before it is rounded.
pub proof fn difference_in_units(w: Width, a: u64, b: u64)
    requires
        finite(w, a),
        finite(w, b),
        !negative(w, a),
        !negative(w, b),
        units(w, b) <= units(w, a),
    ensures
        sum(w, a, opposite(w, b)) == pattern(w, (units(w, a) - units(w, b)) as nat) as u64,
{
    let c = opposite(w, b);
    assert(finite(w, c) && negative(w, c) && unsigned(w, c) == unsigned(w, b));
    parts_of(w, a);
    parts_of(w, b);
    let e = common_exponent(w, a, b);
    let k = (e - lowest(w)) as nat;
    let (x, y) = ((exponent(w, a) - e) as nat, (exponent(w, b) - e) as nat);
    let (s, t) = (significand(w, a), significand(w, b));
    lemma_pow2_adds(x, k);
    lemma_pow2_adds(y, k);
    lemma_pow2_pos(k);
    let (p, q) = (s * pow2(x), t * pow2(y));
    assert(p * pow2(k) == s * (pow2(x) * pow2(k))) by (nonlinear_arith)
        requires
            p == s * pow2(x),
    ;
    assert(q * pow2(k) == t * (pow2(y) * pow2(k))) by (nonlinear_arith)
        requires
            q == t * pow2(y),
    ;
    assert(q <= p) by (nonlinear_arith)
        requires
            q * pow2(k) <= p * pow2(k),
            pow2(k) > 0,
    ;
    let n = (p - q) as nat;
    assert(n * pow2(k) == p * pow2(k) - q * pow2(k)) by (nonlinear_arith)
        requires
            n == p - q,
    ;
    nearest_in_units(w, n, e);
}

/// The whole part of a number by its units.
pub proof fn whole_part_in_units(w: Width, a: u64)
    requires
        finite(w, a),
    ensures
        whole_part(w, a) == units(w, a) / pow2((-lowest(w)) as nat),
{
    parts_of(w, a);
    let l = (-lowest(w)) as nat;
    let e = exponent(w, a);
    let s = significand(w, a);
    lemma_pow2_pos(l);
    let x = (e + l) as nat;
    lemma_pow2_pos(x);
    if e >= 0 {
        lemma_pow2_adds(e as nat, l);
        let q = s * pow2(e as nat);
        assert(s * pow2(x) == q * pow2(l)) by (nonlinear_arith)
            requires
                q == s * pow2(e as nat),
                pow2(x) == pow2(e as nat) * pow2(l),
        ;
        lemma_fundamental_div_mod_converse((s * pow2(x)) as int, pow2(l) as int, q as int, 0);
    } else {
        let y = (-e) as nat;
        lemma_pow2_pos(y);
        lemma_pow2_adds(y, x);
        lemma_fundamental_div_mod(s as int, pow2(y) as int);
        let q = s / pow2(y);
        let r = s % pow2(y);
        assert(s * pow2(x) == q * (pow2(y) * pow2(x)) + r * pow2(x)) by (nonlinear_arith)
            requires
                s == pow2(y) * q + r,
        ;
        assert(0 <= r * pow2(x) < pow2(y) * pow2(x)) by (nonlinear_arith)
            requires
                0 <= r < pow2(y),
                pow2(x) > 0,
        ;
        lemma_fundamental_div_mod_converse(
            (s * pow2(x)) as int,
            pow2(l) as int,
            q as int,
            (r * pow2(x)) as int,
        );
    }
}

} // verus!
