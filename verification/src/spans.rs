//! Bounds by powers of two: how large a product, a sum or a quotient can be, and how small.
use vstd::arithmetic::div_mod::*;
use vstd::arithmetic::power2::*;
use vstd::prelude::*;

use crate::exact::{finite, formats, nearest_keeps_order, nearest_with_more, parts_of};
use crate::float::{
    exponent, lowest, nearest, negative, of_integer, product, quotient, significand, sum, zero,
    Width,
};
use crate::units::{
    exact_units, nearest_in_units, pattern, product_in_units, sum_in_units, units,
    units_keep_order,
};
use crate::wholes::{is_small, whole_number};

verus! {

/// A positive number from `2^low` to `2^high`.
pub open spec fn lies(a: u64, low: int, high: int) -> bool {
    &&& finite(Width::Double, a)
    &&& !negative(Width::Double, a)
    &&& pow2((1074 + low) as nat) <= units(Width::Double, a) <= pow2((1074 + high) as nat)
}

/// Bounds that are far from the ends of the range.
pub open spec fn is_span(low: int, high: int) -> bool {
    -200 <= low <= high <= 200
}

proof fn grows(i: nat, j: nat)
    requires
        i <= j,
    ensures
        0 < pow2(i) <= pow2(j),
{
    lemma_pow2_pos(i);
    if i < j {
        lemma_pow2_strictly_increases(i, j);
    }
}

/// What lies between bounds is not zero, and its last digit is not far below the lower one.
pub proof fn last_digit(a: u64, low: int, high: int)
    requires
        lies(a, low, high),
        is_span(low, high),
    ensures
        exponent(Width::Double, a) >= low - 53,
        !zero(Width::Double, a),
{
    let w = Width::Double;
    formats(w);
    parts_of(w, a);
    let s = significand(w, a);
    let x = exponent(w, a) + 1074;
    lemma_pow2_unfold(53);
    lemma_pow2_pos((1074 + low) as nat);
    lemma_pow2_pos(x as nat);
    if s == 0 {
        assert(0 * pow2(x as nat) == 0) by (nonlinear_arith);
    }
    if x < 1074 + low - 53 {
        lemma_pow2_adds(53, x as nat);
        grows((53 + x) as nat, (1074 + low) as nat);
        assert(s * pow2(x as nat) < pow2(53) * pow2(x as nat)) by (nonlinear_arith)
            requires
                s < pow2(53),
                pow2(x as nat) > 0,
        ;
    }
}

/// A number of units between bounds has the number nearest to it between them.
proof fn pattern_lies(u: nat, low: int, high: int)
    requires
        is_span(low, high),
        pow2((1074 + low) as nat) <= u <= pow2((1074 + high) as nat),
    ensures
        lies(pattern(Width::Double, u) as u64, low, high),
{
    let w = Width::Double;
    formats(w);
    lemma_pow2_unfold(53);
    let (i, j) = ((1074 + low) as nat, (1074 + high) as nat);
    exact_units(w, 1, i);
    exact_units(w, 1, j);
    nearest_keeps_order(w, pow2(i), u, lowest(w));
    nearest_keeps_order(w, u, pow2(j), lowest(w));
    let v = pattern(w, u) as u64;
    units_keep_order(w, pattern(w, pow2(i)) as u64, v);
    units_keep_order(w, v, pattern(w, pow2(j)) as u64);
}

/// A product of two numbers between bounds.
pub proof fn product_lies(a: u64, b: u64, l1: int, h1: int, l2: int, h2: int)
    requires
        lies(a, l1, h1),
        lies(b, l2, h2),
        is_span(l1, h1),
        is_span(l2, h2),
        is_span(l1 + l2, h1 + h2),
    ensures
        lies(product(Width::Double, a, b), l1 + l2, h1 + h2),
{
    let w = Width::Double;
    last_digit(a, l1, h1);
    last_digit(b, l2, h2);
    parts_of(w, a);
    parts_of(w, b);
    let (x, y) = ((exponent(w, a) + 1074) as nat, (exponent(w, b) + 1074) as nat);
    let z = (exponent(w, a) + exponent(w, b) + 1074) as nat;
    let (s, t) = (significand(w, a), significand(w, b));
    let u = s * t * pow2(z);
    lemma_pow2_adds(x, y);
    lemma_pow2_adds(z, 1074);
    assert(u * pow2(1074) == (s * pow2(x)) * (t * pow2(y))) by (nonlinear_arith)
        requires
            u == s * t * pow2(z),
            pow2(z) * pow2(1074) == pow2(x) * pow2(y),
    ;
    product_in_units(w, a, b, u);
    let (i, j) = ((1074 + l1) as nat, (1074 + l2) as nat);
    let (k, l) = ((1074 + h1) as nat, (1074 + h2) as nat);
    let (m, n) = ((1074 + l1 + l2) as nat, (1074 + h1 + h2) as nat);
    lemma_pow2_adds(i, j);
    lemma_pow2_adds(k, l);
    lemma_pow2_adds(m, 1074);
    lemma_pow2_adds(n, 1074);
    lemma_pow2_pos(1074);
    let (p, q) = (units(w, a), units(w, b));
    assert(pow2(m) <= u) by (nonlinear_arith)
        requires
            u * pow2(1074) == p * q,
            pow2(i) <= p,
            pow2(j) <= q,
            pow2(i) * pow2(j) == pow2(m) * pow2(1074),
            pow2(1074) > 0,
    {
        assert(p * q >= pow2(i) * pow2(j));
    }
    assert(u <= pow2(n)) by (nonlinear_arith)
        requires
            u * pow2(1074) == p * q,
            p <= pow2(k),
            q <= pow2(l),
            pow2(k) * pow2(l) == pow2(n) * pow2(1074),
            pow2(1074) > 0,
    {
        assert(p * q <= pow2(k) * pow2(l));
    }
    pattern_lies(u, l1 + l2, h1 + h2);
}

/// A sum of two numbers between bounds.
pub proof fn sum_lies(a: u64, b: u64, l1: int, l2: int, high: int)
    requires
        lies(a, l1, high),
        lies(b, l2, high),
        is_span(l1, high),
        is_span(l2, high + 1),
    ensures
        lies(sum(Width::Double, a, b), l2, high + 1),
{
    let w = Width::Double;
    sum_in_units(w, a, b);
    lemma_pow2_unfold((1075 + high) as nat);
    pattern_lies(units(w, a) + units(w, b), l2, high + 1);
}

/// A quotient of two whole numbers, the first up to `2^high` and the second up to
/// `2^depth`.
pub proof fn ratio_lies(n: nat, m: nat, high: nat, depth: nat)
    requires
        is_small(n),
        is_small(m),
        n <= pow2(high),
        m <= pow2(depth),
        high <= 52,
        depth <= 52,
    ensures
        lies(
            quotient(
                Width::Double,
                of_integer(Width::Double, n as int),
                of_integer(Width::Double, m as int),
            ),
            -depth,
            high as int,
        ),
{
    let w = Width::Double;
    formats(w);
    whole_number(n);
    whole_number(m);
    let (a, b) = (of_integer(w, n as int), of_integer(w, m as int));
    parts_of(w, a);
    parts_of(w, b);
    let (s, t) = (significand(w, a), significand(w, b));
    let (x, y) = ((exponent(w, a) + 1074) as nat, (exponent(w, b) + 1074) as nat);
    let e = exponent(w, a) - exponent(w, b) - 128;
    let c = s * pow2(128);
    let q = c / t;
    let i = (e + 1074) as nat;
    let z = pow2(1074);
    lemma_pow2_pos(1074);
    lemma_pow2_pos(x);
    lemma_pow2_pos(y);
    lemma_pow2_pos(high);
    lemma_pow2_pos(depth);
    assert(t > 0) by (nonlinear_arith)
        requires
            t * pow2(y) == m * z,
            m > 0,
            z > 0,
    ;
    lemma_fundamental_div_mod(c as int, t as int);
    lemma_mod_bound(c as int, t as int);
    let (j, k) = ((1074 - depth) as nat, (1074 + high) as nat);
    let (f, g) = ((j - i) as nat, (k - i) as nat);
    lemma_pow2_adds(f, i);
    lemma_pow2_adds(g, i);
    lemma_pow2_adds(128, y);
    lemma_pow2_adds(f, x);
    lemma_pow2_adds(f + x, depth);
    lemma_pow2_adds(g, x);
    lemma_pow2_adds(128 + y, high);
    assert(f + x + depth == 128 + y);
    assert(g + x == 128 + y + high);
    let (lo, hi) = (pow2(f), pow2(g));
    assert(t * lo <= c) by (nonlinear_arith)
        requires
            c == s * pow2(128),
            s * pow2(x) == n * z,
            t * pow2(y) == m * z,
            n >= 1,
            m <= pow2(depth),
            lo * pow2(x) * pow2(depth) == pow2(128) * pow2(y),
            z > 0,
            pow2(x) > 0,
            pow2(depth) > 0,
    {
        assert(t * pow2(y) <= s * pow2(x) * pow2(depth)) by {
            assert(m * z <= pow2(depth) * z);
            assert(s * pow2(x) >= z);
            assert(s * pow2(x) * pow2(depth) >= z * pow2(depth));
        }
        let r = pow2(x) * pow2(depth);
        assert(t * lo * r == t * pow2(y) * pow2(128));
        assert(c * r == s * pow2(x) * pow2(depth) * pow2(128));
        assert(t * lo * r <= c * r);
    }
    assert(c <= t * hi) by (nonlinear_arith)
        requires
            c == s * pow2(128),
            s * pow2(x) == n * z,
            t * pow2(y) == m * z,
            n <= pow2(high),
            m >= 1,
            hi * pow2(x) == pow2(128) * pow2(y) * pow2(high),
            z > 0,
            pow2(x) > 0,
            pow2(high) > 0,
    {
        assert(s * pow2(x) <= t * pow2(y) * pow2(high)) by {
            assert(n * z <= pow2(high) * z);
            assert(t * pow2(y) >= z);
            assert(t * pow2(y) * pow2(high) >= z * pow2(high));
        }
        assert(t * hi * pow2(x) == t * pow2(y) * pow2(high) * pow2(128));
        assert(c * pow2(x) == s * pow2(x) * pow2(128));
        assert(c * pow2(x) <= t * hi * pow2(x));
    }
    assert(lo <= q) by (nonlinear_arith)
        requires
            t * lo <= c,
            c < t * q + t,
            t > 0,
    ;
    let more = c % t != 0;
    assert(q <= hi && (more ==> q + 1 <= hi)) by (nonlinear_arith)
        requires
            c <= t * hi,
            c == t * q + c % t,
            0 <= c % t,
            more == (c % t != 0),
            t > 0,
    ;
    lemma_pow2_unfold(53);
    exact_units(w, 1, j);
    exact_units(w, 1, k);
    nearest_in_units(w, lo, e);
    nearest_in_units(w, hi, e);
    nearest_with_more(w, q, more, e);
    nearest_keeps_order(w, lo, q, e);
    nearest_keeps_order(w, q, hi, e);
    if more {
        nearest_keeps_order(w, q + 1, hi, e);
    }
    let v = nearest(w, q, more, e);
    units_keep_order(w, pattern(w, pow2(j)) as u64, v as u64);
    units_keep_order(w, v as u64, pattern(w, pow2(k)) as u64);
}

} // verus!
