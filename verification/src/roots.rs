//! How near a square root is.
use vstd::arithmetic::power2::*;
use vstd::prelude::*;

use crate::binary::Real;
use crate::exact::{
    formats, is_number, nearest_keeps_order, nearest_of_shifted, nearest_with_more, parts_of,
};
use crate::float::{
    bit_length, bit_length_bounds, exponent, nearest, negative, of_integer, root_floor, signed,
    significand, Width,
};
use crate::growth::larger_product;
use crate::nearness::slack_is_small;
use crate::units::{exact_units, nearest_in_units};
use crate::value::{
    magnitude, magnitude_by_parts, modest, modest_length, nearest_is_near, power, power_adds,
    signed_rounds, slack, value,
};
use crate::wholes::{is_small, whole_number};

verus! {

/// Every number has a whole root.
pub proof fn root_exists(n: nat)
    ensures
        root_floor(n) * root_floor(n) <= n < (root_floor(n) + 1) * (root_floor(n) + 1),
    decreases n,
{
    if n == 0 {
        let r: nat = 0;
        assert(r * r == 0 && (r + 1) * (r + 1) == 1) by (nonlinear_arith)
            requires
                r == 0,
        ;
        assert(r * r <= n < (r + 1) * (r + 1));
    } else {
        root_exists((n - 1) as nat);
        let k = root_floor((n - 1) as nat);
        if n < (k + 1) * (k + 1) {
            assert(k * k <= n < (k + 1) * (k + 1));
        } else {
            let m = k + 1;
            assert((m + 1) * (m + 1) > m * m) by (nonlinear_arith)
                requires
                    m >= 0,
            ;
            assert(m * m <= n < (m + 1) * (m + 1));
        }
    }
}

/// The number under the root of a pattern, moved by an even number of places.
spec fn under(a: u64) -> nat {
    let e = exponent(Width::Double, a);
    let s = significand(Width::Double, a);
    if e % 2 == 0 {
        s * pow2(128)
    } else {
        2 * s * pow2(128)
    }
}

/// What a whole root counts.
spec fn root_unit(a: u64) -> real {
    power((exponent(Width::Double, a) / 2 - 64 + 2148) as nat) / power(2148)
}

/// The number under the root, in units of the square of what the root counts, is the value.
proof fn under_is(a: u64)
    requires
        is_number(Real { bits: a }),
    ensures
        under(a) as real * (root_unit(a) * root_unit(a)) == magnitude(a),
        root_unit(a) > 0real,
        exponent(Width::Double, a) >= -1074,
{
    let w = Width::Double;
    magnitude_by_parts(a);
    let (s, e) = (significand(w, a), exponent(w, a));
    let f = (e / 2 - 64 + 2148) as nat;
    let x = (e + 1074) as nat;
    let (p, q, one) = (power(f), power(2148), power(1074));
    power_adds(f, f);
    power_adds(2148, 2148);
    power_adds(1074, 3222);
    power_adds(x, 3222);
    lemma_pow2_pos(1074);
    let r = root_unit(a);
    assert(r > 0real) by (nonlinear_arith)
        requires
            r == p / q,
            p > 0real,
            q > 0real,
    ;
    assert(r * r == (p * p) / (q * q)) by (nonlinear_arith)
        requires
            r == p / q,
            q > 0real,
    ;
    let t = if e % 2 == 0 {
        s
    } else {
        2 * s
    };
    let n = t * pow2(128);
    assert(n as real == t as real * power(128)) by (nonlinear_arith)
        requires
            n == t * pow2(128),
    ;
    assert(under(a) == n);
    power_adds(128, f + f);
    let g = power(f + f);
    let all = power(4296);
    lemma_pow2_pos(4296);
    // Either way the places add up.
    if e % 2 == 0 {
        assert(128 + f + f == x + 3222);
        assert(t as real * (power(128) * g) == s as real * (power(x) * power(3222)));
    } else {
        assert(128 + f + f + 1 == x + 3222);
        lemma_pow2_unfold(x + 3222);
        assert(power(x + 3222) == 2real * power(128 + f + f));
        let (sr, z) = (s as real, power(128 + f + f));
        assert((2real * sr) * z == sr * (2real * z)) by (nonlinear_arith);
    }
    let (tr, sr, u, v, k) = (t as real, s as real, power(128), power(x), power(3222));
    assert((tr * u) * (g / all) == (tr * (u * g)) / all) by (nonlinear_arith)
        requires
            all > 0real,
    ;
    assert((sr * (v * k)) / (one * k) == sr * v / one) by (nonlinear_arith)
        requires
            one > 0real,
            k > 0real,
    ;
}

/// A whole root of what is moved up far is long.
pub proof fn whole_root_is_long(s: nat, n: nat, k: nat)
    requires
        s > 0,
        n == s * pow2(128) || n == 2 * s * pow2(128),
        n < (k + 1) * (k + 1),
    ensures
        k >= pow2(64),
{
    lemma_pow2_adds(64, 64);
    lemma_pow2_pos(128);
    let h = pow2(64);
    assert(n >= h * h) by (nonlinear_arith)
        requires
            s >= 1,
            n == s * (h * h) || n == 2 * s * (h * h),
            h >= 0,
    ;
    if k < h {
        assert((k + 1) * (k + 1) <= h * h) by (nonlinear_arith)
            requires
                0 <= k + 1 <= h,
        ;
    }
}

/// A root of what is at least 1, with a step that is small.
proof fn root_bounds(x: real, r: real, step: real, va: real)
    requires
        x >= 0real,
        0real < r <= step,
        step == x / 1125899906842624real,
        x * x <= va <= (x + r) * (x + r),
        va >= 1real,
    ensures
        x >= (1real / 2real),
        va <= x * x + 3real * (x * x) / 1125899906842624real,
        2real * x <= va + 1real,
{
    let q = x * x;
    larger_product(x + r, x + step, x + r);
    larger_product(x + r, x + step, x + step);
    assert((x + step) * (x + step) == x * x + 2real * (x * step) + step * step) by (nonlinear_arith);
    assert(x * (x / 1125899906842624real) == (x * x) / 1125899906842624real) by (nonlinear_arith);
    assert((x / 1125899906842624real) * (x / 1125899906842624real) == ((x * x) / 1125899906842624real)
        / 1125899906842624real) by (nonlinear_arith);
    if x < (1real / 2real) {
        larger_product(x, (1real / 2real), x);
    }
    assert((x - 1real) * (x - 1real) >= 0real) by (nonlinear_arith);
    assert((x - 1real) * (x - 1real) == x * x - 2real * x + 1real) by (nonlinear_arith);
    larger_product(0real, x, x);
    assert(0real * x == 0real);
}

/// The square root of a number from 1 on: its square is no less than the number, but for one
/// part in 2^40.
pub proof fn root_is_near(a: Real)
    requires
        modest(a),
        value(a) >= 1real,
    ensures
        ({
            let r = value(a.root());
            &&& is_number(a.root())
            &&& !negative(Width::Double, a.root().bits)
            &&& r * r >= value(a) - value(a) / 1099511627776real
            &&& 0real <= r <= value(a) + 1real
        }),
{
    let w = Width::Double;
    reveal(Real::spec_root);
    magnitude_by_parts(a.bits);
    under_is(a.bits);
    lemma_pow2_pos(1074);
    let (s, e) = (significand(w, a.bits), exponent(w, a.bits));
    let n = under(a.bits);
    root_exists(n);
    let k = root_floor(n);
    let more = k * k != n;
    let f = e / 2 - 64;
    let v = nearest(w, k, more, f);
    if s == 0 {
        let (p, one) = (power((e + 1074) as nat), power(1074));
        assert(0real * p / one == 0real) by (nonlinear_arith)
            requires
                one > 0real,
        ;
    }
    assert(a.root().bits == signed(w, false, v));
    // The whole root is long.
    whole_root_is_long(s, n, k);
    lemma_pow2_pos(64);
    bit_length_bounds(k);
    if bit_length(k) <= 53 {
        lemma_pow2_strictly_increases(bit_length(k), 64);
    }
    let (c, r, va) = (k as real, root_unit(a.bits), value(a));
    let kk = k * k;
    let mm = (k + 1) * (k + 1);
    assert(kk as real == c * c && mm as real == (c + 1real) * (c + 1real)) by (nonlinear_arith)
        requires
            kk == k * k,
            mm == (k + 1) * (k + 1),
            c == k as real,
    ;
    let x = c * r;
    larger_product(0real, r, r);
    assert(0real * r == 0real);
    larger_product(c * c, n as real, r * r);
    larger_product(n as real, (c + 1real) * (c + 1real), r * r);
    assert((c * c) * (r * r) == (c * r) * (c * r)) by (nonlinear_arith);
    assert(((c + 1real) * (c + 1real)) * (r * r) == (c * r + r) * (c * r + r)) by (nonlinear_arith);
    assert(x * x <= va <= (x + r) * (x + r));
    // One more makes little difference.
    lemma2_to64();
    lemma2_to64_rest();
    larger_product(1125899906842624real, c, r);
    let step = x / 1125899906842624real;
    assert(r <= step);
    larger_product(0real, c, r);
    root_bounds(x, r, step, va);
    // The number nearest to the root.
    let y = if more {
        c + (1real / 2real)
    } else {
        c
    };
    assert(0real * y == 0real);
    larger_product(c, y, r);
    larger_product(y, c + 1real, r);
    assert((c + 1real) * r == c * r + r) by (nonlinear_arith);
    let (p, q) = (power((f + 2148) as nat), power(2148));
    lemma_pow2_pos(2148);
    lemma_pow2_pos((f + 2148) as nat);
    assert(y * p / q == y * (p / q)) by (nonlinear_arith)
        requires
            q > 0real,
    ;
    // It is not large.
    slack_is_small(0real, 0real);
    assert(x <= 1152921504606846976real);
    power_adds(60, 2148);
    assert(c * p / q == c * (p / q)) by (nonlinear_arith)
        requires
            q > 0real,
    ;
    quotient_back(c * p, q);
    larger_product(c * (p / q), power(60), q);
    modest_length(k, f, 60);
    nearest_is_near(k, more, f, y);
    let z = y * r;
    signed_rounds(false, v, z);
    slack_is_tiny(z);
    let m = value(a.root());
    let unit = z / 4503599627370496real;
    assert(z - unit <= m <= z + unit);
    let low = x - x / 1125899906842624real;
    assert(low <= m);
    larger_product(low, m, low);
    larger_product(low, m, m);
    square_of_less(x);
}

proof fn quotient_back(x: real, q: real)
    requires
        q > 0real,
    ensures
        (x / q) * q == x,
{
    assert((x / q) * q == x) by (nonlinear_arith)
        requires
            q > 0real,
    ;
}

/// Rounding moves what is not small by little.
proof fn slack_is_tiny(z: real)
    requires
        z >= 1real / 2real,
    ensures
        slack(z) <= z / 4503599627370496real,
{
    lemma2_to64();
    lemma2_to64_rest();
    lemma_pow2_strictly_increases(60, 1074);
    let (p, q) = (power(53), power(1074));
    assert(p == 9007199254740992real);
    assert(1real / q <= 1real / 1152921504606846976real) by (nonlinear_arith)
        requires
            q > 1152921504606846976real,
    ;
}

proof fn square_of_less(x: real)
    ensures
        (x - x / 1125899906842624real) * (x - x / 1125899906842624real) >= x * x - 2real * (x * x)
            / 1125899906842624real,
{
    let s = x / 1125899906842624real;
    assert((x - s) * (x - s) == x * x - 2real * (x * s) + s * s) by (nonlinear_arith);
    assert(x * (x / 1125899906842624real) == (x * x) / 1125899906842624real) by (nonlinear_arith);
    assert(s * s >= 0real) by (nonlinear_arith);
}

/// The number under the root of a whole number is the number itself, moved.
proof fn under_whole(n: nat)
    requires
        is_small(n),
    ensures
        ({
            let a = of_integer(Width::Double, n as int);
            let f = (64 - exponent(Width::Double, a) / 2) as nat;
            &&& exponent(Width::Double, a) <= 0
            &&& under(a) == n * (pow2(f) * pow2(f))
        }),
{
    let w = Width::Double;
    whole_number(n);
    let a = of_integer(w, n as int);
    parts_of(w, a);
    let (s, e) = (significand(w, a), exponent(w, a));
    let (x, y) = ((e + 1074) as nat, (-e) as nat);
    lemma_pow2_adds(x, y);
    lemma_pow2_pos(x);
    assert(s == n * pow2(y)) by (nonlinear_arith)
        requires
            s * pow2(x) == n * (pow2(x) * pow2(y)),
            pow2(x) > 0,
    ;
    let f = (64 - e / 2) as nat;
    lemma_pow2_adds(f, f);
    lemma_pow2_adds(y, 128);
    let (p, q) = (pow2(y), pow2(128));
    assert(n * p * q == n * (p * q)) by (nonlinear_arith);
    if e % 2 == 0 {
        assert(f + f == y + 128);
    } else {
        assert(f + f == y + 128 + 1);
        lemma_pow2_unfold(f + f);
        assert(2 * (n * p) * q == n * (2 * (p * q))) by (nonlinear_arith);
    }
}

/// The square root of a whole number that is not zero is at most a whole number with a square
/// that is no smaller.
proof fn whole_root_at_most(n: nat, m: nat)
    requires
        is_small(n),
        is_small(m),
        n <= m * m,
    ensures
        !Real::nearest_to(m as int).below(Real::nearest_to(n as int).root()),
{
    let w = Width::Double;
    reveal(Real::nearest_to);
    reveal(Real::spec_root);
    whole_number(n);
    whole_number(m);
    under_whole(n);
    let a = of_integer(w, n as int);
    let e = exponent(w, a);
    let f = (64 - e / 2) as nat;
    let u = under(a);
    root_exists(u);
    let k = root_floor(u);
    let more = k * k != u;
    let g = pow2(f);
    let h = m * g;
    assert(u <= h * h) by (nonlinear_arith)
        requires
            u == n * (g * g),
            h == m * g,
            n <= m * m,
    ;
    if k > h {
        assert(k * k > h * h) by (nonlinear_arith)
            requires
                k > h,
                h >= 0,
        ;
    }
    nearest_keeps_order(w, k, h, e / 2 - 64);
    if more {
        nearest_keeps_order(w, k + 1, h, e / 2 - 64);
    }
    nearest_with_more(w, k, more, e / 2 - 64);
    nearest_of_shifted(w, m, f, 0);
    parts_of(w, a);
}

/// The square root of a whole number is at most a whole number with a square that is no
/// smaller.
pub proof fn root_at_most(n: nat, m: nat)
    requires
        n < 0x20_0000_0000_0000,
        is_small(m),
        n <= m * m,
    ensures
        !Real::nearest_to(m as int).below(Real::nearest_to(n as int).root()),
{
    reveal(Real::nearest_to);
    reveal(Real::spec_root);
    whole_number(m);
    if n > 0 {
        whole_root_at_most(n, m);
    }
}

/// The square root of a whole number is above a whole number with a square that is smaller.
pub proof fn root_above(n: nat, m: nat)
    requires
        is_small(n),
        0 < m <= 2048,
        n > m * m,
    ensures
        Real::nearest_to(m as int).below(Real::nearest_to(n as int).root()),
{
    let w = Width::Double;
    reveal(Real::nearest_to);
    reveal(Real::spec_root);
    formats(w);
    lemma2_to64();
    whole_number(n);
    whole_number(m);
    under_whole(n);
    let a = of_integer(w, n as int);
    let e = exponent(w, a);
    let f = (64 - e / 2) as nat;
    let u = under(a);
    root_exists(u);
    let k = root_floor(u);
    let more = k * k != u;
    let c = 8192 * m + 1;
    let g = pow2((f - 13) as nat);
    let h = c * g;
    lemma_pow2_adds(13, (f - 13) as nat);
    assert(c * c <= 67108864 * n) by (nonlinear_arith)
        requires
            c == 8192 * m + 1,
            m <= 2048,
            n >= m * m + 1,
    ;
    let q = g * g;
    assert(pow2(f) * pow2(f) == 67108864 * q && h * h == c * c * q) by (nonlinear_arith)
        requires
            pow2(f) == 8192 * g,
            q == g * g,
            h == c * g,
    ;
    assert(h * h <= u) by (nonlinear_arith)
        requires
            h * h == c * c * q,
            u == n * (67108864 * q),
            c * c <= 67108864 * n,
    ;
    if k < h {
        assert((k + 1) * (k + 1) <= h * h) by (nonlinear_arith)
            requires
                k + 1 <= h,
        ;
    }
    nearest_keeps_order(w, h, k, e / 2 - 64);
    nearest_with_more(w, k, more, e / 2 - 64);
    nearest_of_shifted(w, c, (f - 13) as nat, -13);
    nearest_of_shifted(w, m, 13, 0);
    nearest_keeps_order(w, m * pow2(13), c, -13);
    nearest_in_units(w, c, -13);
    lemma_pow2_unfold(53);
    exact_units(w, c, 1061);
    lemma_pow2_adds(13, 1061);
    lemma_pow2_pos(1061);
    assert(m * (8192 * pow2(1061)) != c * pow2(1061)) by (nonlinear_arith)
        requires
            c == 8192 * m + 1,
            pow2(1061) > 0,
    ;
    parts_of(w, a);
}

} // verus!
