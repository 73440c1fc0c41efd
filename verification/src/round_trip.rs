//! Colours survive the way through numbers: what was read from bytes, or from 16 bits, is
//! written as it was read.
use vstd::arithmetic::div_mod::*;
use vstd::arithmetic::mul::*;
use vstd::arithmetic::power2::*;
use vstd::prelude::*;

use crate::binary::Real32;
use crate::exact::{
    finite, formats, nearest_has_a_pattern, nearest_keeps_order, nearest_with_more, one32,
    parts_of, quotient_by_itself, sum_with_zero, times_one, times_zero,
};
use crate::float::{
    exponent, floor_value, lowest, nearest, negative, of_integer, significand, sum, unsigned,
    whole_part, Width,
};
use crate::linear::{
    byte_pixel, byte_to_unit, half_away, in_bytes, pad_to_srgb, unit_byte, unit_word, word_pixel,
    word_to_srgb, word_to_unit, LinearImage, Rgba16,
};
use crate::number::{SHORT_BYTE_MAX, SHORT_HALF, SHORT_ONE, SHORT_WORD_MAX};
use crate::ops::blend::in_unit;
use crate::raster::{is_mapped, Image, Rgba, Rgba32};
use crate::units::{
    exact_units, nearest_in_units, pattern, pattern_between, pattern_of_units, product_in_units,
    sum_in_units, units, units_keep_order, whole_part_in_units,
};

verus! {

/// The number of bits in which a colour is stored.
spec fn is_depth(k: nat) -> bool {
    k == 8 || k == 16
}

/// The largest whole number of `k` bits.
spec fn top(k: nat) -> nat {
    (pow2(k) - 1) as nat
}

/// The largest whole number of `k` bits as a number.
spec fn top_number(k: nat) -> Real32 {
    Real32 {
        bits: if k == 8 {
            SHORT_BYTE_MAX
        } else {
            SHORT_WORD_MAX
        },
    }
}

/// A whole number of `k` bits as a number from 0 to 1.
spec fn part(n: u16, k: nat) -> Real32 {
    Real32::nearest_to(n as int).over(top_number(k))
}

/// A number from 0 to 1 as a whole one of `k` bits, if it is in range.
spec fn back(v: Real32, k: nat) -> int {
    half_away(in_unit(v).times(top_number(k)))
}

proof fn parts_of_top(k: nat)
    requires
        is_depth(k),
    ensures
        ({
            let t = top_number(k).bits as u64;
            &&& finite(Width::Single, t)
            &&& !negative(Width::Single, t)
            &&& significand(Width::Single, t) == top(k) * pow2((24 - k) as nat)
            &&& exponent(Width::Single, t) == k - 24
            &&& units(Width::Single, t) == top(k) * pow2(149)
        }),
{
    formats(Width::Single);
    lemma2_to64();
    let (x, y) = ((24 - k) as nat, (125 + k) as nat);
    lemma_pow2_adds(x, y);
    assert(top(k) * pow2(x) * pow2(y) == top(k) * (pow2(x) * pow2(y))) by (nonlinear_arith);
    let t = top_number(k).bits as u64;
    if k == 8 {
        assert(top(k) * pow2(x) == 0xFF_0000) by (nonlinear_arith)
            requires
                top(k) == 255,
                pow2(x) == 0x1_0000,
        ;
        assert(significand(Width::Single, t) == 0xFF_0000);
    } else {
        assert(top(k) * pow2(x) == 0xFF_FF00) by (nonlinear_arith)
            requires
                top(k) == 65535,
                pow2(x) == 0x100,
        ;
        assert(significand(Width::Single, t) == 0xFF_FF00);
    }
}

/// A whole number of at most 16 bits is met exactly.
proof fn whole_in_units(n: u16)
    requires
        n > 0,
    ensures
        ({
            let a = of_integer(Width::Single, n as int);
            &&& finite(Width::Single, a)
            &&& !negative(Width::Single, a)
            &&& units(Width::Single, a) == n * pow2(149)
            &&& -23 <= exponent(Width::Single, a) <= -8
        }),
{
    let w = Width::Single;
    formats(w);
    lemma2_to64();
    nearest_in_units(w, n as nat, 0);
    exact_units(w, n as nat, 149);
    let a = of_integer(w, n as int);
    parts_of(w, a);
    // The exponent follows from the size of the significand.
    let s = significand(w, a);
    let x = exponent(w, a) + 149;
    lemma_pow2_pos(x as nat);
    lemma_pow2_pos(149);
    if x < 126 {
        let d = (149 - x) as nat;
        lemma_pow2_adds(x as nat, d);
        lemma_pow2_strictly_increases(23, d);
        assert(s * pow2(x as nat) < pow2(x as nat) * pow2(d)) by (nonlinear_arith)
            requires
                s < pow2(d),
                pow2(x as nat) > 0,
        ;
        assert(n * pow2(149) >= pow2(149)) by (nonlinear_arith)
            requires
                n >= 1,
                pow2(149) > 0,
        ;
    }
    if x > 141 {
        let d = (x - 142) as nat;
        lemma_pow2_adds(142, d);
        lemma_pow2_pos(d);
        lemma_pow2_adds(142, 7);
        assert(s * pow2(x as nat) >= pow2(23) * pow2(142)) by (nonlinear_arith)
            requires
                s >= pow2(23),
                pow2(x as nat) == pow2(142) * pow2(d),
                pow2(d) >= 1,
        ;
        assert(pow2(23) * pow2(142) == 0x1_0000 * (pow2(142) * pow2(7))) by (nonlinear_arith)
            requires
                pow2(23) == 0x80_0000,
                pow2(7) == 0x80,
        ;
        assert(n * pow2(149) < 0x1_0000 * pow2(149)) by (nonlinear_arith)
            requires
                n <= 0xFFFF,
                pow2(149) > 0,
        ;
    }
}

/// The part of 2^23 that a whole number is of the largest.
spec fn share(n: u16, k: nat) -> nat {
    (n * 0x80_0000) as nat / top(k)
}

proof fn share_bounds(n: u16, k: nat)
    requires
        is_depth(k),
        0 < n < top(k),
    ensures
        top(k) * share(n, k) <= n * 0x80_0000 < top(k) * (share(n, k) + 1),
        0 < share(n, k) < 0x80_0000,
{
    lemma2_to64();
    let m = (n * 0x80_0000) as nat;
    let t = top(k);
    let f = share(n, k);
    lemma_fundamental_div_mod(m as int, t as int);
    lemma_mod_bound(m as int, t as int);
    lemma_mul_is_distributive_add(t as int, f as int, 1);
    assert(f > 0) by (nonlinear_arith)
        requires
            m < t * (f + 1),
            t <= m,
    ;
    assert(f < 0x80_0000) by (nonlinear_arith)
        requires
            t * f <= m,
            m == n * 0x80_0000,
            n < t,
    ;
}

/// Multiples of `g` that differ by less than `g` are in order.
proof fn multiples(u: nat, v: nat, g: nat, x: nat, y: nat)
    requires
        u == x * g,
        v == y * g,
        u + g > v,
        g > 0,
    ensures
        u >= v,
{
    assert(x >= y) by (nonlinear_arith)
        requires
            x * g + g > y * g,
            g > 0,
    ;
    assert(x * g >= y * g) by (nonlinear_arith)
        requires
            x >= y,
            g > 0,
    ;
}

/// A whole number over the largest, in units: within one part in 2^23.
proof fn part_in_units(n: u16, k: nat)
    requires
        is_depth(k),
        0 < n < top(k),
    ensures
        ({
            let v = part(n, k).bits as u64;
            &&& finite(Width::Single, v)
            &&& !negative(Width::Single, v)
            &&& share(n, k) * pow2(126) <= units(Width::Single, v)
            &&& units(Width::Single, v) <= (share(n, k) + 1) * pow2(126)
        }),
{
    let w = Width::Single;
    formats(w);
    lemma2_to64();
    parts_of_top(k);
    whole_in_units(n);
    share_bounds(n, k);
    reveal(Real32::nearest_to);
    reveal(Real32::spec_over);
    let a = of_integer(w, n as int);
    let t = top_number(k).bits as u64;
    parts_of(w, a);
    let s = significand(w, a);
    let ex = exponent(w, a);
    let c = s * pow2(128);
    let d = significand(w, t);
    let q = c / d;
    let e = ex - k + 24 - 128;
    let f = share(n, k);
    let m = top(k);
    // In units the quotient is `u`, and what is left out is less than `g`.
    let g = pow2((e + 149) as nat);
    let u = q * g;
    let z = pow2((24 - k) as nat);
    lemma_pow2_pos((e + 149) as nat);
    lemma_pow2_pos((24 - k) as nat);
    assert(d > 0) by (nonlinear_arith)
        requires
            d == m * z,
            m > 0,
            z > 0,
    ;
    lemma_fundamental_div_mod(c as int, d as int);
    lemma_mod_bound(c as int, d as int);
    // The numerator times `g` is `z` times the whole number in units.
    lemma_pow2_adds((ex + 149) as nat, (24 - k) as nat);
    lemma_pow2_adds((e + 149) as nat, 128);
    assert((ex + 149) as nat + (24 - k) as nat == (e + 149) as nat + 128);
    assert(c * g == n * pow2(149) * z) by (nonlinear_arith)
        requires
            c == s * pow2(128),
            s * pow2((ex + 149) as nat) == n * pow2(149),
            pow2((ex + 149) as nat) * z == g * pow2(128),
    ;
    assert(m * u <= n * pow2(149)) by (nonlinear_arith)
        requires
            c >= m * z * q,
            u == q * g,
            c * g == n * pow2(149) * z,
            z > 0,
            g > 0,
    {
        assert(c * g >= m * z * q * g);
        assert(m * z * q * g == m * u * z);
        assert(n * pow2(149) * z >= m * u * z);
    }
    assert(c < m * z * (q + 1)) by (nonlinear_arith)
        requires
            c < d * q + d,
            d == m * z,
    ;
    assert(m * (u + g) > n * pow2(149)) by (nonlinear_arith)
        requires
            c < m * z * (q + 1),
            u == q * g,
            c * g == n * pow2(149) * z,
            z > 0,
            g > 0,
    {
        assert(c * g < m * z * (q + 1) * g);
        assert(m * z * (q + 1) * g == m * (u + g) * z);
        assert(n * pow2(149) * z < m * (u + g) * z);
    }
    lemma_pow2_adds(23, 126);
    let p = pow2(126);
    lemma_pow2_pos(126);
    assert(m * f * p <= n * pow2(149)) by (nonlinear_arith)
        requires
            m * f <= n * 0x80_0000,
            pow2(149) == 0x80_0000 * p,
            p > 0,
    ;
    assert(m * (f + 1) * p > n * pow2(149)) by (nonlinear_arith)
        requires
            m * (f + 1) > n * 0x80_0000,
            pow2(149) == 0x80_0000 * p,
            p > 0,
    ;
    // All are multiples of `g`.
    let j = (126 - (e + 149)) as nat;
    lemma_pow2_adds(j, (e + 149) as nat);
    assert(f * p == (f * pow2(j)) * g) by (nonlinear_arith)
        requires
            p == pow2(j) * g,
    ;
    assert((f + 1) * p == ((f + 1) * pow2(j)) * g) by (nonlinear_arith)
        requires
            p == pow2(j) * g,
    ;
    assert(u + g > f * p) by (nonlinear_arith)
        requires
            m * (u + g) > n * pow2(149),
            m * f * p <= n * pow2(149),
    ;
    multiples(u, f * p, g, q, f * pow2(j));
    assert((f + 1) * p > u) by (nonlinear_arith)
        requires
            m * u <= n * pow2(149),
            m * (f + 1) * p > n * pow2(149),
    ;
    assert((q + 1) * g == u + g) by (nonlinear_arith)
        requires
            u == q * g,
    ;
    multiples((f + 1) * p, u + g, g, (f + 1) * pow2(j), q + 1);
    nearest_with_more(w, q, c % d != 0, e);
    nearest_in_units(w, q, e);
    nearest_in_units(w, q + 1, e);
    pattern_between(w, f, u, f + 1, 126);
    pattern_between(w, f, u + g, f + 1, 126);
    let v = nearest(w, q, c % d != 0, e);
    let (lo, hi) = (pattern(w, u), pattern(w, u + g));
    units_keep_order(w, lo as u64, v as u64);
    units_keep_order(w, v as u64, hi as u64);
}

/// A whole number of `k` bits over the largest is at most 1 and not tiny.
proof fn part_is_in_range(n: u16, k: nat)
    requires
        is_depth(k),
        0 < n < top(k),
    ensures
        in_unit(part(n, k)) == part(n, k),
        exponent(Width::Single, part(n, k).bits as u64) >= -60,
{
    let w = Width::Single;
    formats(w);
    lemma2_to64();
    part_in_units(n, k);
    share_bounds(n, k);
    let v = part(n, k);
    let a = v.bits as u64;
    let f = share(n, k);
    let x = units(w, a);
    parts_of(w, a);
    lemma_pow2_pos(126);
    lemma_pow2_adds(23, 126);
    let o = SHORT_ONE as u64;
    assert(units(w, o) == pow2(149));
    if unsigned(w, a) > unsigned(w, o) {
        pattern_of_units(w, a);
        pattern_of_units(w, o);
        assert(x <= pow2(149)) by (nonlinear_arith)
            requires
                x <= (f + 1) * pow2(126),
                f + 1 <= 0x80_0000,
                pow2(149) == 0x80_0000 * pow2(126),
                pow2(126) > 0,
        ;
        nearest_keeps_order(w, x, pow2(149), lowest(w));
    }
    let ex = exponent(w, a);
    if ex < -60 {
        let i = (ex + 149) as nat;
        let s = significand(w, a);
        lemma_pow2_pos(i);
        lemma_pow2_strictly_increases(i, 89);
        lemma_pow2_adds(89, 37);
        lemma_pow2_strictly_increases(24, 37);
        lemma_pow2_unfold(24);
        assert(s * pow2(i) < pow2(24) * pow2(89)) by (nonlinear_arith)
            requires
                0 <= s < pow2(24),
                0 < pow2(i) < pow2(89),
        ;
        assert(f * pow2(126) >= pow2(24) * pow2(89)) by (nonlinear_arith)
            requires
                f >= 1,
                pow2(126) == pow2(89) * pow2(37),
                pow2(37) >= pow2(24),
                pow2(89) >= 0,
        ;
    }
}

/// A whole number over the largest, times the largest, is that number within one part in
/// 2^(23 - k).
proof fn product_is_near(n: u16, k: nat)
    requires
        is_depth(k),
        0 < n < top(k),
    ensures
        is_near(n, k, part(n, k).times(top_number(k)).bits as u64),
{
    let w = Width::Single;
    formats(w);
    lemma2_to64();
    part_in_units(n, k);
    part_is_in_range(n, k);
    parts_of_top(k);
    share_bounds(n, k);
    let a = part(n, k).bits as u64;
    let t = top_number(k).bits as u64;
    let f = share(n, k);
    let x = units(w, a);
    let m = top(k);
    let u = m * x;
    assert(u * pow2(149) == x * (m * pow2(149))) by (nonlinear_arith)
        requires
            u == m * x,
    ;
    reveal(Real32::spec_times);
    product_in_units(w, a, t, u);
    let p = pow2(126);
    lemma_pow2_pos(126);
    lemma_pow2_adds(k, 126);
    lemma_pow2_adds(k, (23 - k) as nat);
    let h = pow2((23 - k) as nat);
    let c = pow2(k);
    let z = pow2(126 + k);
    assert((n * h - 1) * z <= u) by (nonlinear_arith)
        requires
            u == m * x,
            x >= f * p,
            m * (f + 1) > n * 0x80_0000,
            0x80_0000 == c * h,
            z == c * p,
            m == c - 1,
            m >= 0,
            p > 0,
    {
        assert(m * x >= m * f * p);
        assert(m * f >= n * (c * h) - c);
        assert(m * f * p >= (n * (c * h) - c) * p);
        assert((n * h - 1) * (c * p) == (n * (c * h) - c) * p);
    }
    assert(u <= (n * h + 1) * z) by (nonlinear_arith)
        requires
            u == m * x,
            x <= (f + 1) * p,
            m * f <= n * 0x80_0000,
            0x80_0000 == c * h,
            z == c * p,
            m == c - 1,
            m >= 0,
            p > 0,
    {
        assert(m * x <= m * (f + 1) * p);
        assert(m * (f + 1) <= n * (c * h) + c);
        assert(m * (f + 1) * p <= (n * (c * h) + c) * p);
        assert((n * h + 1) * (c * p) == (n * (c * h) + c) * p);
    }
    assert(1 < n * h && n * h + 1 < pow2(24)) by (nonlinear_arith)
        requires
            0 < n < m,
            m == c - 1,
            h >= 0x80,
            0x80_0000 == c * h,
            pow2(24) == 0x100_0000,
    ;
    pattern_between(w, (n * h - 1) as nat, u, (n * h + 1) as nat, 126 + k);
}

/// A number is a whole one within one part in 2^(23 - k).
spec fn is_near(n: u16, k: nat, p: u64) -> bool {
    let h = pow2((23 - k) as nat);
    let z = pow2(126 + k);
    &&& finite(Width::Single, p)
    &&& !negative(Width::Single, p)
    &&& (n * h - 1) * z <= units(Width::Single, p) <= (n * h + 1) * z
}

/// A number that is near a whole one rounds to it.
proof fn near_whole_rounds(n: u16, k: nat, p: u64)
    requires
        is_depth(k),
        0 < n <= top(k),
        is_near(n, k, p),
    ensures
        half_away(Real32 { bits: p as u32 }) == n,
{
    let w = Width::Single;
    formats(w);
    lemma2_to64();
    let half = SHORT_HALF as u64;
    let x = units(w, p);
    let h = pow2((23 - k) as nat);
    let i = pow2((22 - k) as nat);
    let z = pow2(126 + k);
    lemma_pow2_pos(126 + k);
    lemma_pow2_adds((22 - k) as nat, 126 + k);
    lemma_pow2_adds((23 - k) as nat, 126 + k);
    assert(h == 2 * i && i >= 0x40);
    assert(finite(w, half) && !negative(w, half) && units(w, half) == pow2(148)) by {
        lemma_pow2_adds(23, 125);
    }
    reveal(Real32::spec_plus);
    reveal(Real32::spec_floor_integer);
    sum_in_units(w, p, half);
    let y = x + pow2(148);
    assert((n * h + i - 1) * z <= y <= (n * h + i + 1) * z) by (nonlinear_arith)
        requires
            y == x + i * z,
            (n * h - 1) * z <= x <= (n * h + 1) * z,
    ;
    lemma_pow2_adds(k, (23 - k) as nat);
    assert(n * h + i + 1 < pow2(24)) by (nonlinear_arith)
        requires
            n <= pow2(k) - 1,
            h == 2 * i,
            i >= 2,
            0x80_0000 == pow2(k) * h,
            pow2(24) == 0x100_0000,
    ;
    pattern_between(w, (n * h + i - 1) as nat, y, (n * h + i + 1) as nat, 126 + k);
    let q = sum(w, p, half);
    let v = units(w, q);
    whole_part_in_units(w, q);
    let r = v - n * pow2(149);
    assert(0 <= r < pow2(149)) by (nonlinear_arith)
        requires
            r == v - n * pow2(149),
            pow2(149) == h * z,
            (n * h + i - 1) * z <= v <= (n * h + i + 1) * z,
            h == 2 * i,
            i >= 2,
            z > 0,
    {
        assert(n * pow2(149) == n * h * z);
        assert((n * h + i - 1) * z == n * h * z + (i - 1) * z);
        assert((n * h + i + 1) * z == n * h * z + (i + 1) * z);
        assert((i + 1) * z < h * z);
    }
    lemma_fundamental_div_mod_converse(v as int, pow2(149) as int, n as int, r);
    assert(whole_part(w, q) == n);
    assert(floor_value(w, q) == n);
}

proof fn zero_comes_back(k: nat)
    requires
        is_depth(k),
    ensures
        back(part(0, k), k) == 0,
{
    let w = Width::Single;
    formats(w);
    lemma2_to64();
    parts_of_top(k);
    reveal(Real32::nearest_to);
    reveal(Real32::spec_over);
    reveal(Real32::spec_plus);
    reveal(Real32::spec_floor_integer);
    let t = top_number(k);
    let half = SHORT_HALF as u64;
    let v = part(0, k);
    parts_of(w, 0);
    parts_of(w, t.bits as u64);
    assert(0 * pow2(128) == 0) by (nonlinear_arith);
    assert(v.bits == 0);
    times_zero(t, v);
    let p = v.times(t).bits as u64;
    sum_with_zero(w, half, p);
    assert(significand(w, half) == pow2(23) && exponent(w, half) == -24);
    assert(pow2(23) / pow2(24) == 0);
}

proof fn top_comes_back(k: nat)
    requires
        is_depth(k),
    ensures
        back(part(top(k) as u16, k), k) == top(k),
{
    let w = Width::Single;
    formats(w);
    lemma2_to64();
    parts_of_top(k);
    let n = top(k) as u16;
    whole_in_units(n);
    let a = of_integer(w, n as int);
    let t = top_number(k).bits as u64;
    pattern_of_units(w, a);
    pattern_of_units(w, t);
    reveal(Real32::nearest_to);
    reveal(Real32::spec_over);
    assert(a == t);
    quotient_by_itself(w, t);
    assert(part(n, k) == one32());
    times_one(top_number(k));
    lemma_pow2_adds((23 - k) as nat, 126 + k);
    let h = pow2((23 - k) as nat);
    let z = pow2(126 + k);
    assert((n * h - 1) * z <= n * (h * z) <= (n * h + 1) * z) by (nonlinear_arith)
        requires
            z >= 0,
    ;
    near_whole_rounds(n, k, t);
}

/// Every whole number of `k` bits comes back from the number that stands for it.
proof fn wholes_come_back(n: u16, k: nat)
    requires
        is_depth(k),
        n <= top(k),
    ensures
        back(part(n, k), k) == n,
{
    lemma2_to64();
    if n == 0 {
        zero_comes_back(k);
    } else if n == top(k) {
        top_comes_back(k);
    } else {
        product_is_near(n, k);
        part_is_in_range(n, k);
        near_whole_rounds(n, k, part(n, k).times(top_number(k)).bits as u64);
    }
}

/// Every byte comes back from the number that stands for it.
pub proof fn bytes_come_back(b: u8)
    ensures
        unit_byte(byte_to_unit(b)) == b,
{
    lemma2_to64();
    wholes_come_back(b as u16, 8);
}

/// Every number of 16 bits comes back from the number that stands for it.
pub proof fn words_come_back(n: u16)
    ensures
        unit_word(word_to_unit(n)) == n,
{
    lemma2_to64();
    wholes_come_back(n, 16);
}

/// An image that is read from bytes as encoded colours and written in bytes is the same
/// image.
pub proof fn byte_images_come_back(img: Image<Rgba>, colours: LinearImage, out: Image<Rgba>)
    requires
        img.well_formed(),
        is_mapped(img, colours, |p: Rgba| pad_to_srgb(p)),
        in_bytes(colours, out),
    ensures
        out.width == img.width,
        out.height == img.height,
        out.data@ == img.data@,
{
    assert forall|i: int| 0 <= i < img.data@.len() implies out.data@[i] == img.data@[i] by {
        let p = img.data@[i];
        assert(colours.data@[i] == pad_to_srgb(p));
        assert(out.data@[i] == byte_pixel(colours.data@[i]));
        bytes_come_back(p.r);
        bytes_come_back(p.g);
        bytes_come_back(p.b);
        bytes_come_back(p.a);
    }
}

/// An image that is read from 16 bits as encoded colours and written in 16 bits is the same
/// image.
pub proof fn word_images_come_back(img: Image<Rgba16>, colours: LinearImage, out: Image<Rgba16>)
    requires
        img.well_formed(),
        is_mapped(img, colours, |p: Rgba16| word_to_srgb(p)),
        is_mapped(colours, out, |p: Rgba32| word_pixel(p)),
    ensures
        out.width == img.width,
        out.height == img.height,
        out.data@ == img.data@,
{
    assert forall|i: int| 0 <= i < img.data@.len() implies out.data@[i] == img.data@[i] by {
        let p = img.data@[i];
        assert(colours.data@[i] == word_to_srgb(p));
        assert(out.data@[i] == word_pixel(colours.data@[i]));
        words_come_back(p.r);
        words_come_back(p.g);
        words_come_back(p.b);
        words_come_back(p.a);
    }
}

/// A byte as a part of the largest is a number.
pub proof fn byte_part_is_a_number(n: int)
    requires
        0 <= n <= 255,
    ensures
        ({
            let q = Real32::nearest_to(n).over(Real32 { bits: SHORT_BYTE_MAX });
            q.at_most(q)
        }),
{
    let w = Width::Single;
    reveal(Real32::nearest_to);
    reveal(Real32::spec_over);
    formats(w);
    parts_of_top(8);
    if n > 0 {
        whole_in_units(n as u16);
    }
    let (a, b) = (of_integer(w, n), SHORT_BYTE_MAX as u64);
    parts_of(w, a);
    parts_of(w, b);
    let (m, d) = (significand(w, a) * pow2(128), significand(w, b));
    nearest_has_a_pattern(w, m / d, m % d != 0, exponent(w, a) - exponent(w, b) - 128);
}

} // verus!
