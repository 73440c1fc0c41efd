//! An image is as similar to itself as can be.
use vstd::arithmetic::div_mod::*;
use vstd::arithmetic::power2::*;
use vstd::prelude::*;

use crate::binary::Real;
use crate::exact::{
    finite, formats, parts_of, product_by_one, product_by_zero, quotient_by_itself, sum_of_zeros,
    sum_with_zero, twice,
};
use crate::float::{exponent, of_integer, significand, whole_part, zero, Width};
use crate::number::ONE;
use crate::raster::{alike_by_pixels, are_alike, Image};
use crate::similarity::{
    product_at, similarity, similarity_at, similarity_is, similarity_row, similarity_rows,
    ten_thousandths, window_side, window_similarity, SSIM_C1, SSIM_C2, SSIM_MAX_LONG_EDGE,
    TWO_BITS,
};
use crate::spans::{last_digit, lies, product_lies, ratio_lies, sum_lies};
use crate::stats::{box_mean, box_side, downscaled, downscaled_is_not_empty, downscaled_is_short, value_at};
use crate::sums::{square_of_sum, sum_box, sum_box_bounds};
use crate::units::{exact_units, sum_in_units, units, whole_part_in_units};
use crate::wholes::{
    same_units, whole_number, wholes_add, wholes_are_in_order, wholes_multiply, zero_stays,
};

verus! {

proof fn constants_lie()
    ensures
        lies(SSIM_C1, 2, 29),
        lies(SSIM_C2, 5, 29),
{
    let w = Width::Double;
    formats(w);
    lemma_pow2_unfold(53);
    let (s, t) = (0x1A_028F_5C28_F5C3nat, 0x1D_42E1_47AE_147Bnat);
    assert(significand(w, SSIM_C1) == s && exponent(w, SSIM_C1) == -50);
    assert(significand(w, SSIM_C2) == t && exponent(w, SSIM_C2) == -47);
    lemma_pow2_adds(52, 1024);
    lemma_pow2_adds(53, 1024);
    lemma_pow2_adds(52, 1027);
    lemma_pow2_adds(53, 1027);
    lemma_pow2_pos(1024);
    lemma_pow2_pos(1027);
    lemma_pow2_strictly_increases(1077, 1103);
    lemma_pow2_strictly_increases(1080, 1103);
    assert(pow2(52) * pow2(1024) <= s * pow2(1024) <= pow2(53) * pow2(1024)) by (nonlinear_arith)
        requires
            pow2(52) <= s <= pow2(53),
            pow2(1024) > 0,
    ;
    assert(pow2(52) * pow2(1027) <= t * pow2(1027) <= pow2(53) * pow2(1027)) by (nonlinear_arith)
        requires
            pow2(52) <= t <= pow2(53),
            pow2(1027) > 0,
    ;
}

/// Twice a number that is zero or moderate, plus a moderate one, is moderate.
proof fn steadied(v: Real, c: Real, low: int)
    requires
        (finite(Width::Double, v.bits) && zero(Width::Double, v.bits)) || lies(v.bits, -12, 28),
        lies(c.bits, low, 29),
        0 <= low <= 29,
    ensures
        lies(v.plus(v).plus(c).bits, low, 30),
        (Real { bits: TWO_BITS }).times(v) == v.plus(v),
{
    let w = Width::Double;
    reveal(Real::spec_plus);
    reveal(Real::spec_times);
    twice(v.bits);
    lemma_pow2_strictly_increases(1103, 1104);
    if zero(w, v.bits) {
        sum_of_zeros(w, v.bits, v.bits);
        last_digit(c.bits, low, 29);
        sum_with_zero(w, c.bits, v.plus(v).bits);
    } else {
        sum_lies(v.bits, v.bits, -12, -12, 28);
        sum_lies(v.plus(v).bits, c.bits, -12, low, 29);
    }
}

/// The quotient of a whole number and another is zero or moderate.
proof fn ratio_is_moderate(n: nat, m: nat, high: nat, depth: nat)
    requires
        n <= pow2(high),
        0 < m <= pow2(depth),
        high <= 28,
        depth <= 12,
    ensures
        ({
            let v = Real::nearest_to(n as int).over(Real::nearest_to(m as int)).bits;
            (n == 0 && v == 0) || (n > 0 && lies(v, -depth, high as int))
        }),
{
    lemma2_to64();
    if high < 28 {
        lemma_pow2_strictly_increases(high, 28);
    }
    if depth < 12 {
        lemma_pow2_strictly_increases(depth, 12);
    }
    reveal(Real::nearest_to);
    reveal(Real::spec_over);
    if n == 0 {
        zero_stays(m);
    } else {
        ratio_lies(n, m, high, depth);
    }
}

/// A window is as similar to itself as can be.
proof fn window_is_like_itself(n: int, s: int, q: int)
    requires
        0 < n <= 64,
        0 <= s <= 255 * 64,
        0 <= n * q - s * s <= 64 * (65025 * 64),
    ensures
        window_similarity(n, s, s, q, q, q) == (Real { bits: ONE }),
{
    let w = Width::Double;
    lemma2_to64();
    let v = n * q - s * s;
    let count = Real::nearest_to(n);
    let count2 = count.times(count);
    let mean = Real::nearest_to(s).over(count);
    let var = Real::nearest_to(v).over(count2);
    assert(0 < n * n <= 4096) by (nonlinear_arith)
        requires
            0 < n <= 64,
    ;
    assert(count2 == Real::nearest_to(n * n)) by {
        reveal(Real::nearest_to);
        reveal(Real::spec_times);
        wholes_multiply(n as nat, n as nat);
    }
    ratio_is_moderate(s as nat, n as nat, 14, 6);
    ratio_is_moderate(v as nat, (n * n) as nat, 28, 12);
    let square = mean.times(mean);
    assert((finite(w, square.bits) && zero(w, square.bits)) || lies(square.bits, -12, 28)) by {
        reveal(Real::spec_times);
        if s == 0 {
            product_by_zero(w, 0, 0);
        } else {
            product_lies(mean.bits, mean.bits, -6, 14, -6, 14);
        }
    }
    constants_lie();
    let (c1, c2) = (Real { bits: SSIM_C1 }, Real { bits: SSIM_C2 });
    steadied(square, c1, 2);
    steadied(var, c2, 5);
    let (l, c) = (square.plus(square).plus(c1), var.plus(var).plus(c2));
    reveal(Real::spec_times);
    reveal(Real::spec_over);
    product_lies(l.bits, c.bits, 2, 30, 5, 30);
    let p = l.times(c).bits;
    last_digit(p, 7, 60);
    quotient_by_itself(w, p);
}

/// The pixels of a window have sums that fit.
proof fn sums_fit(a: Image<u8>, ww: int, wh: int, x: int, y: int)
    requires
        0 < ww <= 8,
        0 < wh <= 8,
    ensures
        ({
            let n = ww * wh;
            let s = sum_box(value_at(a), x, x + ww, y, y + wh);
            let q = sum_box(product_at(a, a), x, x + ww, y, y + wh);
            &&& 0 < n <= 64
            &&& 0 <= s <= 255 * 64
            &&& 0 <= n * q - s * s <= 64 * (65025 * 64)
        }),
{
    let n = ww * wh;
    let (f, g) = (value_at(a), product_at(a, a));
    let s = sum_box(f, x, x + ww, y, y + wh);
    let q = sum_box(g, x, x + ww, y, y + wh);
    assert(0 < n <= 64) by (nonlinear_arith)
        requires
            n == ww * wh,
            0 < ww <= 8,
            0 < wh <= 8,
    ;
    assert forall|i: int, j: int| 0 <= #[trigger] g(i, j) <= 65025 && g(i, j) == f(i, j) * f(i, j) by {
        let p = a.pixel(i, j) as int;
        assert(0 <= p * p <= 65025) by (nonlinear_arith)
            requires
                0 <= p <= 255,
        ;
    }
    sum_box_bounds(f, x, x + ww, y, y + wh, 0, 255);
    sum_box_bounds(g, x, x + ww, y, y + wh, 0, 65025);
    square_of_sum(f, g, x, x + ww, y, y + wh);
    assert((x + ww - x) * (y + wh - y) == n) by (nonlinear_arith)
        requires
            n == ww * wh,
    ;
    assert(0 <= s * s) by (nonlinear_arith);
    assert(n * q <= 64 * (65025 * 64)) by (nonlinear_arith)
        requires
            0 < n <= 64,
            0 <= q <= 65025 * n,
    ;
}

proof fn one_more(k: nat)
    requires
        k < 0x1000_0000,
    ensures
        Real::nearest_to(k as int).plus(Real { bits: ONE }) == Real::nearest_to((k + 1) as int),
{
    let w = Width::Double;
    wholes_add(k, 1);
    assert(Real::nearest_to(1) == (Real { bits: ONE })) by {
        reveal(Real::nearest_to);
        formats(w);
        whole_number(1);
        lemma_pow2_adds(52, 1022);
        same_units(Real::nearest_to(1).bits, ONE);
    }
}

proof fn row_adds_up(a: Image<u8>, b: Image<u8>, ww: int, wh: int, y: int, n: nat, k: nat)
    requires
        are_alike(a, b),
        0 < ww <= 8,
        0 < wh <= 8,
        n <= 2048,
        k <= 0x100_0000,
    ensures
        similarity_row(a, b, ww, wh, y, n, Real::nearest_to(k as int)) == Real::nearest_to(
            (k + n) as int,
        ),
    decreases n,
{
    if n > 0 {
        row_adds_up(a, b, ww, wh, y, (n - 1) as nat, k);
        let x = n - 1;
        assert(value_at(a) =~= value_at(b));
        assert(product_at(a, b) =~= product_at(a, a));
        assert(product_at(b, b) =~= product_at(a, a));
        sums_fit(a, ww, wh, x, y);
        window_is_like_itself(
            ww * wh,
            sum_box(value_at(a), x, x + ww, y, y + wh),
            sum_box(product_at(a, a), x, x + ww, y, y + wh),
        );
        assert(similarity_at(a, b, ww, wh, x, y) == (Real { bits: ONE }));
        one_more((k + n - 1) as nat);
    }
}

proof fn rows_add_up(a: Image<u8>, b: Image<u8>, ww: int, wh: int, n: nat)
    requires
        are_alike(a, b),
        0 < ww <= 8,
        0 < wh <= 8,
        ww <= a.width <= 2048,
        n <= 2048,
    ensures
        similarity_rows(a, b, ww, wh, n) == Real::nearest_to((a.width - ww + 1) * n),
    decreases n,
{
    let cols = a.width - ww + 1;
    if n > 0 {
        rows_add_up(a, b, ww, wh, (n - 1) as nat);
        let k = cols * (n - 1);
        assert(0 <= k <= 2048 * 2048) by (nonlinear_arith)
            requires
                k == cols * (n - 1),
                0 <= cols <= 2048,
                1 <= n <= 2048,
        ;
        row_adds_up(a, b, ww, wh, n - 1, cols as nat, k as nat);
        assert(cols * n == k + cols) by (nonlinear_arith)
            requires
                k == cols * (n - 1),
        ;
    } else {
        assert(cols * 0 == 0) by (nonlinear_arith);
        assert(Real::nearest_to(0).bits == 0) by {
            reveal(Real::nearest_to);
        }
    }
}

/// 1 stays 1 to four decimal places.
proof fn one_has_four_places()
    ensures
        ten_thousandths(Real { bits: ONE }) == (Real { bits: ONE }),
{
    let w = Width::Double;
    let scale = Real { bits: 0x40C3_8800_0000_0000 };
    let half = Real { bits: 0x3FE0_0000_0000_0000 };
    reveal(Real::spec_times);
    reveal(Real::spec_plus);
    reveal(Real::spec_floor);
    reveal(Real::spec_over);
    formats(w);
    lemma2_to64();
    lemma2_to64_rest();
    product_by_one(w, scale.bits);
    // The scale is 10000, and 10000 and a half has 10000 as its whole part.
    whole_number(10_000);
    lemma_pow2_adds(39, 1035);
    assert(significand(w, scale.bits) == 10_000 * pow2(39) && exponent(w, scale.bits) == -39);
    let z = pow2(1035);
    assert(10_000 * pow2(39) * z == 10_000 * (pow2(39) * z)) by (nonlinear_arith);
    same_units(of_integer(w, 10_000), scale.bits);
    assert(significand(w, half.bits) == pow2(52) && exponent(w, half.bits) == -53);
    lemma_pow2_adds(52, 1021);
    lemma_pow2_unfold(1074);
    let h = pow2(1073);
    lemma_pow2_pos(1073);
    sum_in_units(w, scale.bits, half.bits);
    assert(10_000 * (2 * h) + h == 20_001 * h) by (nonlinear_arith);
    exact_units(w, 20_001, 1073);
    let a = scale.plus(half).bits;
    assert(units(w, a) == 20_001 * h);
    whole_part_in_units(w, a);
    lemma_fundamental_div_mod_converse(20_001 * h as int, 2 * h as int, 10_000, h as int);
    assert(whole_part(w, a) == 10_000);
    parts_of(w, a);
    let e = exponent(w, a);
    if e >= 0 {
        lemma_pow2_adds(1074, e as nat);
        lemma_pow2_pos(e as nat);
        assert(significand(w, a) * pow2((e + 1074) as nat) >= pow2(52) * (2 * h)) by (nonlinear_arith)
            requires
                significand(w, a) >= pow2(52),
                pow2((e + 1074) as nat) == 2 * h * pow2(e as nat),
                pow2(e as nat) >= 1,
                h >= 0,
        ;
        assert(pow2(52) * (2 * h) > 20_001 * h) by (nonlinear_arith)
            requires
                pow2(52) > 20_001,
                h > 0,
        ;
    }
    assert(scale.plus(half).floor() == scale);
    quotient_by_itself(w, scale.bits);
}

/// An image is as similar to itself as can be: the index is 1.
pub proof fn image_is_like_itself(a: Image<u8>, b: Image<u8>, v: Real)
    requires
        are_alike(a, b),
        a.width > 0,
        a.height > 0,
        similarity_is(a, b, v),
    ensures
        v == (Real { bits: ONE }),
{
    let (p, q) = choose|p: Image<u8>, q: Image<u8>|
        #![trigger downscaled(a, SSIM_MAX_LONG_EDGE, p), downscaled(b, SSIM_MAX_LONG_EDGE, q)]
        {
            &&& p.well_formed()
            &&& q.well_formed()
            &&& downscaled(a, SSIM_MAX_LONG_EDGE, p)
            &&& downscaled(b, SSIM_MAX_LONG_EDGE, q)
            &&& v == similarity(p, q)
        };
    assert(value_at(a) =~= value_at(b));
    downscaled_is_not_empty(a, SSIM_MAX_LONG_EDGE, p);
    downscaled_is_short(a, SSIM_MAX_LONG_EDGE, p);
    if box_side(a.width, a.height, SSIM_MAX_LONG_EDGE) != 1 {
        assert forall|x: int, y: int| 0 <= x < p.width && 0 <= y < p.height implies #[trigger] p.pixel(
            x,
            y,
        ) == q.pixel(x, y) by {
            assert(q.pixel(x, y) == box_mean(
                b,
                box_side(a.width, a.height, SSIM_MAX_LONG_EDGE),
                x,
                y,
            ));
        }
        alike_by_pixels(p, q);
    }
    let (ww, wh) = (window_side(p.width), window_side(p.height));
    let (cols, rows) = (p.width - ww + 1, p.height - wh + 1);
    rows_add_up(p, q, ww, wh, rows as nat);
    let n = cols * rows;
    assert(0 < n <= 2048 * 2048) by (nonlinear_arith)
        requires
            n == cols * rows,
            0 < cols <= 2048,
            0 < rows <= 2048,
    ;
    wholes_are_in_order(n as nat, 0);
    reveal(Real::spec_over);
    quotient_by_itself(Width::Double, Real::nearest_to(n).bits);
    one_has_four_places();
}

} // verus!
