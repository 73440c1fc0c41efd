//! Percentiles are whole numbers from 0 to 255, and a higher one is not below a lower one.
use vstd::arithmetic::power2::*;
use vstd::prelude::*;

use crate::binary::Real;
use crate::exact::{finite, formats};
use crate::float::{exponent, negative, significand, Width};
use crate::nearness::{grain, near, near_product, near_quotient, near_sum, slack_is_small};
use crate::number::{HALF, HUNDRED, TEN};
use crate::raster::Image;
use crate::stats::{
    bin_at_rank, ceil_div, ceil_div_is, gray_of, is_grid_stride, measured,
    rank_of, samples, sharpness_is, stats_from, tallied, tenths, ImageStats, Tally,
};
use crate::tangents::is_positive;
use crate::value::{
    magnitude_by_parts, order_is_by_value, power, power_adds, product_rounds, quotient_rounds,
    share_values, value, wholes_are_themselves,
};
use crate::whole_steps::{ceiling_is_near, floor_is_near};
use crate::wholes::{wholes_are_in_order, wholes_divide, wholes_multiply, zero_stays};

verus! {

/// A bin lies between 0 and 255, and one of a higher rank is not below it.
proof fn bins_are_in_order(hist: Seq<u64>, r: int, s: int, i: int, below: int)
    requires
        r <= s,
        0 <= i <= 255,
    ensures
        i <= bin_at_rank(hist, r, i, below) <= bin_at_rank(hist, s, i, below) <= 255,
    decreases 255 - i,
{
    if i < 255 {
        bins_are_in_order(hist, r, s, i + 1, below + hist[i]);
    }
}

/// A number by its digits and where they start.
pub proof fn digits(bits: u64, n: nat, k: nat)
    requires
        finite(Width::Double, bits),
        !negative(Width::Double, bits),
        significand(Width::Double, bits) == n,
        exponent(Width::Double, bits) == -k,
        k <= 60,
    ensures
        value(Real { bits }) == n as real / power(k),
{
    magnitude_by_parts(bits);
    let x = (1074 - k) as nat;
    power_adds(k, x);
    lemma_pow2_pos(1074);
    lemma_pow2_pos(k);
    lemma_pow2_pos(x);
    let (r, p, q) = (n as real, power(k), power(x));
    assert(r * q / (p * q) == r / p) by (nonlinear_arith)
        requires
            p > 0real,
            q > 0real,
    ;
}

/// The percentages, as shares.
spec fn share(i: int) -> real {
    if i == 0 {
        2real / 1000real
    } else if i == 1 {
        10real / 1000real
    } else if i == 2 {
        500real / 1000real
    } else if i == 3 {
        990real / 1000real
    } else {
        998real / 1000real
    }
}

/// The percentages that are measured.
pub open spec fn percentage(i: int) -> Real {
    Real {
        bits: if i == 0 {
            0x3FC9_9999_9999_999A
        } else if i == 1 {
            0x3FF0_0000_0000_0000
        } else if i == 2 {
            0x4049_0000_0000_0000
        } else if i == 3 {
            0x4058_C000_0000_0000
        } else {
            0x4058_F333_3333_3333
        },
    }
}

/// What a percentage is to the last of nine digits.
proof fn percentages(i: int)
    requires
        0 <= i <= 4,
    ensures
        is_positive(percentage(i)),
        near(percentage(i), share(i) * 100real, 1real / 1000000000real),
{
    let w = Width::Double;
    formats(w);
    lemma2_to64();
    lemma2_to64_rest();
    if i == 0 {
        digits(0x3FC9_9999_9999_999A, 7205759403792794, 55);
        assert(power(55) == 36028797018963968real);
    } else if i == 1 {
        digits(0x3FF0_0000_0000_0000, 4503599627370496, 52);
        assert(power(52) == 4503599627370496real);
    } else if i == 2 {
        digits(0x4049_0000_0000_0000, 7036874417766400, 47);
        assert(power(47) == 140737488355328real);
    } else if i == 3 {
        digits(0x4058_C000_0000_0000, 6966505673588736, 46);
        assert(power(46) == 70368744177664real);
    } else {
        digits(0x4058_F333_3333_3333, 7022800668930867, 46);
        assert(power(46) == 70368744177664real);
    }
}

/// How far into the samples a percentage reaches.
proof fn reaches(total: u64, i: int)
    requires
        1 <= total <= 1000000,
        0 <= i <= 4,
    ensures
        ({
            let v = percentage(i).over(Real { bits: HUNDRED }).times(
                Real::nearest_to(total as int),
            );
            let n = total as real;
            &&& is_positive(v)
            &&& -(n / 100000real) <= value(v) - share(i) * n <= n / 100000real
        }),
{
    let (p, hundred, n) = (percentage(i), Real { bits: HUNDRED }, total as real);
    percentages(i);
    share_values();
    wholes_are_themselves(total as nat);
    let e = 1real / 1000000real;
    near_quotient(
        p,
        share(i) * 100real,
        1real / 1000000000real,
        hundred,
        100real,
        0real,
        1real,
        1real,
        e,
    );
    let q = p.over(hundred);
    assert(share(i) * 100real / 100real == share(i));
    let m = Real::nearest_to(total as int);
    let d = n / 100000real;
    near_product(q, share(i), e, 2real, m, n, 0real, n, d);
    slack_is_small(0real, 0real);
    quotient_rounds(p, hundred);
    product_rounds(q, m);
}

/// A higher percentage has no lower rank.
proof fn ranks_are_in_order(total: u64, i: int)
    requires
        1 <= total <= 1000000,
        0 <= i < 4,
    ensures
        rank_of(total, percentage(i)) <= rank_of(total, percentage(i + 1)),
{
    let (hundred, m) = (Real { bits: HUNDRED }, Real::nearest_to(total as int));
    reaches(total, i);
    reaches(total, i + 1);
    let v = percentage(i).over(hundred).times(m);
    let u = percentage(i + 1).over(hundred).times(m);
    ceiling_is_near(v);
    ceiling_is_near(u);
    assert(value(v) <= value(u));
    assert(v.ceiling_integer() <= u.ceiling_integer());
}

/// The value of a half.
pub proof fn half_value()
    ensures
        is_positive(Real { bits: HALF }),
        value(Real { bits: HALF }) == 1real / 2real,
{
    formats(Width::Double);
    lemma2_to64_rest();
    digits(HALF, 4503599627370496, 53);
    let (n, p) = (4503599627370496real, power(53));
    assert(p == 9007199254740992real);
    assert(n / p == 1real / 2real) by (nonlinear_arith)
        requires
            n == 4503599627370496real,
            p == 9007199254740992real,
    ;
}

/// A whole number to one decimal place is itself.
proof fn wholes_are_tenths(n: nat)
    requires
        n <= 255,
    ensures
        tenths(Real::nearest_to(n as int)) == Real::nearest_to(n as int),
{
    let (ten, half) = (Real { bits: TEN }, Real { bits: HALF });
    let v = Real::nearest_to(n as int);
    let scaled = v.times(ten);
    assert(scaled == Real::nearest_to((10 * n) as int)) by {
        ten_is_whole();
        reveal(Real::nearest_to);
        reveal(Real::spec_times);
        if n == 0 {
            zero_stays(10);
        } else {
            wholes_multiply(n, 10);
        }
    }
    half_value();
    wholes_are_themselves((10 * n) as nat);
    let more = scaled.plus(half);
    assert(6001real * grain() <= 1real / 4real);
    near_sum(
        scaled,
        (10 * n) as real,
        0real,
        half,
        1real / 2real,
        0real,
        3000real,
        1real / 4real,
    );
    assert(is_positive(more)) by {
        reveal(Real::spec_plus);
    }
    let m = floor_is_near(more);
    assert(m == 10 * n);
    assert(scaled.over(ten) == v) by {
        ten_is_whole();
        reveal(Real::nearest_to);
        reveal(Real::spec_over);
        if n == 0 {
            zero_stays(10);
        } else {
            wholes_divide(n, 10);
        }
    }
    wholes_are_in_order(0, (10 * n) as nat);
    wholes_are_in_order((10 * n) as nat, 0);
    wholes_are_themselves(0);
    assert(Real::nearest_to(0) == Real { bits: 0 }) by {
        reveal(Real::nearest_to);
    }
}

proof fn ten_is_whole()
    ensures
        Real::nearest_to(10) == (Real { bits: TEN }),
{
    wholes_are_themselves(10);
    share_values();
    let (a, b) = (Real::nearest_to(10), Real { bits: TEN });
    order_is_by_value(a, b);
    order_is_by_value(b, a);
}

/// A whole number from 0 to 255.
pub open spec fn is_byte(v: Real) -> bool {
    exists|n: int| 0 <= n <= 255 && v == #[trigger] Real::nearest_to(n)
}

/// The percentiles of an image are whole numbers from 0 to 255, in the order of their
/// percentages.
pub proof fn percentiles_are_in_order(
    buf: Seq<u8>,
    channels: int,
    width: u32,
    height: u32,
    stats: ImageStats,
)
    requires
        width > 0,
        height > 0,
        measured(buf, channels, width, height, stats),
    ensures
        is_byte(stats.luma_p0_2),
        is_byte(stats.luma_p1),
        is_byte(stats.luma_p50),
        is_byte(stats.luma_p99),
        is_byte(stats.luma_p99_8),
        (Real { bits: 0 }).at_most(stats.luma_p0_2),
        stats.luma_p0_2.at_most(stats.luma_p1),
        stats.luma_p1.at_most(stats.luma_p50),
        stats.luma_p50.at_most(stats.luma_p99),
        stats.luma_p99.at_most(stats.luma_p99_8),
        stats.luma_p99_8.at_most(Real::nearest_to(255)),
{
    let (k, t, gray) = choose|k: u32, t: Tally, gray: Image<u8>|
        #![trigger is_grid_stride(width, height, k), stats_from(t, stats.sharpness), gray_of(
            buf,
            channels,
            width,
            height,
            gray,
        )]
        {
            &&& is_grid_stride(width, height, k)
            &&& tallied(buf, channels, width, height, k as int, t)
            &&& gray_of(buf, channels, width, height, gray)
            &&& sharpness_is(gray, stats.sharpness)
            &&& stats == stats_from(t, stats.sharpness)
        };
    assert(t.count == samples(width, height, k as int));
    some_samples(width, height, k as int);
    let h = t.hist@;
    let (ra, rb, rc, rd, re) = (
        rank_of(t.count, percentage(0)),
        rank_of(t.count, percentage(1)),
        rank_of(t.count, percentage(2)),
        rank_of(t.count, percentage(3)),
        rank_of(t.count, percentage(4)),
    );
    ranks_are_in_order(t.count, 0);
    ranks_are_in_order(t.count, 1);
    ranks_are_in_order(t.count, 2);
    ranks_are_in_order(t.count, 3);
    bins_are_in_order(h, ra, rb, 0, 0);
    bins_are_in_order(h, rb, rc, 0, 0);
    bins_are_in_order(h, rc, rd, 0, 0);
    bins_are_in_order(h, rd, re, 0, 0);
    let (a, b, c, d, e) = (
        bin_at_rank(h, ra, 0, 0),
        bin_at_rank(h, rb, 0, 0),
        bin_at_rank(h, rc, 0, 0),
        bin_at_rank(h, rd, 0, 0),
        bin_at_rank(h, re, 0, 0),
    );
    wholes_are_tenths(a as nat);
    wholes_are_tenths(b as nat);
    wholes_are_tenths(c as nat);
    wholes_are_tenths(d as nat);
    wholes_are_tenths(e as nat);
    assert(Real::nearest_to(0) == Real { bits: 0 }) by {
        reveal(Real::nearest_to);
    }
    at_most_as_wholes(0, a as nat);
    at_most_as_wholes(a as nat, b as nat);
    at_most_as_wholes(b as nat, c as nat);
    at_most_as_wholes(c as nat, d as nat);
    at_most_as_wholes(d as nat, e as nat);
    at_most_as_wholes(e as nat, 255);
}

proof fn at_most_as_wholes(n: nat, m: nat)
    requires
        n <= m <= 255,
    ensures
        Real::nearest_to(n as int).at_most(Real::nearest_to(m as int)),
{
    wholes_are_in_order(n, m);
    wholes_are_in_order(m, n);
}

/// A grid has at least one sample.
proof fn some_samples(width: u32, height: u32, k: int)
    requires
        width > 0,
        height > 0,
        k >= 1,
    ensures
        samples(width, height, k) >= 1,
{
    ceil_div_is(width as int, k);
    ceil_div_is(height as int, k);
    let (a, b) = (
        ceil_div(width as int, k),
        ceil_div(height as int, k),
    );
    assert(a * b >= 1) by (nonlinear_arith)
        requires
            a >= 1,
            b >= 1,
    ;
}

} // verus!
