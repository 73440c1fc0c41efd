//! Measures of an image: luminance, percentiles, means and sharpness.
use vstd::prelude::*;

use crate::binary::Real;
use crate::raster::{place, place_is_inside, Image};
use crate::sums::{sum_box, sum_row};

verus! {

/// The number of bins of a histogram.
pub const BINS: usize = 256;

/// The most pixels that are sampled.
pub const TARGET_SAMPLES: u64 = 262_144;

/// The long edge at which sharpness is measured.
pub const SHARPNESS_LONG_EDGE: u32 = 1024;

/// The weight of red in BT.709 luminance, 0.2126, as a bit pattern.
pub const LUMA_R: u64 = 0x3FCB_367A_0F90_96BC;

/// The weight of green, 0.7152.
pub const LUMA_G: u64 = 0x3FE6_E2EB_1C43_2CA5;

/// The weight of blue, 0.0722.
pub const LUMA_B: u64 = 0x3FB2_7BB2_FEC5_6D5D;

/// One half.
pub const HALF: u64 = 0x3FE0_0000_0000_0000;

/// Measures of an image, on the scale of its 8-bit values.
#[derive(Clone, Copy, Debug, PartialEq, Eq, Structural)]
pub struct ImageStats {
    pub luma_p0_2: Real,
    pub luma_p1: Real,
    pub luma_p50: Real,
    pub luma_p99: Real,
    pub luma_p99_8: Real,
    pub mean_r: Real,
    pub mean_g: Real,
    pub mean_b: Real,
    pub sharpness: Real,
}

/// BT.709 luminance rounded to a byte.
pub open spec fn luma(r: u8, g: u8, b: u8) -> int {
    (2126 * r + 7152 * g + 722 * b + 5000) / 10000
}

/// BT.709 luminance rounded to a byte.
pub fn luma_u8(r: u8, g: u8, b: u8) -> (v: u8)
    ensures
        v == luma(r, g, b),
{
    let v: u32 = 2126 * (r as u32) + 7152 * (g as u32) + 722 * (b as u32) + 5000;
    (v / 10000) as u8
}

/// The luminance of the pixel at place `i` of an interleaved buffer.
pub open spec fn luma_at(buf: Seq<u8>, channels: int, i: int) -> int {
    luma(buf[i * channels], buf[i * channels + 1], buf[i * channels + 2])
}

/// A buffer holds exactly the pixels of an image that is not empty.
pub open spec fn buffer_fits(buf: Seq<u8>, channels: int, width: u32, height: u32) -> bool {
    width > 0 && height > 0 && buf.len() == width * height * channels
}

/// Whether a buffer holds exactly the pixels of an image that is not empty.
pub(crate) fn buffer_matches(buf: &[u8], channels: usize, width: u32, height: u32) -> (r: bool)
    requires
        3 <= channels <= 4,
    ensures
        r == buffer_fits(buf@, channels as int, width, height),
{
    if width == 0 || height == 0 {
        return false;
    }
    proof {
        let a = width as int;
        let b = height as int;
        assert(0 <= a * b <= 0xFFFF_FFFF * 0xFFFF_FFFF) by (nonlinear_arith)
            requires
                0 <= a <= 0xFFFF_FFFF,
                0 <= b <= 0xFFFF_FFFF,
        ;
        assert(a * b * channels <= a * b * 4) by (nonlinear_arith)
            requires
                a * b >= 0,
                channels <= 4,
        ;
    }
    let pixels: u64 = width as u64 * height as u64;
    buf.len() as u128 == pixels as u128 * channels as u128
}

/// `g` is the luminance image of an interleaved buffer.
pub open spec fn gray_of(
    buf: Seq<u8>,
    channels: int,
    width: u32,
    height: u32,
    g: Image<u8>,
) -> bool {
    &&& g.well_formed()
    &&& g.width == width
    &&& g.height == height
    &&& forall|i: int| 0 <= i < g.data@.len() ==> #[trigger] g.data@[i] == luma_at(buf, channels, i)
}

/// The luminance image of an interleaved buffer with at least three channels, if the
/// buffer fits the size.
pub fn gray_from_interleaved(buf: &[u8], channels: usize, width: u32, height: u32) -> (r: Option<
    Image<u8>,
>)
    requires
        3 <= channels <= 4,
    ensures
        match r {
            Some(g) => {
                &&& buffer_fits(buf@, channels as int, width, height)
                &&& gray_of(buf@, channels as int, width, height, g)
            },
            None => !buffer_fits(buf@, channels as int, width, height),
        },
{
    if !buffer_matches(buf, channels, width, height) {
        return None;
    }
    let mut data: Vec<u8> = Vec::new();
    let mut at: usize = 0;
    let ghost n = width * height;
    proof {
        assert(0 * channels == 0) by (nonlinear_arith);
        let a = width as int;
        let b = height as int;
        assert(a * b >= 0) by (nonlinear_arith)
            requires
                a >= 0,
                b >= 0,
        ;
    }
    while at < buf.len()
        invariant
            3 <= channels <= 4,
            n == width * height,
            buf@.len() == n * channels,
            at == data@.len() * channels,
            data@.len() <= n,
            forall|i: int|
                0 <= i < data@.len() ==> #[trigger] data@[i] == luma_at(buf@, channels as int, i),
        decreases buf.len() - at,
    {
        proof {
            let d = data@.len() as int;
            let c = channels as int;
            assert(d < n) by (nonlinear_arith)
                requires
                    d * c < n * c,
                    c > 0,
            ;
            assert((d + 1) * c == d * c + c) by (nonlinear_arith);
            assert((d + 1) * c <= n * c) by (nonlinear_arith)
                requires
                    d + 1 <= n,
                    c > 0,
            ;
        }
        data.push(luma_u8(buf[at], buf[at + 1], buf[at + 2]));
        at = at + channels;
    }
    proof {
        let d = data@.len() as int;
        let c = channels as int;
        assert(d == n) by (nonlinear_arith)
            requires
                d * c >= n * c,
                d <= n,
                c > 0,
        ;
    }
    Some(Image { width, height, data })
}

/// The smallest whole number `q` with `q * k >= n`.
pub open spec fn ceil_div(n: int, k: int) -> int {
    (n + k - 1) / k
}

/// Division that rounds up.
pub proof fn ceil_div_is(n: int, k: int)
    requires
        n >= 0,
        k > 0,
    ensures
        ceil_div(n, k) >= 0,
        ceil_div(n, k) * k >= n,
        (ceil_div(n, k) - 1) * k < n,
        ceil_div(n, k) <= n,
        n > 0 ==> ceil_div(n, k) >= 1,
{
    let q = ceil_div(n, k);
    vstd::arithmetic::div_mod::lemma_fundamental_div_mod(n + k - 1, k);
    let r = (n + k - 1) % k;
    assert(q * k >= n && (q - 1) * k < n && q >= 0 && q <= n) by (nonlinear_arith)
        requires
            n + k - 1 == k * q + r,
            0 <= r < k,
            n >= 0,
            k > 0,
    ;
    if q == 0 {
        assert(q * k == 0) by (nonlinear_arith)
            requires
                q == 0,
        ;
    }
}

/// Divides and rounds up.
pub(crate) fn div_up(n: u32, k: u32) -> (r: u32)
    requires
        k > 0,
    ensures
        r == ceil_div(n as int, k as int),
{
    proof {
        ceil_div_is(n as int, k as int);
    }
    ((n as u64 + k as u64 - 1) / k as u64) as u32
}

/// The value of a pixel as a whole number.
pub open spec fn value_at(img: Image<u8>) -> spec_fn(int, int) -> int {
    |x: int, y: int| img.pixel(x, y) as int
}

/// The smaller of two numbers.
pub open spec fn least(a: int, b: int) -> int {
    if a < b {
        a
    } else {
        b
    }
}

/// The mean of the `k` by `k` box in column `bx` of row `by`, rounded to the nearest
/// whole number. Boxes at the right and the lower edge may be smaller.
pub open spec fn box_mean(img: Image<u8>, k: int, bx: int, by: int) -> int {
    let x0 = bx * k;
    let y0 = by * k;
    let x1 = least(x0 + k, img.width as int);
    let y1 = least(y0 + k, img.height as int);
    let count = (x1 - x0) * (y1 - y0);
    (sum_box(value_at(img), x0, x1, y0, y1) + count / 2) / count
}

/// The side of the boxes that bring a long edge down to a target.
pub open spec fn box_side(w: u32, h: u32, long_edge: u32) -> int {
    let long = if w > h {
        w as int
    } else {
        h as int
    };
    if long <= long_edge || long_edge == 0 {
        1
    } else {
        ceil_div(long, long_edge as int)
    }
}

/// `out` is `img` brought down by whole boxes until no edge is longer than
/// `long_edge`. An image that is not longer stays as it is, as does every image where
/// `long_edge` is 0.
pub open spec fn downscaled(img: Image<u8>, long_edge: u32, out: Image<u8>) -> bool {
    let k = box_side(img.width, img.height, long_edge);
    if k == 1 {
        out.width == img.width && out.height == img.height && out.data@ == img.data@
    } else {
        &&& out.width == ceil_div(img.width as int, k)
        &&& out.height == ceil_div(img.height as int, k)
        &&& forall|x: int, y: int|
            0 <= x < out.width && 0 <= y < out.height ==> #[trigger] out.pixel(x, y) == box_mean(
                img,
                k,
                x,
                y,
            )
    }
}

proof fn boxes_are_inside(len: int, k: int, b: int)
    requires
        0 <= b < ceil_div(len, k),
        k > 0,
        len >= 0,
    ensures
        0 <= b * k < len,
{
    ceil_div_is(len, k);
    let q = ceil_div(len, k);
    assert(0 <= b * k <= (q - 1) * k) by (nonlinear_arith)
        requires
            0 <= b <= q - 1,
            k > 0,
    ;
}

/// Brings an image down by whole boxes until no edge is longer than `long_edge`.
pub fn downscale_gray(gray: &Image<u8>, long_edge: u32) -> (r: Image<u8>)
    requires
        gray.well_formed(),
    ensures
        r.well_formed(),
        downscaled(*gray, long_edge, r),
        long_edge > 0 ==> r.width <= long_edge && r.height <= long_edge,
{
    let w: u32 = gray.width;
    let h: u32 = gray.height;
    let long: u32 = if w > h {
        w
    } else {
        h
    };
    if long <= long_edge || long_edge == 0 {
        let copy: Image<u8> = Image { width: w, height: h, data: gray.data.clone() };
        assert(copy.data@ =~= gray.data@);
        return copy;
    }
    let k: u32 = div_up(long, long_edge);
    proof {
        ceil_div_is(long as int, long_edge as int);
    }
    let nw: u32 = div_up(w, k);
    let nh: u32 = div_up(h, k);
    let ghost g = *gray;
    proof {
        let edge = long_edge as int;
        ceil_div_is(long as int, edge);
        ceil_div_is(w as int, k as int);
        ceil_div_is(h as int, k as int);
        let kk = k as int;
        assert(kk > 1) by (nonlinear_arith)
            requires
                kk * edge >= long,
                edge < long,
                edge > 0,
        ;
        assert(edge * kk == kk * edge) by (nonlinear_arith);
        ceil_div_below(w as int, kk, edge);
        ceil_div_below(h as int, kk, edge);
        let a = nw as int;
        let b = nh as int;
        let c = w as int;
        let d = h as int;
        assert(a * b <= c * d) by (nonlinear_arith)
            requires
                0 <= a <= c,
                0 <= b <= d,
        ;
    }
    let count: usize = gray.data.len();
    let f = |bx: u32, by: u32| -> (p: u8)
        requires
            bx < nw,
            by < nh,
            gray.well_formed(),
            k > 0,
            gray.width == w,
            gray.height == h,
            nw == ceil_div(w as int, k as int),
            nh == ceil_div(h as int, k as int),
        ensures
            p == box_mean(*gray, k as int, bx as int, by as int),
        { mean_of_box(gray, k, bx, by) };
    let r: Image<u8> = Image::build(nw, nh, f);
    proof {
        assert forall|x: int, y: int| 0 <= x < nw && 0 <= y < nh implies #[trigger] r.pixel(x, y)
            == box_mean(g, k as int, x, y) by {
            assert(call_ensures(f, (x as u32, y as u32), r.pixel(x as u32 as int, y as u32 as int)));
        }
    }
    r
}

proof fn ceil_div_below(n: int, k: int, edge: int)
    requires
        0 <= n <= edge * k,
        k > 0,
    ensures
        ceil_div(n, k) <= edge,
{
    ceil_div_is(n, k);
    let q = ceil_div(n, k);
    assert(q <= edge) by (nonlinear_arith)
        requires
            (q - 1) * k < n,
            n <= edge * k,
            k > 0,
    ;
}

/// What is not empty does not become empty.
pub proof fn downscaled_is_not_empty(img: Image<u8>, long_edge: u32, out: Image<u8>)
    requires
        downscaled(img, long_edge, out),
        img.width > 0,
        img.height > 0,
    ensures
        out.width > 0,
        out.height > 0,
{
    let long = if img.width > img.height {
        img.width as int
    } else {
        img.height as int
    };
    if long_edge > 0 {
        ceil_div_is(long, long_edge as int);
    }
    let k = box_side(img.width, img.height, long_edge);
    ceil_div_is(img.width as int, k);
    ceil_div_is(img.height as int, k);
}

/// No edge stays longer than the target.
pub proof fn downscaled_is_short(img: Image<u8>, long_edge: u32, out: Image<u8>)
    requires
        downscaled(img, long_edge, out),
        long_edge > 0,
    ensures
        out.width <= long_edge,
        out.height <= long_edge,
{
    let long = if img.width > img.height {
        img.width as int
    } else {
        img.height as int
    };
    let edge = long_edge as int;
    ceil_div_is(long, edge);
    let k = box_side(img.width, img.height, long_edge);
    if long > edge {
        assert(k > 1) by (nonlinear_arith)
            requires
                k * edge >= long,
                edge < long,
                edge > 0,
        ;
        assert(edge * k == k * edge) by (nonlinear_arith);
        ceil_div_below(img.width as int, k, edge);
        ceil_div_below(img.height as int, k, edge);
    }
}

/// The rounded mean of one box.
fn mean_of_box(img: &Image<u8>, k: u32, bx: u32, by: u32) -> (r: u8)
    requires
        img.well_formed(),
        k > 0,
        bx < ceil_div(img.width as int, k as int),
        by < ceil_div(img.height as int, k as int),
    ensures
        r == box_mean(*img, k as int, bx as int, by as int),
{
    proof {
        boxes_are_inside(img.width as int, k as int, bx as int);
        boxes_are_inside(img.height as int, k as int, by as int);
    }
    let x0: u32 = bx * k;
    let y0: u32 = by * k;
    let x1: u32 = if k < img.width - x0 {
        x0 + k
    } else {
        img.width
    };
    let y1: u32 = if k < img.height - y0 {
        y0 + k
    } else {
        img.height
    };
    let count_of: usize = img.data.len();
    let ghost a = x1 - x0;
    let ghost b = y1 - y0;
    proof {
        let c = img.width as int;
        let d = img.height as int;
        assert(1 <= a * b <= c * d) by (nonlinear_arith)
            requires
                1 <= a <= c,
                1 <= b <= d,
        ;
        assert(c * d <= 0xFFFF_FFFF * 0xFFFF_FFFF) by (nonlinear_arith)
            requires
                0 <= c <= 0xFFFF_FFFF,
                0 <= d <= 0xFFFF_FFFF,
        ;
    }
    let count: u64 = (x1 - x0) as u64 * (y1 - y0) as u64;
    let sum: u128 = sum_pixels(img, x0, x1, y0, y1);
    proof {
        let s = sum as int;
        let n = count as int;
        assert((s + n / 2) / n <= 255) by (nonlinear_arith)
            requires
                0 <= s <= 255 * n,
                n >= 1,
        ;
    }
    ((sum + (count / 2) as u128) / count as u128) as u8
}

/// The sum of the pixels in a box.
fn sum_pixels(img: &Image<u8>, x0: u32, x1: u32, y0: u32, y1: u32) -> (r: u128)
    requires
        img.well_formed(),
        x0 <= x1 <= img.width,
        y0 <= y1 <= img.height,
    ensures
        r == sum_box(value_at(*img), x0 as int, x1 as int, y0 as int, y1 as int),
        r <= 255 * ((x1 - x0) * (y1 - y0)),
{
    let ghost f = value_at(*img);
    let mut total: u128 = 0;
    let mut y: u32 = y0;
    while y < y1
        invariant
            img.well_formed(),
            f == value_at(*img),
            x0 <= x1 <= img.width,
            y0 <= y <= y1 <= img.height,
            total == sum_box(f, x0 as int, x1 as int, y0 as int, y as int),
            total <= 255 * ((x1 - x0) * (y - y0)),
        decreases y1 - y,
    {
        let ghost before = total;
        let ghost w = x1 - x0;
        let ghost n = y - y0;
        proof {
            assert(0 <= w * n <= 0xFFFF_FFFF * 0xFFFF_FFFF) by (nonlinear_arith)
                requires
                    0 <= w <= 0xFFFF_FFFF,
                    0 <= n <= 0xFFFF_FFFF,
            ;
        }
        let mut x: u32 = x0;
        while x < x1
            invariant
                img.well_formed(),
                f == value_at(*img),
                x0 <= x <= x1 <= img.width,
                y0 <= y < y1 <= img.height,
                before <= 255 * (0xFFFF_FFFF * 0xFFFF_FFFF),
                total == before + sum_row(f, x0 as int, x as int, y as int),
                total <= before + 255 * (x - x0),
            decreases x1 - x,
        {
            let v: u8 = img.get(x, y);
            assert(f(x as int, y as int) == v);
            total = total + v as u128;
            x = x + 1;
        }
        proof {
            assert(w * n + w == w * (n + 1)) by (nonlinear_arith);
        }
        y = y + 1;
    }
    total
}

/// A number rounded to one decimal place; halves go away from zero.
pub open spec fn tenths(v: Real) -> Real {
    let ten = Real { bits: 0x4024_0000_0000_0000 };
    let half = Real { bits: HALF };
    let scaled = v.times(ten);
    if (Real { bits: 0 }).at_most(scaled) {
        scaled.plus(half).floor().over(ten)
    } else {
        scaled.minus(half).ceiling().over(ten)
    }
}

/// Rounds a number to one decimal place; halves go away from zero.
pub fn round1(v: Real) -> (r: Real)
    ensures
        r == tenths(v),
{
    let ten: Real = Real { bits: 0x4024_0000_0000_0000 };
    let half: Real = Real { bits: HALF };
    let scaled: Real = v.times(ten);
    let zero: Real = Real { bits: 0 };
    if zero.at_most(scaled) {
        scaled.plus(half).floor().over(ten)
    } else {
        scaled.minus(half).ceiling().over(ten)
    }
}

/// The Laplacian at a pixel: its four neighbours less four times itself.
pub open spec fn laplacian(img: Image<u8>) -> spec_fn(int, int) -> int {
    |x: int, y: int|
        img.pixel(x, y - 1) + img.pixel(x - 1, y) + img.pixel(x + 1, y) + img.pixel(x, y + 1) - 4
            * img.pixel(x, y)
}

/// The square of the Laplacian at a pixel.
pub open spec fn laplacian_squared(img: Image<u8>) -> spec_fn(int, int) -> int {
    |x: int, y: int| laplacian(img)(x, y) * laplacian(img)(x, y)
}

/// The variance of the Laplacian over the inner pixels, to one decimal place. It is 0
/// for an image without inner pixels.
pub open spec fn laplacian_variance_of(img: Image<u8>) -> Real {
    if img.width < 3 || img.height < 3 {
        Real { bits: 0 }
    } else {
        let n = (img.width - 2) * (img.height - 2);
        let sum = sum_box(laplacian(img), 1, img.width - 1, 1, img.height - 1);
        let squares = sum_box(laplacian_squared(img), 1, img.width - 1, 1, img.height - 1);
        tenths(
            Real::nearest_to(n * squares - sum * sum).over(
                Real::nearest_to(n).times(Real::nearest_to(n)),
            ),
        )
    }
}

/// The variance of the Laplacian over the inner pixels, to one decimal place.
fn laplacian_variance(img: &Image<u8>) -> (r: Real)
    requires
        img.well_formed(),
        img.width <= 1024,
        img.height <= 1024,
    ensures
        r == laplacian_variance_of(*img),
{
    let w: u32 = img.width;
    let h: u32 = img.height;
    if w < 3 || h < 3 {
        return Real { bits: 0 };
    }
    let ghost f = laplacian(*img);
    let ghost q = laplacian_squared(*img);
    let ghost inner = (w - 2) as int;
    let mut sum: i64 = 0;
    let mut squares: i64 = 0;
    let mut y: u32 = 1;
    while y < h - 1
        invariant
            img.well_formed(),
            3 <= w <= 1024,
            3 <= h <= 1024,
            w == img.width,
            h == img.height,
            inner == w - 2,
            1 <= y <= h - 1,
            f == laplacian(*img),
            q == laplacian_squared(*img),
            sum == sum_box(f, 1, w - 1, 1, y as int),
            squares == sum_box(q, 1, w - 1, 1, y as int),
            -1020 * (inner * (y - 1)) <= sum <= 1020 * (inner * (y - 1)),
            0 <= squares <= 1_040_400 * (inner * (y - 1)),
        decreases h - y,
    {
        let ghost sum0 = sum;
        let ghost squares0 = squares;
        let ghost rows = y - 1;
        proof {
            assert(0 <= inner * rows <= 1022 * 1022) by (nonlinear_arith)
                requires
                    0 <= inner <= 1022,
                    0 <= rows <= 1022,
            ;
        }
        let mut x: u32 = 1;
        while x < w - 1
            invariant
                img.well_formed(),
                3 <= w <= 1024,
                3 <= h <= 1024,
                w == img.width,
                h == img.height,
                1 <= x <= w - 1,
                1 <= y < h - 1,
                f == laplacian(*img),
                q == laplacian_squared(*img),
                -1020 * 1_044_484 <= sum0 <= 1020 * 1_044_484,
                0 <= squares0 <= 1_040_400 * 1_044_484,
                sum == sum0 + sum_row(f, 1, x as int, y as int),
                squares == squares0 + sum_row(q, 1, x as int, y as int),
                -1020 * (x - 1) <= sum - sum0 <= 1020 * (x - 1),
                0 <= squares - squares0 <= 1_040_400 * (x - 1),
            decreases w - x,
        {
            let c: i64 = img.get(x, y) as i64;
            let up: i64 = img.get(x, y - 1) as i64;
            let down: i64 = img.get(x, y + 1) as i64;
            let left: i64 = img.get(x - 1, y) as i64;
            let right: i64 = img.get(x + 1, y) as i64;
            let l: i64 = up + left + right + down - 4 * c;
            assert(f(x as int, y as int) == l);
            assert(q(x as int, y as int) == l * l);
            assert(0 <= l * l <= 1020 * 1020) by (nonlinear_arith)
                requires
                    -1020 <= l <= 1020,
            ;
            sum = sum + l;
            squares = squares + l * l;
            x = x + 1;
        }
        proof {
            assert(inner * rows + inner == inner * (rows + 1)) by (nonlinear_arith);
        }
        y = y + 1;
    }
    let ghost rows = (h - 2) as int;
    proof {
        assert(0 <= inner * rows <= 1022 * 1022) by (nonlinear_arith)
            requires
                0 <= inner <= 1022,
                0 <= rows <= 1022,
        ;
    }
    let n: i64 = (w - 2) as i64 * (h - 2) as i64;
    proof {
        let a = n as int;
        let b = squares as int;
        let s = sum as int;
        assert(0 <= a * b <= 1_044_484 * (1_040_400 * 1_044_484)) by (nonlinear_arith)
            requires
                0 <= a <= 1_044_484,
                0 <= b <= 1_040_400 * 1_044_484,
        ;
        assert(0 <= s * s <= 1_065_373_680 * 1_065_373_680) by (nonlinear_arith)
            requires
                -1_065_373_680 <= s <= 1_065_373_680,
        ;
    }
    let numerator: i64 = n * squares - sum * sum;
    let count: Real = Real::from_integer(n);
    round1(Real::from_integer(numerator).over(count.times(count)))
}

/// The sharpness of an image: the variance of its Laplacian once it is brought down to
/// at most 1024 pixels on the long edge.
pub open spec fn sharpness_is(img: Image<u8>, v: Real) -> bool {
    exists|small: Image<u8>|
        #![trigger downscaled(img, SHARPNESS_LONG_EDGE, small)]
        small.well_formed() && downscaled(img, SHARPNESS_LONG_EDGE, small) && v
            == laplacian_variance_of(small)
}

/// Measures the sharpness of an image.
pub fn sharpness_gray(gray: &Image<u8>) -> (r: Real)
    requires
        gray.well_formed(),
    ensures
        sharpness_is(*gray, r),
{
    let small: Image<u8> = downscale_gray(gray, SHARPNESS_LONG_EDGE);
    let r: Real = laplacian_variance(&small);
    assert(small.well_formed() && downscaled(*gray, SHARPNESS_LONG_EDGE, small));
    r
}

/// How many pixels a grid of stride `k` samples.
pub open spec fn samples(width: u32, height: u32, k: int) -> int {
    ceil_div(width as int, k) * ceil_div(height as int, k)
}

/// How many pixels a grid of stride `k` samples. A stride of 0 counts as 1.
pub fn samples_for(width: u32, height: u32, k: u32) -> (r: u64)
    ensures
        r == samples(
            width,
            height,
            if k == 0 {
                1
            } else {
                k as int
            },
        ),
{
    let k: u32 = if k == 0 {
        1
    } else {
        k
    };
    let nx: u32 = div_up(width, k);
    let ny: u32 = div_up(height, k);
    proof {
        let a = nx as int;
        let b = ny as int;
        assert(0 <= a * b <= 0xFFFF_FFFF * 0xFFFF_FFFF) by (nonlinear_arith)
            requires
                0 <= a <= 0xFFFF_FFFF,
                0 <= b <= 0xFFFF_FFFF,
        ;
    }
    nx as u64 * ny as u64
}

/// `k` is the smallest stride at which a grid samples no more pixels than the target.
pub open spec fn is_grid_stride(width: u32, height: u32, k: u32) -> bool {
    &&& k >= 1
    &&& samples(width, height, k as int) <= TARGET_SAMPLES
    &&& forall|j: int| 1 <= j < k ==> #[trigger] samples(width, height, j) > TARGET_SAMPLES
}

proof fn ceil_div_shrinks(n: int, j: int, k: int)
    requires
        n >= 0,
        0 < j <= k,
    ensures
        ceil_div(n, k) <= ceil_div(n, j),
{
    ceil_div_is(n, j);
    ceil_div_is(n, k);
    let a = ceil_div(n, j);
    let b = ceil_div(n, k);
    assert(b <= a) by (nonlinear_arith)
        requires
            a * j >= n,
            (b - 1) * k < n,
            0 < j <= k,
            a >= 0,
    ;
}

/// An image of no more pixels than the target is measured on all of them.
pub proof fn small_images_are_measured_whole(width: u32, height: u32, k: u32)
    requires
        is_grid_stride(width, height, k),
        width * height <= TARGET_SAMPLES,
    ensures
        k == 1,
        samples(width, height, 1) == width * height,
{
    ceil_div_is(width as int, 1);
    ceil_div_is(height as int, 1);
    assert(samples(width, height, 1) == width * height);
}

/// A larger stride samples no more pixels.
pub proof fn samples_shrink(width: u32, height: u32, j: int, k: int)
    requires
        0 < j <= k,
    ensures
        samples(width, height, k) <= samples(width, height, j),
{
    ceil_div_shrinks(width as int, j, k);
    ceil_div_shrinks(height as int, j, k);
    ceil_div_is(width as int, k);
    ceil_div_is(height as int, k);
    let a = ceil_div(width as int, k);
    let b = ceil_div(height as int, k);
    let c = ceil_div(width as int, j);
    let d = ceil_div(height as int, j);
    assert(a * b <= c * d) by (nonlinear_arith)
        requires
            0 <= a <= c,
            0 <= b <= d,
    ;
}

/// The smallest stride at which a grid samples at most 262144 pixels.
pub fn grid_stride(width: u32, height: u32) -> (r: u32)
    ensures
        is_grid_stride(width, height, r),
{
    let total: u64 = samples_for(width, height, 1);
    if total <= TARGET_SAMPLES {
        return 1;
    }
    // A close guess by the square root; the loops make it exact.
    let guess: i64 = Real::from_whole(total as u128).over(
        Real::from_whole(TARGET_SAMPLES as u128),
    ).root().ceiling_integer();
    let mut k: u32 = if guess < 1 {
        1
    } else if guess > 0xFFFF_FFFF {
        0xFFFF_FFFF
    } else {
        guess as u32
    };
    while k > 1 && samples_for(width, height, k - 1) <= TARGET_SAMPLES
        invariant
            k >= 1,
        decreases k,
    {
        k = k - 1;
    }
    proof {
        if k > 1 {
            assert(samples(width, height, k - 1) > TARGET_SAMPLES);
            assert forall|j: int| 1 <= j < k implies #[trigger] samples(width, height, j)
                > TARGET_SAMPLES by {
                samples_shrink(width, height, j, k - 1);
            }
        }
    }
    while samples_for(width, height, k) > TARGET_SAMPLES
        invariant
            k >= 1,
            forall|j: int| 1 <= j < k ==> #[trigger] samples(width, height, j) > TARGET_SAMPLES,
        decreases 0xFFFF_FFFF - k,
    {
        proof {
            // At the largest stride there is one sample at most.
            if k == 0xFFFF_FFFF {
                ceil_div_below(width as int, 0xFFFF_FFFF, 1);
                ceil_div_below(height as int, 0xFFFF_FFFF, 1);
                ceil_div_is(width as int, 0xFFFF_FFFF);
                ceil_div_is(height as int, 0xFFFF_FFFF);
                let a = ceil_div(width as int, 0xFFFF_FFFF);
                let b = ceil_div(height as int, 0xFFFF_FFFF);
                assert(a * b <= 1) by (nonlinear_arith)
                    requires
                        0 <= a <= 1,
                        0 <= b <= 1,
                ;
            }
        }
        k = k + 1;
    }
    k
}

/// The BT.709 luminance of a pixel, unrounded.
pub open spec fn exact_luma(r: u8, g: u8, b: u8) -> Real {
    (Real { bits: LUMA_R }).times(Real::nearest_to(r as int)).plus(
        (Real { bits: LUMA_G }).times(Real::nearest_to(g as int)),
    ).plus((Real { bits: LUMA_B }).times(Real::nearest_to(b as int)))
}

/// The bin of a luminance.
pub open spec fn bin(luma: Real) -> int {
    let n = luma.plus(Real { bits: HALF }).floor_integer();
    if n < 0 {
        0
    } else if n > 255 {
        255
    } else {
        n as int
    }
}

/// The bin of a pixel.
fn bin_of(r: u8, g: u8, b: u8) -> (v: usize)
    ensures
        v == bin(exact_luma(r, g, b)),
        v < 256,
{
    let red: Real = (Real { bits: LUMA_R }).times(Real::from_whole(r as u128));
    let green: Real = (Real { bits: LUMA_G }).times(Real::from_whole(g as u128));
    let blue: Real = (Real { bits: LUMA_B }).times(Real::from_whole(b as u128));
    let luma: Real = red.plus(green).plus(blue);
    let n: i64 = luma.plus(Real { bits: HALF }).floor_integer();
    if n < 0 {
        0
    } else if n > 255 {
        255
    } else {
        n as usize
    }
}

/// The first bin from `i` on at which the running count reaches a rank, or the last.
pub open spec fn bin_at_rank(hist: Seq<u64>, rank: int, i: int, below: int) -> int
    decreases 256 - i,
{
    if i >= 255 {
        255
    } else if below + hist[i] >= rank {
        i
    } else {
        bin_at_rank(hist, rank, i + 1, below + hist[i])
    }
}

/// The rank of a percentile among `total` samples: from 1 to `total`.
pub open spec fn rank_of(total: u64, percent: Real) -> int {
    let n = percent.over(Real { bits: 0x4059_0000_0000_0000 }).times(
        Real::nearest_to(total as int),
    ).ceiling_integer();
    if n > total {
        total as int
    } else if n < 1 {
        1
    } else {
        n as int
    }
}

/// A percentile of a histogram.
pub open spec fn percentile_of(hist: Seq<u64>, total: u64, percent: Real) -> Real {
    Real::nearest_to(bin_at_rank(hist, rank_of(total, percent), 0, 0))
}

/// A percentile of a histogram that holds `total` samples.
fn percentile(hist: &[u64; 256], total: u64, percent: Real) -> (r: Real)
    requires
        1 <= total <= 0x10_0000_0000_0000,
        forall|i: int| 0 <= i < 256 ==> #[trigger] hist@[i] <= total,
    ensures
        r == percentile_of(hist@, total, percent),
{
    let n: i64 = percent.over(Real { bits: 0x4059_0000_0000_0000 }).times(
        Real::from_whole(total as u128),
    ).ceiling_integer();
    let rank: u64 = if n > total as i64 {
        total
    } else if n < 1 {
        1
    } else {
        n as u64
    };
    let mut below: u64 = 0;
    let mut i: usize = 0;
    while i < 255
        invariant
            i <= 255,
            rank == rank_of(total, percent),
            1 <= total <= 0x10_0000_0000_0000,
            forall|i: int| 0 <= i < 256 ==> #[trigger] hist@[i] <= total,
            below <= i * 0x10_0000_0000_0000,
            bin_at_rank(hist@, rank as int, 0, 0) == bin_at_rank(
                hist@,
                rank as int,
                i as int,
                below as int,
            ),
        decreases 255 - i,
    {
        assert(hist@[i as int] <= total);
        if below + hist[i] >= rank {
            return Real::from_whole(i as u128);
        }
        below = below + hist[i];
        i = i + 1;
    }
    Real::from_whole(255)
}

/// One channel of the pixel in column `x` of row `y` of an interleaved buffer.
pub open spec fn channel_at(buf: Seq<u8>, channels: int, width: int, x: int, y: int, c: int) -> u8 {
    buf[place(width, x, y) * channels + c]
}

/// The values of one channel on a grid of stride `k`.
pub open spec fn grid_values(buf: Seq<u8>, channels: int, width: int, k: int, c: int) -> spec_fn(
    int,
    int,
) -> int {
    |i: int, j: int| channel_at(buf, channels, width, i * k, j * k, c) as int
}

/// Whether the samples on a grid of stride `k` fall into a bin: 1 or 0 for each.
pub open spec fn grid_hits(buf: Seq<u8>, channels: int, width: int, k: int, b: int) -> spec_fn(
    int,
    int,
) -> int {
    |i: int, j: int|
        if bin(
            exact_luma(
                channel_at(buf, channels, width, i * k, j * k, 0),
                channel_at(buf, channels, width, i * k, j * k, 1),
                channel_at(buf, channels, width, i * k, j * k, 2),
            ),
        ) == b {
            1
        } else {
            0
        }
}

/// What a grid of stride `k` finds: a histogram of luminance, the sums of the channels
/// and the number of samples.
pub struct Tally {
    pub hist: [u64; 256],
    pub sum_r: u64,
    pub sum_g: u64,
    pub sum_b: u64,
    pub count: u64,
}

/// A tally counts the grid of stride `k` over the whole image.
pub open spec fn tallied(
    buf: Seq<u8>,
    channels: int,
    width: u32,
    height: u32,
    k: int,
    t: Tally,
) -> bool {
    let w = width as int;
    let nx = ceil_div(width as int, k);
    let ny = ceil_div(height as int, k);
    &&& forall|b: int|
        0 <= b < 256 ==> #[trigger] t.hist@[b] == sum_box(
            grid_hits(buf, channels, w, k, b),
            0,
            nx,
            0,
            ny,
        )
    &&& t.sum_r == sum_box(grid_values(buf, channels, w, k, 0), 0, nx, 0, ny)
    &&& t.sum_g == sum_box(grid_values(buf, channels, w, k, 1), 0, nx, 0, ny)
    &&& t.sum_b == sum_box(grid_values(buf, channels, w, k, 2), 0, nx, 0, ny)
    &&& t.count == nx * ny
}

proof fn channel_is_inside(width: u32, height: u32, channels: int, x: int, y: int)
    requires
        0 <= x < width,
        0 <= y < height,
        3 <= channels <= 4,
    ensures
        0 <= place(width as int, x, y) * channels,
        place(width as int, x, y) * channels + channels <= width * height * channels,
{
    place_is_inside(width as int, height as int, x, y);
    let p = place(width as int, x, y);
    let n = width * height;
    assert(0 <= p * channels && p * channels + channels <= n * channels) by (nonlinear_arith)
        requires
            0 <= p < n,
            channels > 0,
    ;
}

/// Counts one sample.
fn count_sample(t: &mut Tally, r: u8, g: u8, b: u8)
    requires
        old(t).count < 0x10_0000_0000,
        old(t).sum_r <= 255 * old(t).count,
        old(t).sum_g <= 255 * old(t).count,
        old(t).sum_b <= 255 * old(t).count,
        forall|i: int| 0 <= i < 256 ==> #[trigger] old(t).hist@[i] <= old(t).count,
    ensures
        final(t).count == old(t).count + 1,
        final(t).sum_r == old(t).sum_r + r,
        final(t).sum_g == old(t).sum_g + g,
        final(t).sum_b == old(t).sum_b + b,
        forall|i: int|
            0 <= i < 256 ==> #[trigger] final(t).hist@[i] == old(t).hist@[i] + (if i == bin(
                exact_luma(r, g, b),
            ) {
                1int
            } else {
                0
            }),
{
    let at: usize = bin_of(r, g, b);
    assert(t.hist@[at as int] <= t.count);
    t.hist[at] = t.hist[at] + 1;
    t.sum_r = t.sum_r + r as u64;
    t.sum_g = t.sum_g + g as u64;
    t.sum_b = t.sum_b + b as u64;
    t.count = t.count + 1;
}

/// Counts the grid of stride `k`.
fn tally(buf: &[u8], channels: usize, width: u32, height: u32, k: u32) -> (t: Tally)
    requires
        3 <= channels <= 4,
        buffer_fits(buf@, channels as int, width, height),
        k >= 1,
        samples(width, height, k as int) <= TARGET_SAMPLES,
    ensures
        tallied(buf@, channels as int, width, height, k as int, t),
        1 <= t.count <= TARGET_SAMPLES,
        forall|i: int| 0 <= i < 256 ==> #[trigger] t.hist@[i] <= t.count,
{
    let nx: u32 = div_up(width, k);
    let ny: u32 = div_up(height, k);
    let ghost ch = channels as int;
    let ghost w = width as int;
    let ghost kk = k as int;
    proof {
        ceil_div_is(width as int, kk);
        ceil_div_is(height as int, kk);
        let a = nx as int;
        let b = ny as int;
        assert(a * b >= 1) by (nonlinear_arith)
            requires
                a >= 1,
                b >= 1,
        ;
    }
    let mut t: Tally = Tally { hist: [0;256], sum_r: 0, sum_g: 0, sum_b: 0, count: 0 };
    let mut j: u32 = 0;
    while j < ny
        invariant
            3 <= channels <= 4,
            ch == channels,
            w == width,
            kk == k,
            k >= 1,
            buffer_fits(buf@, ch, width, height),
            nx == ceil_div(w, kk),
            ny == ceil_div(height as int, kk),
            nx * ny <= TARGET_SAMPLES,
            j <= ny,
            t.count == nx * j,
            t.sum_r <= 255 * t.count,
            t.sum_g <= 255 * t.count,
            t.sum_b <= 255 * t.count,
            forall|i: int| 0 <= i < 256 ==> #[trigger] t.hist@[i] <= t.count,
            forall|b: int|
                0 <= b < 256 ==> #[trigger] t.hist@[b] == sum_box(
                    grid_hits(buf@, ch, w, kk, b),
                    0,
                    nx as int,
                    0,
                    j as int,
                ),
            t.sum_r == sum_box(grid_values(buf@, ch, w, kk, 0), 0, nx as int, 0, j as int),
            t.sum_g == sum_box(grid_values(buf@, ch, w, kk, 1), 0, nx as int, 0, j as int),
            t.sum_b == sum_box(grid_values(buf@, ch, w, kk, 2), 0, nx as int, 0, j as int),
        decreases ny - j,
    {
        let ghost start = t;
        proof {
            boxes_are_inside(height as int, kk, j as int);
            let a = nx as int;
            let b = ny as int;
            let c = j as int;
            assert(a * c + a == a * (c + 1)) by (nonlinear_arith);
            assert(a * (c + 1) <= a * b) by (nonlinear_arith)
                requires
                    a >= 0,
                    c + 1 <= b,
            ;
        }
        let y: u32 = j * k;
        let mut i: u32 = 0;
        while i < nx
            invariant
                3 <= channels <= 4,
                ch == channels,
                w == width,
                kk == k,
                k >= 1,
                buffer_fits(buf@, ch, width, height),
                nx == ceil_div(w, kk),
                i <= nx,
                y == j * kk,
                y < height,
                start.count + nx <= TARGET_SAMPLES,
                t.count == start.count + i,
                t.sum_r <= 255 * t.count,
                t.sum_g <= 255 * t.count,
                t.sum_b <= 255 * t.count,
                forall|i: int| 0 <= i < 256 ==> #[trigger] t.hist@[i] <= t.count,
                forall|b: int|
                    0 <= b < 256 ==> #[trigger] t.hist@[b] == start.hist@[b] + sum_row(
                        grid_hits(buf@, ch, w, kk, b),
                        0,
                        i as int,
                        j as int,
                    ),
                t.sum_r == start.sum_r + sum_row(
                    grid_values(buf@, ch, w, kk, 0),
                    0,
                    i as int,
                    j as int,
                ),
                t.sum_g == start.sum_g + sum_row(
                    grid_values(buf@, ch, w, kk, 1),
                    0,
                    i as int,
                    j as int,
                ),
                t.sum_b == start.sum_b + sum_row(
                    grid_values(buf@, ch, w, kk, 2),
                    0,
                    i as int,
                    j as int,
                ),
            decreases nx - i,
        {
            proof {
                boxes_are_inside(w, kk, i as int);
            }
            let x: u32 = i * k;
            proof {
                channel_is_inside(width, height, ch, x as int, y as int);
                place_is_inside(w, height as int, x as int, y as int);
                let p = place(w, x as int, y as int);
                assert(p <= p * ch) by (nonlinear_arith)
                    requires
                        p >= 0,
                        ch >= 1,
                ;
                let a = y as int;
                assert(0 <= a * w) by (nonlinear_arith)
                    requires
                        a >= 0,
                        w >= 0,
                ;
            }
            let size: usize = buf.len();
            let at: usize = (y as usize * width as usize + x as usize) * channels;
            let r: u8 = buf[at];
            let g: u8 = buf[at + 1];
            let b: u8 = buf[at + 2];
            let ghost before = t;
            count_sample(&mut t, r, g, b);
            proof {
                assert(channel_at(buf@, ch, w, i * kk, j * kk, 0) == r);
                assert(channel_at(buf@, ch, w, i * kk, j * kk, 1) == g);
                assert(channel_at(buf@, ch, w, i * kk, j * kk, 2) == b);
                assert(grid_values(buf@, ch, w, kk, 0)(i as int, j as int) == r);
                assert(grid_values(buf@, ch, w, kk, 1)(i as int, j as int) == g);
                assert(grid_values(buf@, ch, w, kk, 2)(i as int, j as int) == b);
                assert forall|c: int| 0 <= c < 256 implies #[trigger] t.hist@[c] == start.hist@[c]
                    + sum_row(grid_hits(buf@, ch, w, kk, c), 0, i + 1, j as int) by {
                    let f = grid_hits(buf@, ch, w, kk, c);
                    assert(before.hist@[c] == start.hist@[c] + sum_row(f, 0, i as int, j as int));
                    assert(f(i as int, j as int) == (if bin(exact_luma(r, g, b)) == c {
                        1int
                    } else {
                        0
                    }));
                    assert(sum_row(f, 0, i + 1, j as int) == sum_row(f, 0, i as int, j as int) + f(
                        i as int,
                        j as int,
                    ));
                }
                assert forall|c: int| 0 <= c < 256 implies #[trigger] t.hist@[c] <= t.count by {
                    assert(before.hist@[c] <= before.count);
                }
            }
            i = i + 1;
        }
        proof {
            assert forall|b: int| 0 <= b < 256 implies #[trigger] t.hist@[b] == sum_box(
                grid_hits(buf@, ch, w, kk, b),
                0,
                nx as int,
                0,
                j + 1,
            ) by {
                assert(start.hist@[b] == sum_box(
                    grid_hits(buf@, ch, w, kk, b),
                    0,
                    nx as int,
                    0,
                    j as int,
                ));
            }
            let a = nx as int;
            let c = j as int;
            assert(a * c + a == a * (c + 1)) by (nonlinear_arith);
        }
        j = j + 1;
    }
    t
}

/// The measures that a tally and a sharpness give, each to one decimal place.
pub open spec fn stats_from(t: Tally, sharpness: Real) -> ImageStats {
    let n = Real::nearest_to(t.count as int);
    ImageStats {
        luma_p0_2: tenths(percentile_of(t.hist@, t.count, Real { bits: 0x3FC9_9999_9999_999A })),
        luma_p1: tenths(percentile_of(t.hist@, t.count, Real { bits: 0x3FF0_0000_0000_0000 })),
        luma_p50: tenths(percentile_of(t.hist@, t.count, Real { bits: 0x4049_0000_0000_0000 })),
        luma_p99: tenths(percentile_of(t.hist@, t.count, Real { bits: 0x4058_C000_0000_0000 })),
        luma_p99_8: tenths(percentile_of(t.hist@, t.count, Real { bits: 0x4058_F333_3333_3333 })),
        mean_r: tenths(Real::nearest_to(t.sum_r as int).over(n)),
        mean_g: tenths(Real::nearest_to(t.sum_g as int).over(n)),
        mean_b: tenths(Real::nearest_to(t.sum_b as int).over(n)),
        sharpness,
    }
}

/// The measures of an image in an interleaved buffer: a grid of the smallest stride
/// that keeps the samples under the target, and the sharpness of the whole.
pub open spec fn measured(
    buf: Seq<u8>,
    channels: int,
    width: u32,
    height: u32,
    stats: ImageStats,
) -> bool {
    exists|k: u32, t: Tally, gray: Image<u8>|
        #![trigger is_grid_stride(width, height, k), stats_from(t, stats.sharpness), gray_of(
            buf,
            channels,
            width,
            height,
            gray,
        )]
        {
            &&& is_grid_stride(width, height, k)
            &&& tallied(buf, channels, width, height, k as int, t)
            &&& gray_of(buf, channels, width, height, gray)
            &&& sharpness_is(gray, stats.sharpness)
            &&& stats == stats_from(t, stats.sharpness)
        }
}

/// Measures an image in an interleaved buffer, if the buffer fits the size.
fn from_interleaved(buf: &[u8], channels: usize, width: u32, height: u32) -> (r: Option<
    ImageStats,
>)
    requires
        3 <= channels <= 4,
    ensures
        match r {
            Some(s) => buffer_fits(buf@, channels as int, width, height) && measured(
                buf@,
                channels as int,
                width,
                height,
                s,
            ),
            None => !buffer_fits(buf@, channels as int, width, height),
        },
{
    let gray: Image<u8> = match gray_from_interleaved(buf, channels, width, height) {
        Some(gray) => gray,
        None => {
            return None;
        },
    };
    let k: u32 = grid_stride(width, height);
    let t: Tally = tally(buf, channels, width, height, k);
    let n: Real = Real::from_whole(t.count as u128);
    let sharpness: Real = sharpness_gray(&gray);
    let p0_2: Real = percentile(&t.hist, t.count, Real { bits: 0x3FC9_9999_9999_999A });
    let p1: Real = percentile(&t.hist, t.count, Real { bits: 0x3FF0_0000_0000_0000 });
    let p50: Real = percentile(&t.hist, t.count, Real { bits: 0x4049_0000_0000_0000 });
    let p99: Real = percentile(&t.hist, t.count, Real { bits: 0x4058_C000_0000_0000 });
    let p99_8: Real = percentile(&t.hist, t.count, Real { bits: 0x4058_F333_3333_3333 });
    let stats: ImageStats = ImageStats {
        luma_p0_2: round1(p0_2),
        luma_p1: round1(p1),
        luma_p50: round1(p50),
        luma_p99: round1(p99),
        luma_p99_8: round1(p99_8),
        mean_r: round1(Real::from_whole(t.sum_r as u128).over(n)),
        mean_g: round1(Real::from_whole(t.sum_g as u128).over(n)),
        mean_b: round1(Real::from_whole(t.sum_b as u128).over(n)),
        sharpness,
    };
    proof {
        assert(stats == stats_from(t, stats.sharpness));
        assert(is_grid_stride(width, height, k));
        assert(gray_of(buf@, channels as int, width, height, gray));
    }
    Some(stats)
}

/// Measures an image with four channels, if the buffer fits the size.
pub fn from_rgba8(rgba: &[u8], width: u32, height: u32) -> (r: Option<ImageStats>)
    ensures
        match r {
            Some(s) => buffer_fits(rgba@, 4, width, height) && measured(rgba@, 4, width, height, s),
            None => !buffer_fits(rgba@, 4, width, height),
        },
{
    from_interleaved(rgba, 4, width, height)
}

/// Measures an image with three channels, if the buffer fits the size.
pub fn from_rgb8(rgb: &[u8], width: u32, height: u32) -> (r: Option<ImageStats>)
    ensures
        match r {
            Some(s) => buffer_fits(rgb@, 3, width, height) && measured(rgb@, 3, width, height, s),
            None => !buffer_fits(rgb@, 3, width, height),
        },
{
    from_interleaved(rgb, 3, width, height)
}

} // verus!
