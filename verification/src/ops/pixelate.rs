//! Pixelation.
use vstd::prelude::*;

use crate::binary::{Four, Real, Real32};
use crate::error::{op_error, op_fault, verdict, AtxError, Fault};
use crate::linear::{premultiplied_pixel, LinearImage, ALPHA_EPSILON};
use crate::number::{SHORT_ZERO, ZERO};
use crate::ops::blend::in_unit;
use crate::pixel_ops::{rect_text, show_rect, show_size, size_text};
use crate::raster::{Image, Rgba32};
use crate::recipe::Rect;
use crate::stats::{ceil_div, ceil_div_is, div_up};
use crate::text::{cat2, cat4, dec, decimal};

verus! {

/// What is wrong with the parameters of `pixelate`.
pub open spec fn pixelate_fault(index: int, block_size: u32, region: Option<Rect>) -> Option<
    Fault,
> {
    if !(2 <= block_size <= 256) {
        op_fault(
            index,
            "pixelate"@,
            "block_size must be within 2..=256, got "@ + decimal(block_size as nat),
        )
    } else {
        match region {
            None => None,
            Some(r) => if r.width == 0 || r.height == 0 {
                op_fault(
                    index,
                    "pixelate"@,
                    "region width/height must be > 0, got "@ + decimal(r.width as nat) + "x"@
                        + decimal(r.height as nat),
                )
            } else {
                None
            },
        }
    }
}

/// Checks the parameters of `pixelate`.
pub fn validate(index: usize, block_size: u32, region: &Option<Rect>) -> (r: Result<(), AtxError>)
    ensures
        verdict(r) == pixelate_fault(index as int, block_size, *region),
{
    if block_size < 2 || block_size > 256 {
        let number: String = dec(block_size as u64);
        let message: String = cat2("block_size must be within 2..=256, got ", number.as_str());
        return Err(op_error(index, "pixelate", message.as_str()));
    }
    match region {
        None => {},
        Some(rect) => {
            if rect.width == 0 || rect.height == 0 {
                let width: String = dec(rect.width as u64);
                let height: String = dec(rect.height as u64);
                let message: String = cat4(
                    "region width/height must be > 0, got ",
                    width.as_str(),
                    "x",
                    height.as_str(),
                );
                return Err(op_error(index, "pixelate", message.as_str()));
            }
        },
    }
    Ok(())
}

/// The columns and rows of a region inside an image, from `x0` to `x1` and `y0` to `y1`.
#[derive(Clone, Copy, Debug, PartialEq, Eq, Structural)]
pub struct Region {
    pub x0: u32,
    pub y0: u32,
    pub x1: u32,
    pub y1: u32,
}

/// The smaller of two numbers.
pub open spec fn least(a: int, b: int) -> int {
    if a < b {
        a
    } else {
        b
    }
}

/// The part of a region that lies inside an image; without a region all of it.
pub open spec fn region_inside(region: Option<Rect>, w: u32, h: u32) -> Option<Region> {
    let r = match region {
        Some(r) => r,
        None => Rect { x: 0, y: 0, width: w, height: h },
    };
    let x0 = least(r.x as int, w as int);
    let y0 = least(r.y as int, h as int);
    let x1 = least(r.x + r.width, w as int);
    let y1 = least(r.y + r.height, h as int);
    if x1 <= x0 || y1 <= y0 {
        None
    } else {
        Some(Region { x0: x0 as u32, y0: y0 as u32, x1: x1 as u32, y1: y1 as u32 })
    }
}

fn end_inside(start: u32, len: u32, limit: u32) -> (r: u32)
    ensures
        r == least(start + len, limit as int),
{
    if start >= limit || len >= limit - start {
        limit
    } else {
        start + len
    }
}

/// The part of a region that lies inside an image; without a region all of it.
pub fn clamp_region(region: Option<Rect>, w: u32, h: u32) -> (out: Option<Region>)
    ensures
        out == region_inside(region, w, h),
{
    let r: Rect = match region {
        Some(r) => r,
        None => Rect { x: 0, y: 0, width: w, height: h },
    };
    let x0: u32 = if r.x < w {
        r.x
    } else {
        w
    };
    let y0: u32 = if r.y < h {
        r.y
    } else {
        h
    };
    let x1: u32 = end_inside(r.x, r.width, w);
    let y1: u32 = end_inside(r.y, r.height, h);
    if x1 <= x0 || y1 <= y0 {
        return None;
    }
    Some(Region { x0, y0, x1, y1 })
}

/// A sum with one more colour, taken times its opacity.
#[verifier::allow_in_spec]
pub fn add_light(acc: Four, p: Rgba32) -> Four
    returns
        (Four {
            r: acc.r.plus(premultiplied_pixel(p).r.widened()),
            g: acc.g.plus(premultiplied_pixel(p).g.widened()),
            b: acc.b.plus(premultiplied_pixel(p).b.widened()),
            a: acc.a.plus(premultiplied_pixel(p).a.widened()),
        }),
{
    Four {
        r: acc.r.plus(p.r.times(p.a).widened()),
        g: acc.g.plus(p.g.times(p.a).widened()),
        b: acc.b.plus(p.b.times(p.a).widened()),
        a: acc.a.plus(p.a.widened()),
    }
}

/// A sum with the first `n` pixels from column `x` of row `y` on.
pub open spec fn row_light(img: LinearImage, x: int, y: int, n: nat, acc: Four) -> Four
    decreases n,
{
    if n == 0 {
        acc
    } else {
        add_light(row_light(img, x, y, (n - 1) as nat, acc), img.pixel(x + n - 1, y))
    }
}

/// The sum of the columns `x0` to `x1` in the first `n` rows from `y` on, row by row.
pub open spec fn block_light(img: LinearImage, x0: int, x1: int, y: int, n: nat) -> Four
    decreases n,
{
    if n == 0 {
        let zero = Real { bits: ZERO };
        Four { r: zero, g: zero, b: zero, a: zero }
    } else {
        row_light(
            img,
            x0,
            y + n - 1,
            (x1 - x0) as nat,
            block_light(img, x0, x1, y, (n - 1) as nat),
        )
    }
}

/// A mean over its opacity; with next to no opacity there is no colour.
pub open spec fn mean_colour(sum: Four, count: int) -> Rgba32 {
    let n = Real::nearest_to(count);
    let zero = Real32 { bits: SHORT_ZERO };
    let a = in_unit(sum.a.over(n).narrowed());
    if a.below(Real32 { bits: ALPHA_EPSILON }) {
        Rgba32 { r: zero, g: zero, b: zero, a }
    } else {
        Rgba32 {
            r: in_unit(sum.r.over(n).narrowed().over(a)),
            g: in_unit(sum.g.over(n).narrowed().over(a)),
            b: in_unit(sum.b.over(n).narrowed().over(a)),
            a,
        }
    }
}

/// A mean over its opacity.
pub fn unpremultiplied_mean(sum: Four, count: u64) -> (r: Rgba32)
    requires
        count > 0,
    ensures
        r == mean_colour(sum, count as int),
{
    let n: Real = Real::from_whole(count as u128);
    let zero: Real32 = Real32 { bits: SHORT_ZERO };
    let a: Real32 = in_unit(sum.a.over(n).narrowed());
    if a.below(Real32 { bits: ALPHA_EPSILON }) {
        return Rgba32 { r: zero, g: zero, b: zero, a };
    }
    Rgba32 {
        r: in_unit(sum.r.over(n).narrowed().over(a)),
        g: in_unit(sum.g.over(n).narrowed().over(a)),
        b: in_unit(sum.b.over(n).narrowed().over(a)),
        a,
    }
}

/// The first place of block `i`.
pub open spec fn block_start(start: int, side: int, i: int) -> int {
    start + i * side
}

/// The place after the last of block `i`.
pub open spec fn block_end(start: int, end: int, side: int, i: int) -> int {
    least(start + i * side + side, end)
}

/// The mean of a block.
pub open spec fn block_colour(img: LinearImage, region: Region, side: int, i: int, j: int) -> Rgba32 {
    let (x0, x1) = (
        block_start(region.x0 as int, side, i),
        block_end(region.x0 as int, region.x1 as int, side, i),
    );
    let (y0, y1) = (
        block_start(region.y0 as int, side, j),
        block_end(region.y0 as int, region.y1 as int, side, j),
    );
    mean_colour(block_light(img, x0, x1, y0, (y1 - y0) as nat), (x1 - x0) * (y1 - y0))
}

/// A place inside a region.
pub open spec fn in_region(region: Region, x: int, y: int) -> bool {
    region.x0 <= x < region.x1 && region.y0 <= y < region.y1
}

/// `out` is `img` with the blocks of a region, counted from its corner, each in one
/// colour. Outside the region nothing changes.
pub open spec fn is_pixelated(img: LinearImage, region: Region, side: int, out: LinearImage) -> bool {
    &&& out.well_formed()
    &&& out.width == img.width
    &&& out.height == img.height
    &&& forall|x: int, y: int|
        0 <= x < img.width && 0 <= y < img.height ==> #[trigger] out.pixel(x, y) == (if in_region(
            region,
            x,
            y,
        ) {
            block_colour(img, region, side, (x - region.x0) / side, (y - region.y0) / side)
        } else {
            img.pixel(x, y)
        })
}

fn sum_block(img: &LinearImage, x0: u32, x1: u32, y0: u32, y1: u32) -> (r: Four)
    requires
        img.well_formed(),
        x0 <= x1 <= img.width,
        y0 <= y1 <= img.height,
    ensures
        r == block_light(*img, x0 as int, x1 as int, y0 as int, (y1 - y0) as nat),
{
    let zero: Real = Real { bits: ZERO };
    let mut acc: Four = Four { r: zero, g: zero, b: zero, a: zero };
    let mut y: u32 = y0;
    while y < y1
        invariant
            img.well_formed(),
            x0 <= x1 <= img.width,
            y0 <= y <= y1 <= img.height,
            acc == block_light(*img, x0 as int, x1 as int, y0 as int, (y - y0) as nat),
        decreases y1 - y,
    {
        let ghost before = acc;
        let mut x: u32 = x0;
        while x < x1
            invariant
                img.well_formed(),
                x0 <= x <= x1 <= img.width,
                y < img.height,
                acc == row_light(*img, x0 as int, y as int, (x - x0) as nat, before),
            decreases x1 - x,
        {
            acc = add_light(acc, img.get(x, y));
            x = x + 1;
        }
        y = y + 1;
    }
    acc
}

proof fn block_is_inside(start: int, end: int, side: int, i: int)
    requires
        0 <= start < end,
        side > 0,
        0 <= i < ceil_div(end - start, side),
    ensures
        0 <= i * side,
        start <= block_start(start, side, i) < block_end(start, end, side, i) <= end,
{
    ceil_div_is(end - start, side);
    let n = ceil_div(end - start, side);
    assert(0 <= i * side <= (n - 1) * side) by (nonlinear_arith)
        requires
            0 <= i <= n - 1,
            side > 0,
    ;
}

fn block_mean(img: &LinearImage, region: Region, side: u32, i: u32, j: u32) -> (r: Rgba32)
    requires
        img.well_formed(),
        region.x0 < region.x1 <= img.width,
        region.y0 < region.y1 <= img.height,
        side > 0,
        i < ceil_div(region.x1 - region.x0, side as int),
        j < ceil_div(region.y1 - region.y0, side as int),
    ensures
        r == block_colour(*img, region, side as int, i as int, j as int),
{
    proof {
        block_is_inside(region.x0 as int, region.x1 as int, side as int, i as int);
        block_is_inside(region.y0 as int, region.y1 as int, side as int, j as int);
    }
    let x0: u32 = region.x0 + i * side;
    let x1: u32 = end_inside(x0, side, region.x1);
    let y0: u32 = region.y0 + j * side;
    let y1: u32 = end_inside(y0, side, region.y1);
    let sum: Four = sum_block(img, x0, x1, y0, y1);
    proof {
        let (a, b) = (x1 - x0, y1 - y0);
        assert(0 < a * b <= 0xFFFF_FFFF * 0xFFFF_FFFF) by (nonlinear_arith)
            requires
                0 < a <= 0xFFFF_FFFF,
                0 < b <= 0xFFFF_FFFF,
        ;
    }
    unpremultiplied_mean(sum, (x1 - x0) as u64 * (y1 - y0) as u64)
}

fn block_count(len: u32, side: u32) -> (r: u32)
    requires
        side > 0,
        len > 0,
    ensures
        r == ceil_div(len as int, side as int),
        r <= len,
{
    proof {
        ceil_div_is(len as int, side as int);
    }
    div_up(len, side)
}

fn paint_blocks(img: &LinearImage, region: Region, side: u32) -> (r: LinearImage)
    requires
        img.well_formed(),
        region.x0 < region.x1 <= img.width,
        region.y0 < region.y1 <= img.height,
        side > 0,
    ensures
        is_pixelated(*img, region, side as int, r),
{
    let count: usize = img.data.len();
    let across: u32 = block_count(region.x1 - region.x0, side);
    let down: u32 = block_count(region.y1 - region.y0, side);
    proof {
        let (a, b) = (across as int, down as int);
        let (w, h) = (img.width as int, img.height as int);
        assert(a * b <= w * h) by (nonlinear_arith)
            requires
                0 <= a <= w,
                0 <= b <= h,
        ;
    }
    let mean = |i: u32, j: u32| -> (p: Rgba32)
        requires
            img.well_formed(),
            region.x0 < region.x1 <= img.width,
            region.y0 < region.y1 <= img.height,
            side > 0,
            i < ceil_div(region.x1 - region.x0, side as int),
            j < ceil_div(region.y1 - region.y0, side as int),
        ensures
            p == block_colour(*img, region, side as int, i as int, j as int),
        { block_mean(img, region, side, i, j) };
    let means: LinearImage = Image::build(across, down, mean);
    let f = |x: u32, y: u32| -> (p: Rgba32)
        requires
            img.well_formed(),
            means.well_formed(),
            means.width == across,
            means.height == down,
            across == ceil_div(region.x1 - region.x0, side as int),
            down == ceil_div(region.y1 - region.y0, side as int),
            region.x0 < region.x1 <= img.width,
            region.y0 < region.y1 <= img.height,
            side > 0,
            x < img.width,
            y < img.height,
        ensures
            in_region(region, x as int, y as int) ==> 0 <= (x - region.x0) / (side as int) < across
                && 0 <= (y - region.y0) / (side as int) < down && p == means.pixel(
                (x - region.x0) / side as int,
                (y - region.y0) / side as int,
            ),
            !in_region(region, x as int, y as int) ==> p == img.pixel(x as int, y as int),
        {
            if region.x0 <= x && x < region.x1 && region.y0 <= y && y < region.y1 {
                proof {
                    block_of_place(x - region.x0, region.x1 - region.x0, side as int);
                    block_of_place(y - region.y0, region.y1 - region.y0, side as int);
                }
                means.get((x - region.x0) / side, (y - region.y0) / side)
            } else {
                img.get(x, y)
            }
        };
    let r: LinearImage = Image::build(img.width, img.height, f);
    proof {
        assert forall|x: int, y: int|
            0 <= x < img.width && 0 <= y < img.height implies #[trigger] r.pixel(x, y) == (
        if in_region(region, x, y) {
            block_colour(
                *img,
                region,
                side as int,
                (x - region.x0) / side as int,
                (y - region.y0) / side as int,
            )
        } else {
            img.pixel(x, y)
        }) by {
            assert(call_ensures(
                f,
                (x as u32, y as u32),
                r.pixel(x as u32 as int, y as u32 as int),
            ));
            if in_region(region, x, y) {
                let i = (x - region.x0) / side as int;
                let j = (y - region.y0) / side as int;
                assert(call_ensures(
                    mean,
                    (i as u32, j as u32),
                    means.pixel(i as u32 as int, j as u32 as int),
                ));
            }
        }
    }
    r
}

proof fn block_of_place(v: int, len: int, side: int)
    requires
        0 <= v < len,
        side > 0,
    ensures
        0 <= v / side < ceil_div(len, side),
{
    ceil_div_is(len, side);
    let q = v / side;
    let n = ceil_div(len, side);
    vstd::arithmetic::div_mod::lemma_fundamental_div_mod(v, side);
    vstd::arithmetic::div_mod::lemma_div_pos_is_pos(v, side);
    if q >= n {
        assert(side * q >= n * side) by (nonlinear_arith)
            requires
                q >= n,
                side > 0,
        ;
    }
}

/// The message for a region that misses the image.
pub open spec fn region_text(r: Rect, w: u32, h: u32) -> Seq<char> {
    "pixelate: region "@ + rect_text(r) + " does not intersect the "@ + size_text(w, h) + " image"@
}

/// Pixelates a region of an image, or all of it.
pub fn apply(img: &LinearImage, block_size: u32, region: &Option<Rect>) -> (out: Result<
    LinearImage,
    String,
>)
    requires
        img.well_formed(),
    ensures
        match out {
            Ok(r) => {
                &&& img.width == 0 || img.height == 0 || region_inside(
                    *region,
                    img.width,
                    img.height,
                ) is Some
                &&& img.width == 0 || img.height == 0 ==> r.data@ == img.data@ && r.width
                    == img.width && r.height == img.height
                &&& img.width > 0 && img.height > 0 ==> is_pixelated(
                    *img,
                    region_inside(*region, img.width, img.height)->0,
                    if block_size == 0 {
                        1
                    } else {
                        block_size as int
                    },
                    r,
                )
            },
            Err(m) => {
                &&& img.width > 0 && img.height > 0
                &&& region_inside(*region, img.width, img.height) is None
                &&& *region matches Some(rect) && m@ == region_text(rect, img.width, img.height)
            },
        },
{
    let (w, h): (u32, u32) = (img.width, img.height);
    if w == 0 || h == 0 {
        proof {
            let (a, b) = (w as int, h as int);
            assert(a * b == 0) by (nonlinear_arith)
                requires
                    a == 0 || b == 0,
            ;
        }
        let data: Vec<Rgba32> = Vec::new();
        assert(data@ =~= img.data@);
        return Ok(Image { width: w, height: h, data });
    }
    match clamp_region(*region, w, h) {
        Some(inside) => {
            let side: u32 = if block_size == 0 {
                1
            } else {
                block_size
            };
            Ok(paint_blocks(img, inside, side))
        },
        None => {
            let shown: String = match region {
                Some(rect) => show_rect(*rect),
                None => "".to_owned(),
            };
            let size: String = show_size(w, h);
            let mut m: String = cat4(
                "pixelate: region ",
                shown.as_str(),
                " does not intersect the ",
                size.as_str(),
            );
            m.append(" image");
            Err(m)
        },
    }
}

} // verus!
