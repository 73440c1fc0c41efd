//! Geometry: orientation, cropping, padding and target sizes.
use vstd::prelude::*;

use crate::binary::Real;
use crate::in_box::resizing_keeps_to_box;
use crate::number::{MINUS_ONE, ONE, ZERO};
use crate::raster::Image;
use crate::recipe::{Anchor, CropMode, Fit, Rect};
use crate::text::{cat2, cat5, dec, decimal};
use crate::transform::{Affine, Transform};

verus! {

/// Two images with the same size and the same pixels.
pub open spec fn same_image<P: Copy>(a: Image<P>, b: Image<P>) -> bool {
    &&& a.width == b.width
    &&& a.height == b.height
    &&& forall|x: int, y: int|
        0 <= x < a.width && 0 <= y < a.height ==> #[trigger] a.pixel(x, y) == b.pixel(x, y)
}

/// The column that lands in column `x` when an image is mirrored left to right.
pub open spec fn mirrored_horizontally<P: Copy>(img: Image<P>, out: Image<P>) -> bool {
    &&& out.well_formed()
    &&& out.width == img.width
    &&& out.height == img.height
    &&& forall|x: int, y: int|
        0 <= x < img.width && 0 <= y < img.height ==> #[trigger] out.pixel(x, y) == img.pixel(
            img.width - 1 - x,
            y,
        )
}

/// `out` is `img` mirrored top to bottom.
pub open spec fn mirrored_vertically<P: Copy>(img: Image<P>, out: Image<P>) -> bool {
    &&& out.well_formed()
    &&& out.width == img.width
    &&& out.height == img.height
    &&& forall|x: int, y: int|
        0 <= x < img.width && 0 <= y < img.height ==> #[trigger] out.pixel(x, y) == img.pixel(
            x,
            img.height - 1 - y,
        )
}

/// `out` is `img` turned a quarter clockwise.
pub open spec fn turned_right<P: Copy>(img: Image<P>, out: Image<P>) -> bool {
    &&& out.well_formed()
    &&& out.width == img.height
    &&& out.height == img.width
    &&& forall|x: int, y: int|
        0 <= x < img.height && 0 <= y < img.width ==> #[trigger] out.pixel(x, y) == img.pixel(
            y,
            img.height - 1 - x,
        )
}

/// `out` is `img` upside down.
pub open spec fn turned_over<P: Copy>(img: Image<P>, out: Image<P>) -> bool {
    &&& out.well_formed()
    &&& out.width == img.width
    &&& out.height == img.height
    &&& forall|x: int, y: int|
        0 <= x < img.width && 0 <= y < img.height ==> #[trigger] out.pixel(x, y) == img.pixel(
            img.width - 1 - x,
            img.height - 1 - y,
        )
}

/// `out` is `img` turned a quarter counterclockwise.
pub open spec fn turned_left<P: Copy>(img: Image<P>, out: Image<P>) -> bool {
    &&& out.well_formed()
    &&& out.width == img.height
    &&& out.height == img.width
    &&& forall|x: int, y: int|
        0 <= x < img.height && 0 <= y < img.width ==> #[trigger] out.pixel(x, y) == img.pixel(
            img.width - 1 - y,
            x,
        )
}

proof fn area_fits<P: Copy>(img: &Image<P>)
    requires
        img.well_formed(),
    ensures
        img.height * img.width == img.width * img.height,
{
    let a = img.width as int;
    let b = img.height as int;
    assert(a * b == b * a) by (nonlinear_arith);
}

/// Mirrors an image left to right.
pub fn flip_horizontal<P: Copy>(img: &Image<P>) -> (r: Image<P>)
    requires
        img.well_formed(),
    ensures
        mirrored_horizontally(*img, r),
{
    let count: usize = img.data.len();
    let w: u32 = img.width;
    let f = |x: u32, y: u32| -> (p: P)
        requires
            x < img.width,
            y < img.height,
            img.well_formed(),
        ensures
            p == img.pixel(img.width - 1 - x, y as int),
        { img.get(img.width - 1 - x, y) };
    let r: Image<P> = Image::build(w, img.height, f);
    proof {
        assert forall|x: int, y: int| 0 <= x < img.width && 0 <= y < img.height implies #[trigger] r.pixel(
            x,
            y,
        ) == img.pixel(img.width - 1 - x, y) by {
            assert(call_ensures(f, (x as u32, y as u32), r.pixel(x as u32 as int, y as u32 as int)));
        }
    }
    r
}

/// Mirrors an image top to bottom.
pub fn flip_vertical<P: Copy>(img: &Image<P>) -> (r: Image<P>)
    requires
        img.well_formed(),
    ensures
        mirrored_vertically(*img, r),
{
    let count: usize = img.data.len();
    let f = |x: u32, y: u32| -> (p: P)
        requires
            x < img.width,
            y < img.height,
            img.well_formed(),
        ensures
            p == img.pixel(x as int, img.height - 1 - y),
        { img.get(x, img.height - 1 - y) };
    let r: Image<P> = Image::build(img.width, img.height, f);
    proof {
        assert forall|x: int, y: int| 0 <= x < img.width && 0 <= y < img.height implies #[trigger] r.pixel(
            x,
            y,
        ) == img.pixel(x, img.height - 1 - y) by {
            assert(call_ensures(f, (x as u32, y as u32), r.pixel(x as u32 as int, y as u32 as int)));
        }
    }
    r
}

/// Turns an image a quarter clockwise.
pub fn rotate90<P: Copy>(img: &Image<P>) -> (r: Image<P>)
    requires
        img.well_formed(),
    ensures
        turned_right(*img, r),
{
    let count: usize = img.data.len();
    proof {
        area_fits(img);
    }
    let f = |x: u32, y: u32| -> (p: P)
        requires
            x < img.height,
            y < img.width,
            img.well_formed(),
        ensures
            p == img.pixel(y as int, img.height - 1 - x),
        { img.get(y, img.height - 1 - x) };
    let r: Image<P> = Image::build(img.height, img.width, f);
    proof {
        assert forall|x: int, y: int| 0 <= x < img.height && 0 <= y < img.width implies #[trigger] r.pixel(
            x,
            y,
        ) == img.pixel(y, img.height - 1 - x) by {
            assert(call_ensures(f, (x as u32, y as u32), r.pixel(x as u32 as int, y as u32 as int)));
        }
    }
    r
}

/// Turns an image upside down.
pub fn rotate180<P: Copy>(img: &Image<P>) -> (r: Image<P>)
    requires
        img.well_formed(),
    ensures
        turned_over(*img, r),
{
    let count: usize = img.data.len();
    let f = |x: u32, y: u32| -> (p: P)
        requires
            x < img.width,
            y < img.height,
            img.well_formed(),
        ensures
            p == img.pixel(img.width - 1 - x, img.height - 1 - y),
        { img.get(img.width - 1 - x, img.height - 1 - y) };
    let r: Image<P> = Image::build(img.width, img.height, f);
    proof {
        assert forall|x: int, y: int| 0 <= x < img.width && 0 <= y < img.height implies #[trigger] r.pixel(
            x,
            y,
        ) == img.pixel(img.width - 1 - x, img.height - 1 - y) by {
            assert(call_ensures(f, (x as u32, y as u32), r.pixel(x as u32 as int, y as u32 as int)));
        }
    }
    r
}

/// Turns an image a quarter counterclockwise.
pub fn rotate270<P: Copy>(img: &Image<P>) -> (r: Image<P>)
    requires
        img.well_formed(),
    ensures
        turned_left(*img, r),
{
    let count: usize = img.data.len();
    proof {
        area_fits(img);
    }
    let f = |x: u32, y: u32| -> (p: P)
        requires
            x < img.height,
            y < img.width,
            img.well_formed(),
        ensures
            p == img.pixel(img.width - 1 - y, x as int),
        { img.get(img.width - 1 - y, x) };
    let r: Image<P> = Image::build(img.height, img.width, f);
    proof {
        assert forall|x: int, y: int| 0 <= x < img.height && 0 <= y < img.width implies #[trigger] r.pixel(
            x,
            y,
        ) == img.pixel(img.width - 1 - y, x) by {
            assert(call_ensures(f, (x as u32, y as u32), r.pixel(x as u32 as int, y as u32 as int)));
        }
    }
    r
}

/// The size of an image once its EXIF orientation is applied.
pub open spec fn oriented_size(width: u32, height: u32, orientation: u16) -> (u32, u32) {
    if 5 <= orientation <= 8 {
        (height, width)
    } else {
        (width, height)
    }
}

/// The size of an image once its EXIF orientation is applied: orientations 5 to 8 swap
/// width and height.
pub fn oriented_dimensions(width: u32, height: u32, orientation: u16) -> (r: (u32, u32))
    ensures
        r == oriented_size(width, height, orientation),
{
    if 5 <= orientation && orientation <= 8 {
        (height, width)
    } else {
        (width, height)
    }
}

/// The pixel of a `w` by `h` image that lands at `(x, y)` when its EXIF orientation is
/// applied.
pub open spec fn oriented_from(w: int, h: int, orientation: u16, x: int, y: int) -> (int, int) {
    if orientation == 2 {
        (w - 1 - x, y)
    } else if orientation == 3 {
        (w - 1 - x, h - 1 - y)
    } else if orientation == 4 {
        (x, h - 1 - y)
    } else if orientation == 5 {
        (w - 1 - y, h - 1 - x)
    } else if orientation == 6 {
        (y, h - 1 - x)
    } else if orientation == 7 {
        (y, x)
    } else if orientation == 8 {
        (w - 1 - y, x)
    } else {
        (x, y)
    }
}

/// `out` is `img` with its EXIF orientation applied.
pub open spec fn oriented<P: Copy>(img: Image<P>, orientation: u16, out: Image<P>) -> bool {
    &&& out.well_formed()
    &&& (out.width, out.height) == oriented_size(img.width, img.height, orientation)
    &&& forall|x: int, y: int|
        0 <= x < out.width && 0 <= y < out.height ==> #[trigger] out.pixel(x, y) == img.pixel(
            oriented_from(img.width as int, img.height as int, orientation, x, y).0,
            oriented_from(img.width as int, img.height as int, orientation, x, y).1,
        )
}

/// Applies an EXIF orientation. Values other than 2 to 8 leave the image as it is.
pub fn apply_orientation<P: Copy>(img: Image<P>, orientation: u16) -> (r: Image<P>)
    requires
        img.well_formed(),
    ensures
        oriented(img, orientation, r),
{
    if orientation == 2 {
        flip_horizontal(&img)
    } else if orientation == 3 {
        rotate180(&img)
    } else if orientation == 4 {
        flip_vertical(&img)
    } else if orientation == 5 {
        let flipped: Image<P> = flip_horizontal(&img);
        rotate90(&flipped)
    } else if orientation == 6 {
        rotate90(&img)
    } else if orientation == 7 {
        let flipped: Image<P> = flip_horizontal(&img);
        rotate270(&flipped)
    } else if orientation == 8 {
        rotate270(&img)
    } else {
        img
    }
}

/// What an orientation does to coordinates; the size is that before it.
pub open spec fn orientation_map(width: u32, height: u32, orientation: u16) -> Affine {
    let o = Real { bits: ZERO };
    let i = Real { bits: ONE };
    let m = Real { bits: MINUS_ONE };
    let w = real_of(width);
    let h = real_of(height);
    match orientation {
        2 => Transform::linear(m, o, w, o, i, o),
        3 => Transform::linear(m, o, w, o, m, h),
        4 => Transform::linear(i, o, o, o, m, h),
        5 => Transform::linear(o, m, h, m, o, w),
        6 => Transform::linear(o, m, h, i, o, o),
        7 => Transform::linear(o, i, o, i, o, o),
        8 => Transform::linear(o, i, o, m, o, w),
        _ => Transform::identity(),
    }
}

/// What an orientation does to coordinates; the size is that before it.
pub fn orientation_affine(width: u32, height: u32, orientation: u16) -> (r: Affine)
    ensures
        r == orientation_map(width, height, orientation),
{
    let o: Real = Real { bits: ZERO };
    let i: Real = Real { bits: ONE };
    let m: Real = Real { bits: MINUS_ONE };
    let w: Real = to_real(width);
    let h: Real = to_real(height);
    match orientation {
        2 => Transform::linear(m, o, w, o, i, o),
        3 => Transform::linear(m, o, w, o, m, h),
        4 => Transform::linear(i, o, o, o, m, h),
        5 => Transform::linear(o, m, h, m, o, w),
        6 => Transform::linear(o, m, h, i, o, o),
        7 => Transform::linear(o, i, o, i, o, o),
        8 => Transform::linear(o, i, o, m, o, w),
        _ => Transform::identity(),
    }
}

/// Mirroring twice the same way gives the image back.
pub proof fn flip_twice_is_identity<P: Copy>(a: Image<P>, b: Image<P>, c: Image<P>)
    requires
        (mirrored_horizontally(a, b) && mirrored_horizontally(b, c)) || (mirrored_vertically(a, b)
            && mirrored_vertically(b, c)),
    ensures
        same_image(a, c),
{
}

/// Four quarter turns give the image back.
pub proof fn four_quarter_turns_are_identity<P: Copy>(
    a: Image<P>,
    b: Image<P>,
    c: Image<P>,
    d: Image<P>,
    e: Image<P>,
)
    requires
        turned_right(a, b),
        turned_right(b, c),
        turned_right(c, d),
        turned_right(d, e),
    ensures
        same_image(a, e),
{
    assert forall|x: int, y: int| 0 <= x < a.width && 0 <= y < a.height implies #[trigger] a.pixel(
        x,
        y,
    ) == e.pixel(x, y) by {
        assert(e.pixel(x, y) == d.pixel(y, d.height - 1 - x));
        assert(d.pixel(y, d.height - 1 - x) == c.pixel(d.height - 1 - x, c.height - 1 - y));
        assert(c.pixel(d.height - 1 - x, c.height - 1 - y) == b.pixel(
            c.height - 1 - y,
            b.height - 1 - (d.height - 1 - x),
        ));
    }
}

/// Two quarter turns are a half turn.
pub proof fn two_quarter_turns_are_a_half_turn<P: Copy>(
    a: Image<P>,
    b: Image<P>,
    c: Image<P>,
    d: Image<P>,
)
    requires
        turned_right(a, b),
        turned_right(b, c),
        turned_over(a, d),
    ensures
        same_image(c, d),
{
    assert forall|x: int, y: int| 0 <= x < c.width && 0 <= y < c.height implies #[trigger] c.pixel(
        x,
        y,
    ) == d.pixel(x, y) by {
        assert(c.pixel(x, y) == b.pixel(y, b.height - 1 - x));
    }
}

/// A quarter turn and one back give the image back.
pub proof fn turn_and_turn_back<P: Copy>(a: Image<P>, b: Image<P>, c: Image<P>)
    requires
        turned_right(a, b) && turned_left(b, c),
    ensures
        same_image(a, c),
{
    assert forall|x: int, y: int| 0 <= x < a.width && 0 <= y < a.height implies #[trigger] a.pixel(
        x,
        y,
    ) == c.pixel(x, y) by {
        assert(c.pixel(x, y) == b.pixel(b.width - 1 - y, x));
    }
}

/// `out` is the part of `img` from `(x, y)` on.
pub open spec fn cut<P: Copy>(img: Image<P>, x: int, y: int, out: Image<P>) -> bool {
    &&& out.well_formed()
    &&& forall|i: int, j: int|
        0 <= i < out.width && 0 <= j < out.height ==> #[trigger] out.pixel(i, j) == img.pixel(
            x + i,
            y + j,
        )
}

/// Cuts out the rectangle of width `w` and height `h` at `(x, y)`.
pub fn crop_view<P: Copy>(img: &Image<P>, x: u32, y: u32, w: u32, h: u32) -> (r: Image<P>)
    requires
        img.well_formed(),
        x + w <= img.width,
        y + h <= img.height,
    ensures
        r.width == w,
        r.height == h,
        cut(*img, x as int, y as int, r),
{
    let count: usize = img.data.len();
    proof {
        let a = w as int;
        let b = h as int;
        let c = img.width as int;
        let d = img.height as int;
        assert(a * b <= c * d) by (nonlinear_arith)
            requires
                0 <= a <= c,
                0 <= b <= d,
        ;
    }
    let f = |i: u32, j: u32| -> (p: P)
        requires
            img.well_formed(),
            x + i < img.width,
            y + j < img.height,
        ensures
            p == img.pixel(x + i, y + j),
        { img.get(x + i, y + j) };
    let r: Image<P> = Image::build(w, h, f);
    proof {
        assert forall|i: int, j: int| 0 <= i < w && 0 <= j < h implies #[trigger] r.pixel(i, j)
            == img.pixel(x + i, y + j) by {
            assert(call_ensures(f, (i as u32, j as u32), r.pixel(i as u32 as int, j as u32 as int)));
        }
    }
    r
}

/// Where a length `inner` starts in a length `outer` that holds it: at the start, at
/// the end or in the middle.
pub open spec fn anchored(outer: u32, inner: u32, anchor: Anchor, horizontal: bool) -> u32 {
    let slack = if outer >= inner {
        outer - inner
    } else {
        0
    };
    let start = if horizontal {
        anchor == Anchor::Left || anchor == Anchor::TopLeft || anchor == Anchor::BottomLeft
    } else {
        anchor == Anchor::Top || anchor == Anchor::TopLeft || anchor == Anchor::TopRight
    };
    let end = if horizontal {
        anchor == Anchor::Right || anchor == Anchor::TopRight || anchor == Anchor::BottomRight
    } else {
        anchor == Anchor::Bottom || anchor == Anchor::BottomLeft || anchor == Anchor::BottomRight
    };
    (if start {
        0
    } else if end {
        slack
    } else {
        slack / 2
    }) as u32
}

/// Where a length `inner` starts in a length `outer` that holds it.
pub fn anchor_offset(outer: u32, inner: u32, anchor: Anchor, horizontal: bool) -> (r: u32)
    ensures
        r == anchored(outer, inner, anchor, horizontal),
        inner <= outer ==> r + inner <= outer,
{
    let slack: u32 = if outer >= inner {
        outer - inner
    } else {
        0
    };
    let (start, end): (bool, bool) = match anchor {
        Anchor::Center => (false, false),
        Anchor::Top => (!horizontal, false),
        Anchor::Bottom => (false, !horizontal),
        Anchor::Left => (horizontal, false),
        Anchor::Right => (false, horizontal),
        Anchor::TopLeft => (true, false),
        Anchor::TopRight => (!horizontal, horizontal),
        Anchor::BottomLeft => (horizontal, !horizontal),
        Anchor::BottomRight => (false, true),
    };
    if start {
        0
    } else if end {
        slack
    } else {
        slack / 2
    }
}

/// A length in pixels: the nearest whole number from 1 on.
pub open spec fn length_of(v: Real) -> u32 {
    let n = v.round_integer();
    if n < 1 {
        1
    } else if n > 0xFFFF_FFFF {
        0xFFFF_FFFF
    } else {
        n as u32
    }
}

/// A length in pixels: the nearest whole number from 1 on.
fn to_length(v: Real) -> (r: u32)
    ensures
        r == length_of(v),
{
    let n: i64 = v.round_integer();
    if n < 1 {
        1
    } else if n > 0xFFFF_FFFF {
        0xFFFF_FFFF
    } else {
        n as u32
    }
}

/// A length in pixels, where a NaN stands for nothing at all.
pub open spec fn length_or_none(v: Real) -> u32 {
    if v.is_nan() {
        0
    } else {
        length_of(v)
    }
}

/// A length in pixels, where a NaN stands for nothing at all.
pub(crate) fn to_length_or_none(v: Real) -> (r: u32)
    ensures
        r == length_or_none(v),
{
    if v.is_nan() {
        0
    } else {
        to_length(v)
    }
}

/// A whole number as a binary64 number.
pub open spec fn real_of(n: u32) -> Real {
    Real::nearest_to(n as int)
}

fn to_real(n: u32) -> (r: Real)
    ensures
        r == real_of(n),
{
    Real::from_whole(n as u128)
}

/// One step towards an aspect ratio: the longer side is cut, or the shorter one padded.
pub open spec fn aspect_step(w: u32, h: u32, target: Real, mode: CropMode) -> (u32, u32) {
    let wide = target.below(real_of(w).over(real_of(h)));
    let by_width = (w, length_or_none(real_of(w).over(target)));
    let by_height = (length_or_none(real_of(h).times(target)), h);
    match mode {
        CropMode::Crop => if wide {
            by_height
        } else {
            by_width
        },
        CropMode::Pad => if wide {
            by_width
        } else {
            by_height
        },
    }
}

/// A step that does not leave the image: a crop is not larger than it, a pad not
/// smaller.
pub open spec fn bounded_step(
    w: u32,
    h: u32,
    from: (u32, u32),
    target: Real,
    mode: CropMode,
) -> (u32, u32) {
    let next = aspect_step(from.0, from.1, target, mode);
    match mode {
        CropMode::Crop => (
            if next.0 < w {
                next.0
            } else {
                w
            },
            if next.1 < h {
                next.1
            } else {
                h
            },
        ),
        CropMode::Pad => (
            if next.0 > w {
                next.0
            } else {
                w
            },
            if next.1 > h {
                next.1
            } else {
                h
            },
        ),
    }
}

/// The size after at most `n` steps, fewer where a step changes nothing.
pub open spec fn fitted_from(
    w: u32,
    h: u32,
    from: (u32, u32),
    target: Real,
    mode: CropMode,
    n: nat,
) -> (u32, u32)
    decreases n,
{
    if n == 0 {
        from
    } else {
        let next = bounded_step(w, h, from, target, mode);
        if next == from {
            from
        } else {
            fitted_from(w, h, next, target, mode, (n - 1) as nat)
        }
    }
}

/// The size that an image is cut or padded to for an aspect ratio.
pub open spec fn fitted(w: u32, h: u32, ratio: (u32, u32), mode: CropMode) -> (u32, u32) {
    fitted_from(w, h, (w, h), real_of(ratio.0).over(real_of(ratio.1)), mode, 8)
}

/// One step towards an aspect ratio.
fn fit_aspect_step(w: u32, h: u32, target: Real, mode: CropMode) -> (r: (u32, u32))
    ensures
        r == aspect_step(w, h, target, mode),
{
    let wide: bool = target.below(to_real(w).over(to_real(h)));
    match mode {
        CropMode::Crop => if wide {
            (to_length_or_none(to_real(h).times(target)), h)
        } else {
            (w, to_length_or_none(to_real(w).over(target)))
        },
        CropMode::Pad => if wide {
            (w, to_length_or_none(to_real(w).over(target)))
        } else {
            (to_length_or_none(to_real(h).times(target)), h)
        },
    }
}

/// The size that an image is cut or padded to for an aspect ratio: steps are repeated,
/// at most eight times, until nothing changes any more.
pub fn fit_aspect_dims(w: u32, h: u32, ratio: (u32, u32), mode: CropMode) -> (r: (u32, u32))
    ensures
        r == fitted(w, h, ratio, mode),
        mode == CropMode::Crop ==> r.0 <= w && r.1 <= h,
        mode == CropMode::Pad ==> r.0 >= w && r.1 >= h,
{
    let target: Real = to_real(ratio.0).over(to_real(ratio.1));
    let mut size: (u32, u32) = (w, h);
    let mut left: u32 = 8;
    while left > 0
        invariant
            left <= 8,
            fitted(w, h, ratio, mode) == fitted_from(w, h, size, target, mode, left as nat),
            mode == CropMode::Crop ==> size.0 <= w && size.1 <= h,
            mode == CropMode::Pad ==> size.0 >= w && size.1 >= h,
        decreases left,
    {
        let next: (u32, u32) = fit_aspect_step(size.0, size.1, target, mode);
        let next: (u32, u32) = match mode {
            CropMode::Crop => (
                if next.0 < w {
                    next.0
                } else {
                    w
                },
                if next.1 < h {
                    next.1
                } else {
                    h
                },
            ),
            CropMode::Pad => (
                if next.0 > w {
                    next.0
                } else {
                    w
                },
                if next.1 > h {
                    next.1
                } else {
                    h
                },
            ),
        };
        if next.0 == size.0 && next.1 == size.1 {
            return size;
        }
        size = next;
        left = left - 1;
    }
    size
}

/// A fit has come to rest: one step more would change nothing.
pub open spec fn rests(w: u32, h: u32, ratio: (u32, u32), mode: CropMode) -> bool {
    let size = fitted(w, h, ratio, mode);
    bounded_step(w, h, size, real_of(ratio.0).over(real_of(ratio.1)), mode) == size
}

/// Fitting an image that has been fitted changes nothing, wherever the first fit came
/// to rest. `fitting_comes_to_rest` says where it does.
pub proof fn fitting_again_changes_nothing(w: u32, h: u32, ratio: (u32, u32), mode: CropMode)
    requires
        rests(w, h, ratio, mode),
    ensures
        ({
            let size = fitted(w, h, ratio, mode);
            fitted(size.0, size.1, ratio, mode) == size
        }),
{
    let size = fitted(w, h, ratio, mode);
    let target = real_of(ratio.0).over(real_of(ratio.1));
    assert(bounded_step(size.0, size.1, size, target, mode) == size);
    reveal_with_fuel(fitted_from, 2);
}

/// `out` is `img` laid at `(x, y)` on a canvas of one colour.
pub open spec fn laid_on<P: Copy>(img: Image<P>, x: int, y: int, pad: P, out: Image<P>) -> bool {
    &&& out.well_formed()
    &&& forall|i: int, j: int|
        0 <= i < out.width && 0 <= j < out.height ==> #[trigger] out.pixel(i, j) == (if x <= i
            < x + img.width && y <= j < y + img.height {
            img.pixel(i - x, j - y)
        } else {
            pad
        })
}

/// Cuts or pads an image to an aspect ratio. Returns the image and where the old origin
/// has gone: the offset of the old image in the new one.
pub fn fit_aspect<P: Copy>(
    img: &Image<P>,
    ratio: (u32, u32),
    anchor: Anchor,
    mode: CropMode,
    pad: P,
) -> (r: (Image<P>, (i64, i64)))
    requires
        img.well_formed(),
        ({
            let size = fitted(img.width, img.height, ratio, mode);
            size.0 * size.1 <= usize::MAX
        }),
    ensures
        (r.0.width, r.0.height) == fitted(img.width, img.height, ratio, mode),
        match mode {
            CropMode::Crop => {
                let x = anchored(img.width, r.0.width, anchor, true);
                let y = anchored(img.height, r.0.height, anchor, false);
                cut(*img, x as int, y as int, r.0) && r.1.0 == -(x as int) && r.1.1 == -(y as int)
            },
            CropMode::Pad => {
                let x = anchored(r.0.width, img.width, anchor, true);
                let y = anchored(r.0.height, img.height, anchor, false);
                laid_on(*img, x as int, y as int, pad, r.0) && r.1.0 == x && r.1.1 == y
            },
        },
{
    let (tw, th): (u32, u32) = fit_aspect_dims(img.width, img.height, ratio, mode);
    match mode {
        CropMode::Crop => {
            let x: u32 = anchor_offset(img.width, tw, anchor, true);
            let y: u32 = anchor_offset(img.height, th, anchor, false);
            (crop_view(img, x, y, tw, th), (-(x as i64), -(y as i64)))
        },
        CropMode::Pad => {
            let x: u32 = anchor_offset(tw, img.width, anchor, true);
            let y: u32 = anchor_offset(th, img.height, anchor, false);
            let w: u32 = img.width;
            let h: u32 = img.height;
            let f = |i: u32, j: u32| -> (p: P)
                requires
                    img.well_formed(),
                    w == img.width,
                    h == img.height,
                    x + w <= 0xFFFF_FFFF,
                    y + h <= 0xFFFF_FFFF,
                ensures
                    p == (if x <= i < x + w && y <= j < y + h {
                        img.pixel(i - x, j - y)
                    } else {
                        pad
                    }),
                {
                    if i >= x && i < x + w && j >= y && j < y + h {
                        img.get(i - x, j - y)
                    } else {
                        pad
                    }
                };
            let canvas: Image<P> = Image::build(tw, th, f);
            proof {
                assert forall|i: int, j: int|
                    0 <= i < tw && 0 <= j < th implies #[trigger] canvas.pixel(i, j) == (if x <= i
                    < x + img.width && y <= j < y + img.height {
                    img.pixel(i - x, j - y)
                } else {
                    pad
                }) by {
                    assert(call_ensures(
                        f,
                        (i as u32, j as u32),
                        canvas.pixel(i as u32 as int, j as u32 as int),
                    ));
                }
            }
            (canvas, (x as i64, y as i64))
        },
    }
}

/// A rectangle lies inside an image.
pub open spec fn rect_fits(rect: Rect, w: u32, h: u32) -> bool {
    rect.x + rect.width <= w && rect.y + rect.height <= h
}

/// A rectangle as messages show it: `WxH+X+Y`.
pub open spec fn rect_text(rect: Rect) -> Seq<char> {
    decimal(rect.width as nat) + "x"@ + decimal(rect.height as nat) + "+"@ + decimal(rect.x as nat)
        + ("+"@ + decimal(rect.y as nat))
}

/// A size as messages show it: `WxH`.
pub open spec fn size_text(w: u32, h: u32) -> Seq<char> {
    decimal(w as nat) + "x"@ + decimal(h as nat)
}

/// A rectangle as messages show it.
pub fn show_rect(rect: Rect) -> (r: String)
    ensures
        r@ == rect_text(rect),
{
    let w: String = dec(rect.width as u64);
    let h: String = dec(rect.height as u64);
    let x: String = dec(rect.x as u64);
    let y: String = dec(rect.y as u64);
    let head: String = cat5(w.as_str(), "x", h.as_str(), "+", x.as_str());
    let tail: String = cat2("+", y.as_str());
    cat2(head.as_str(), tail.as_str())
}

/// A size as messages show it.
pub fn show_size(w: u32, h: u32) -> (r: String)
    ensures
        r@ == size_text(w, h),
{
    let a: String = dec(w as u64);
    let b: String = dec(h as u64);
    let head: String = cat2(a.as_str(), "x");
    cat2(head.as_str(), b.as_str())
}

/// Cuts out a rectangle, which must lie inside the image.
pub fn crop_rect<P: Copy>(img: &Image<P>, rect: Rect) -> (r: Result<Image<P>, String>)
    requires
        img.well_formed(),
    ensures
        match r {
            Ok(out) => {
                &&& rect_fits(rect, img.width, img.height)
                &&& out.width == rect.width
                &&& out.height == rect.height
                &&& cut(*img, rect.x as int, rect.y as int, out)
            },
            Err(m) => {
                &&& !rect_fits(rect, img.width, img.height)
                &&& m@ == "crop rect "@ + rect_text(rect) + " is out of bounds for image "@
                    + size_text(img.width, img.height)
            },
        },
{
    let fits: bool = rect.width <= img.width && rect.x <= img.width - rect.width && rect.height
        <= img.height && rect.y <= img.height - rect.height;
    if fits {
        Ok(crop_view(img, rect.x, rect.y, rect.width, rect.height))
    } else {
        let shown: String = show_rect(rect);
        let size: String = show_size(img.width, img.height);
        let head: String = cat2("crop rect ", shown.as_str());
        let head: String = cat2(head.as_str(), " is out of bounds for image ");
        Err(cat2(head.as_str(), size.as_str()))
    }
}

/// The smaller of two lengths.
pub open spec fn shorter(a: u32, b: u32) -> u32 {
    if a < b {
        a
    } else {
        b
    }
}

/// The scale of a resize that keeps proportions.
pub open spec fn resize_scale(
    iw: u32,
    ih: u32,
    width: Option<u32>,
    height: Option<u32>,
    fit: Fit,
    without_enlargement: bool,
) -> Real {
    let one = Real { bits: 0x3FF0_0000_0000_0000 };
    let scale = match (width, height) {
        (Some(w), Some(h)) => {
            let a = real_of(w).over(real_of(iw));
            let b = real_of(h).over(real_of(ih));
            if fit == Fit::Cover {
                a.larger(b)
            } else {
                a.smaller(b)
            }
        },
        (Some(w), None) => real_of(w).over(real_of(iw)),
        (None, Some(h)) => real_of(h).over(real_of(ih)),
        (None, None) => one,
    };
    if without_enlargement && one.below(scale) {
        one
    } else {
        scale
    }
}

/// The size that an image is scaled to, and the size that is cut from its middle.
pub open spec fn resize_sizes(
    iw: u32,
    ih: u32,
    width: Option<u32>,
    height: Option<u32>,
    fit: Fit,
    without_enlargement: bool,
) -> ((u32, u32), (u32, u32)) {
    match fit {
        Fit::Fill => {
            let tw = match width {
                Some(w) => w,
                None => iw,
            };
            let th = match height {
                Some(h) => h,
                None => ih,
            };
            let size = if without_enlargement {
                (shorter(tw, iw), shorter(th, ih))
            } else {
                (tw, th)
            };
            (size, size)
        },
        _ => {
            let scale = resize_scale(iw, ih, width, height, fit, without_enlargement);
            let size = (
                length_of(real_of(iw).times(scale)),
                length_of(real_of(ih).times(scale)),
            );
            match (width, height) {
                (Some(w), Some(h)) => if fit == Fit::Cover {
                    (size, (shorter(w, size.0), shorter(h, size.1)))
                } else {
                    (size, size)
                },
                _ => (size, size),
            }
        },
    }
}

/// A resize keeps to what was asked for: the size that is cut lies inside the scaled one and
/// is not empty; nothing is enlarged that must not be; what is to be contained does not leave
/// the box; and a cover that may enlarge fills it.
pub open spec fn keeps_to_box(
    iw: u32,
    ih: u32,
    width: Option<u32>,
    height: Option<u32>,
    fit: Fit,
    without_enlargement: bool,
    scaled: (u32, u32),
    cut: (u32, u32),
) -> bool {
    &&& 1 <= cut.0 <= scaled.0
    &&& 1 <= cut.1 <= scaled.1
    &&& without_enlargement ==> scaled.0 <= iw && scaled.1 <= ih
    &&& fit == Fit::Contain && width is Some ==> scaled.0 <= width->0
    &&& fit == Fit::Contain && height is Some ==> scaled.1 <= height->0
    &&& fit == Fit::Cover && !without_enlargement && width is Some && height is Some ==> cut == (
        width->0,
        height->0,
    )
}

/// No side of an image or of a box is zero.
pub open spec fn has_sides(iw: u32, ih: u32, width: Option<u32>, height: Option<u32>) -> bool {
    &&& iw >= 1
    &&& ih >= 1
    &&& width matches Some(w) ==> w >= 1
    &&& height matches Some(h) ==> h >= 1
}

/// The size that an image is scaled to, and the size that is cut from its middle: a
/// cover with both sides given is cut to the box, everything else is left whole.
pub fn resize_targets(
    iw: u32,
    ih: u32,
    width: Option<u32>,
    height: Option<u32>,
    fit: Fit,
    without_enlargement: bool,
) -> (r: ((u32, u32), (u32, u32)))
    ensures
        r == resize_sizes(iw, ih, width, height, fit, without_enlargement),
        r.1.0 <= r.0.0,
        r.1.1 <= r.0.1,
        has_sides(iw, ih, width, height) ==> keeps_to_box(
            iw,
            ih,
            width,
            height,
            fit,
            without_enlargement,
            r.0,
            r.1,
        ),
{
    proof {
        if has_sides(iw, ih, width, height) {
            resizing_keeps_to_box(iw, ih, width, height, fit, without_enlargement);
        }
    }
    if fit == Fit::Fill {
        let mut tw: u32 = match width {
            Some(w) => w,
            None => iw,
        };
        let mut th: u32 = match height {
            Some(h) => h,
            None => ih,
        };
        if without_enlargement {
            tw = if tw < iw {
                tw
            } else {
                iw
            };
            th = if th < ih {
                th
            } else {
                ih
            };
        }
        return ((tw, th), (tw, th));
    }
    let one: Real = Real { bits: 0x3FF0_0000_0000_0000 };
    let mut scale: Real = match (width, height) {
        (Some(w), Some(h)) => {
            let a: Real = to_real(w).over(to_real(iw));
            let b: Real = to_real(h).over(to_real(ih));
            if fit == Fit::Cover {
                a.larger(b)
            } else {
                a.smaller(b)
            }
        },
        (Some(w), None) => to_real(w).over(to_real(iw)),
        (None, Some(h)) => to_real(h).over(to_real(ih)),
        (None, None) => one,
    };
    if without_enlargement && one.below(scale) {
        scale = one;
    }
    let sw: u32 = to_length(to_real(iw).times(scale));
    let sh: u32 = to_length(to_real(ih).times(scale));
    match (width, height) {
        (Some(w), Some(h)) => {
            if fit == Fit::Cover {
                let cw: u32 = if w < sw {
                    w
                } else {
                    sw
                };
                let ch: u32 = if h < sh {
                    h
                } else {
                    sh
                };
                return ((sw, sh), (cw, ch));
            }
        },
        _ => {},
    }
    ((sw, sh), (sw, sh))
}

} // verus!
