//! Rotation by any angle.
//!
//! Quarter turns move pixels. Any other angle is interpolated on light times opacity; the
//! interpolated image and the sines and cosines are given.
use vstd::prelude::*;

use crate::binary::{Real, Real32};
use crate::float::{tenths, to_tenths};
use crate::linear::{premultiplied_pixel, unpremultiplied_pixel, unpremultiply, LinearImage};
use crate::number::{HALF, HUNDRED, ONE, TWO, ZERO};
use crate::pixel_ops::{
    crop_view, rotate180, rotate270, rotate90, show_size, size_text, turned_left, turned_over,
    turned_right,
};
use crate::raster::{copy, is_mapped, mapped_pixel, Rgba32};
use crate::recipe::RotateCrop;
use crate::text::{cat2, cat3, cat5, dec, decimal};
use crate::transform::{Affine, Point, Transform};

verus! {

/// A right angle in degrees.
pub const RIGHT_ANGLE: u64 = 0x4056_8000_0000_0000;

/// A degree in radians.
pub const DEGREE: u64 = 0x3F91_DF46_A252_9D39;

/// A degree in radians, in binary32.
pub const SHORT_DEGREE: u32 = 0x3C8E_FA35;

/// 1e-10.
pub const NEARLY_NOTHING: u64 = 0x3DDB_7CDF_D9D7_BDBB;

/// The smallest number that is not subnormal.
pub const SMALLEST: u64 = 0x0010_0000_0000_0000;

/// Four.
pub const FOUR_TURNS: u64 = 0x4010_0000_0000_0000;

/// How many quarter turns clockwise an angle in degrees is, from 0 to 3; none where it is
/// not a whole number of them.
pub open spec fn quarters(degrees: Real) -> Option<u32> {
    let right = Real { bits: RIGHT_ANGLE };
    let four = Real { bits: FOUR_TURNS };
    if degrees.left_of(right).same(Real { bits: ZERO }) {
        let left = degrees.over(right).left_of(four);
        let n = (if left.below(Real { bits: ZERO }) {
            left.plus(four)
        } else {
            left
        }).floor_integer();
        Some(
            if 0 <= n <= 3 {
                n as u32
            } else {
                0
            },
        )
    } else {
        None
    }
}

/// How many quarter turns clockwise an angle in degrees is, from 0 to 3; none where it is
/// not a whole number of them.
pub fn quarter_turns(degrees: Real) -> (r: Option<u32>)
    ensures
        r == quarters(degrees),
{
    let right: Real = Real { bits: RIGHT_ANGLE };
    let four: Real = Real { bits: FOUR_TURNS };
    let zero: Real = Real { bits: ZERO };
    if !degrees.left_of(right).same(zero) {
        return None;
    }
    let left: Real = degrees.over(right).left_of(four);
    let turn: Real = if left.below(zero) {
        left.plus(four)
    } else {
        left
    };
    let n: i64 = turn.floor_integer();
    if n >= 0 && n <= 3 {
        Some(n as u32)
    } else {
        Some(0)
    }
}

/// The angle that the interpolation turns by, in radians.
#[verifier::allow_in_spec]
pub fn warp_angle(degrees: Real) -> Real32
    returns
        degrees.narrowed().times(Real32 { bits: SHORT_DEGREE }),
{
    degrees.narrowed().times(Real32 { bits: SHORT_DEGREE })
}

/// An angle in radians.
#[verifier::allow_in_spec]
pub fn radians(degrees: Real) -> Real
    returns
        degrees.times(Real { bits: DEGREE }),
{
    degrees.times(Real { bits: DEGREE })
}

/// The colour beyond the edges of what is interpolated.
#[verifier::allow_in_spec]
pub fn warp_border(pad: Rgba32) -> Rgba32
    returns
        premultiplied_pixel(pad),
{
    Rgba32 { r: pad.r.times(pad.a), g: pad.g.times(pad.a), b: pad.b.times(pad.a), a: pad.a }
}

/// The sides of a rectangle.
#[derive(Clone, Copy, Debug, PartialEq, Eq, Structural)]
pub struct Sides {
    pub width: Real,
    pub height: Real,
}

/// The sides of the largest upright rectangle inside a turned one of `w` by `h`. The sine
/// and the cosine of the angle are given.
pub open spec fn inscribed(w: Real, h: Real, sine: Real, cosine: Real) -> Sides {
    let zero = Real { bits: ZERO };
    let s = sine.absolute();
    let c = cosine.absolute();
    let wide = h.at_most(w);
    let long = if wide {
        w
    } else {
        h
    };
    let short = if wide {
        h
    } else {
        w
    };
    if w.at_most(zero) || h.at_most(zero) {
        Sides { width: zero, height: zero }
    } else if short.at_most((Real { bits: TWO }).times(s).times(c).times(long)) || s.minus(
        c,
    ).absolute().below(Real { bits: NEARLY_NOTHING }) {
        let x = (Real { bits: HALF }).times(short);
        let by_sine = x.over(s.larger(Real { bits: SMALLEST }));
        let by_cosine = x.over(c.larger(Real { bits: SMALLEST }));
        if wide {
            Sides { width: by_sine, height: by_cosine }
        } else {
            Sides { width: by_cosine, height: by_sine }
        }
    } else {
        let double = c.times(c).minus(s.times(s));
        Sides {
            width: w.times(c).minus(h.times(s)).over(double),
            height: h.times(c).minus(w.times(s)).over(double),
        }
    }
}

/// The sides of the largest upright rectangle inside a turned one of `w` by `h`. The sine
/// and the cosine of the angle are given.
pub fn largest_inscribed_rect(w: Real, h: Real, sine: Real, cosine: Real) -> (r: Sides)
    ensures
        r == inscribed(w, h, sine, cosine),
{
    let zero: Real = Real { bits: ZERO };
    if w.at_most(zero) || h.at_most(zero) {
        return Sides { width: zero, height: zero };
    }
    let wide: bool = h.at_most(w);
    let (long, short): (Real, Real) = if wide {
        (w, h)
    } else {
        (h, w)
    };
    let s: Real = sine.absolute();
    let c: Real = cosine.absolute();
    let two: Real = Real { bits: TWO };
    if short.at_most(two.times(s).times(c).times(long)) || s.minus(c).absolute().below(
        Real { bits: NEARLY_NOTHING },
    ) {
        let half: Real = Real { bits: HALF };
        let x: Real = half.times(short);
        let by_sine: Real = x.over(s.larger(Real { bits: SMALLEST }));
        let by_cosine: Real = x.over(c.larger(Real { bits: SMALLEST }));
        if wide {
            Sides { width: by_sine, height: by_cosine }
        } else {
            Sides { width: by_cosine, height: by_sine }
        }
    } else {
        let double: Real = c.times(c).minus(s.times(s));
        Sides {
            width: w.times(c).minus(h.times(s)).over(double),
            height: h.times(c).minus(w.times(s)).over(double),
        }
    }
}

/// A side in whole pixels, from 1 to `limit`.
pub open spec fn whole_side(v: Real, limit: u32) -> u32 {
    let n = v.floor_integer();
    if n < 1 {
        1
    } else if n > limit {
        limit
    } else {
        n as u32
    }
}

fn to_whole_side(v: Real, limit: u32) -> (r: u32)
    requires
        limit >= 1,
    ensures
        r == whole_side(v, limit),
        1 <= r <= limit,
{
    let n: i64 = v.floor_integer();
    if n < 1 {
        1
    } else if n > limit as i64 {
        limit
    } else {
        n as u32
    }
}

/// The size of the largest upright rectangle inside a turned image.
pub open spec fn kept_size(w: u32, h: u32, sine: Real, cosine: Real) -> (u32, u32) {
    let sides = inscribed(Real::nearest_to(w as int), Real::nearest_to(h as int), sine, cosine);
    (whole_side(sides.width, w), whole_side(sides.height, h))
}

/// How much of an image a cut removes, in percent.
#[verifier::allow_in_spec]
pub fn removed_percent(w: u32, h: u32, kept_w: u32, kept_h: u32) -> Real
    returns
        (Real { bits: ONE }).minus(
            Real::nearest_to(kept_w as int).times(Real::nearest_to(kept_h as int)).over(
                Real::nearest_to(w as int).times(Real::nearest_to(h as int)),
            ),
        ).times(Real { bits: HUNDRED }),
{
    let kept: Real = Real::from_integer(kept_w as i64).times(
        Real::from_integer(kept_h as i64),
    ).over(Real::from_integer(w as i64).times(Real::from_integer(h as i64)));
    let one: Real = Real { bits: ONE };
    one.minus(kept).times(Real { bits: HUNDRED })
}

/// A percentage from 0 to 100 with one decimal place.
pub open spec fn percent_text(v: Real) -> Seq<char> {
    let n = tenths(in_percent(v).bits);
    decimal(n / 10) + "."@ + decimal(n % 10)
}

/// A percentage, or the end of the range from 0 to 100 that it is beyond.
#[verifier::allow_in_spec]
pub fn in_percent(v: Real) -> Real
    returns
        (if v.bits <= HUNDRED {
            v
        } else if (Real { bits: HUNDRED }).below(v) {
            Real { bits: HUNDRED }
        } else {
            Real { bits: ZERO }
        }),
{
    let top: Real = Real { bits: HUNDRED };
    if v.bits <= HUNDRED {
        v
    } else if top.below(v) {
        top
    } else {
        Real { bits: ZERO }
    }
}

/// A percentage with one decimal place.
pub fn show_percent(v: Real) -> (r: String)
    ensures
        r@ == percent_text(v),
{
    let n: u64 = to_tenths(in_percent(v).bits);
    let ones: String = dec(n / 10);
    let tenth: String = dec(n % 10);
    cat3(ones.as_str(), ".", tenth.as_str())
}

/// What is said of a rotation that cuts its corners off.
pub open spec fn crop_warning(w: u32, h: u32, kept: (u32, u32)) -> Seq<char> {
    "rotation crop (largest_inscribed_rect) removed "@ + percent_text(
        removed_percent(w, h, kept.0, kept.1),
    ) + "% of pixels ("@ + size_text(w, h) + " -> "@ + (size_text(kept.0, kept.1) + ")"@)
}

fn show_crop_warning(w: u32, h: u32, kept_w: u32, kept_h: u32) -> (r: String)
    ensures
        r@ == crop_warning(w, h, (kept_w, kept_h)),
{
    let percent: String = show_percent(removed_percent(w, h, kept_w, kept_h));
    let from: String = show_size(w, h);
    let to: String = show_size(kept_w, kept_h);
    let head: String = cat5(
        "rotation crop (largest_inscribed_rect) removed ",
        percent.as_str(),
        "% of pixels (",
        from.as_str(),
        " -> ",
    );
    let tail: String = cat2(to.as_str(), ")");
    cat2(head.as_str(), tail.as_str())
}

/// The middle of an image.
#[verifier::allow_in_spec]
pub fn middle(w: u32, h: u32) -> Point
    returns
        (Point {
            x: Real::nearest_to(w as int).over(Real { bits: TWO }),
            y: Real::nearest_to(h as int).over(Real { bits: TWO }),
        }),
{
    let two: Real = Real { bits: TWO };
    Point {
        x: Real::from_integer(w as i64).over(two),
        y: Real::from_integer(h as i64).over(two),
    }
}

/// The point that the interpolation turns about: half a pixel beyond the middle.
#[verifier::allow_in_spec]
pub fn pivot(w: u32, h: u32) -> Point
    returns
        (Point {
            x: middle(w, h).x.plus(Real { bits: HALF }),
            y: middle(w, h).y.plus(Real { bits: HALF }),
        }),
{
    let m: Point = middle(w, h);
    let half: Real = Real { bits: HALF };
    Point { x: m.x.plus(half), y: m.y.plus(half) }
}

/// The shift that puts the point `(x, y)` at the origin.
#[verifier::allow_in_spec]
pub fn shift_back(x: u32, y: u32) -> Affine
    returns
        Transform::translate(
            Real::nearest_to(x as int).negated(),
            Real::nearest_to(y as int).negated(),
        ),
{
    Transform::translate(
        Real::from_integer(x as i64).negated(),
        Real::from_integer(y as i64).negated(),
    )
}

/// The sines and cosines of a rotation.
#[derive(Clone, Copy, Debug, PartialEq, Eq, Structural)]
pub struct Swing {
    /// Of the angle that the image is turned by: that of the quarter turns, or that of
    /// `warp_angle`.
    pub sine: Real,
    pub cosine: Real,
    /// Of the angle in `radians`.
    pub exact_sine: Real,
    pub exact_cosine: Real,
}

/// A turned image.
pub struct Turned {
    pub image: LinearImage,
    /// What was lost.
    pub warning: Option<String>,
    /// What happened to coordinates.
    pub transform: Affine,
}

/// An image turned by quarter turns.
pub open spec fn turned_by(img: LinearImage, quarter: u32, out: LinearImage) -> bool {
    if quarter == 1 {
        turned_right(img, out)
    } else if quarter == 2 {
        turned_over(img, out)
    } else if quarter == 3 {
        turned_left(img, out)
    } else {
        out.width == img.width && out.height == img.height && out.data@ == img.data@
    }
}

/// Turns an image by quarter turns.
pub fn turn(img: &LinearImage, quarter: u32) -> (r: LinearImage)
    requires
        img.well_formed(),
    ensures
        r.well_formed(),
        turned_by(*img, quarter, r),
{
    if quarter == 1 {
        rotate90(img)
    } else if quarter == 2 {
        rotate180(img)
    } else if quarter == 3 {
        rotate270(img)
    } else {
        copy(img)
    }
}

/// Where the kept rectangle begins.
pub open spec fn kept_at(w: u32, h: u32, kept: (u32, u32)) -> (u32, u32) {
    (((w - kept.0) / 2) as u32, ((h - kept.1) / 2) as u32)
}

/// The pixels of a turned image.
pub open spec fn is_turned(
    img: LinearImage,
    degrees: Real,
    crop: RotateCrop,
    warped: LinearImage,
    swing: Swing,
    out: LinearImage,
) -> bool {
    match quarters(degrees) {
        Some(quarter) => turned_by(img, quarter, out),
        None => match crop {
            RotateCrop::Full => is_mapped(warped, out, |p: Rgba32| unpremultiplied_pixel(p)),
            RotateCrop::LargestInscribedRect => {
                let kept = kept_size(img.width, img.height, swing.exact_sine, swing.exact_cosine);
                let at = kept_at(img.width, img.height, kept);
                &&& (out.width, out.height) == kept
                &&& forall|x: int, y: int|
                    0 <= x < kept.0 && 0 <= y < kept.1 ==> #[trigger] out.pixel(x, y)
                        == unpremultiplied_pixel(warped.pixel(at.0 + x, at.1 + y))
            },
        },
    }
}

/// What is said of a rotation of an image of `w` by `h`.
pub open spec fn turn_warning(w: u32, h: u32, degrees: Real, crop: RotateCrop, swing: Swing) -> Option<
    Seq<char>,
> {
    if quarters(degrees) is None && crop == RotateCrop::LargestInscribedRect {
        Some(crop_warning(w, h, kept_size(w, h, swing.exact_sine, swing.exact_cosine)))
    } else {
        None
    }
}

/// What a rotation from one size to another does to coordinates.
pub open spec fn turn_step(
    w: u32,
    h: u32,
    degrees: Real,
    crop: RotateCrop,
    swing: Swing,
    out_w: u32,
    out_h: u32,
) -> Affine {
    if quarters(degrees) is Some {
        Transform::rotate_about(swing.sine, swing.cosine, middle(w, h), middle(out_w, out_h))
    } else {
        match crop {
            RotateCrop::Full => Transform::rotate_about(
                swing.sine,
                swing.cosine,
                pivot(w, h),
                pivot(out_w, out_h),
            ),
            RotateCrop::LargestInscribedRect => {
                let at = kept_at(
                    w,
                    h,
                    kept_size(w, h, swing.exact_sine, swing.exact_cosine),
                );
                Transform::rotate_about(
                    swing.sine,
                    swing.cosine,
                    pivot(w, h),
                    pivot(w, h),
                ).followed_by(shift_back(at.0, at.1))
            },
        }
    }
}

/// A warning, where there is one, as a sequence.
pub open spec fn warning_view(w: Option<String>) -> Option<Seq<char>> {
    match w {
        Some(t) => Some(t@),
        None => None,
    }
}

/// Turns an image clockwise. Where the angle is not a number of quarter turns, `warped` is
/// the image times opacity, turned about its middle: on a canvas that holds all of it, or on
/// one of the same size where the largest upright rectangle is cut out.
pub fn rotate(
    img: &LinearImage,
    degrees: Real,
    crop: RotateCrop,
    warped: &LinearImage,
    swing: Swing,
) -> (r: Turned)
    requires
        img.well_formed(),
        img.width > 0,
        img.height > 0,
        quarters(degrees) is None ==> warped.well_formed(),
        quarters(degrees) is None && crop == RotateCrop::LargestInscribedRect ==> warped.width
            == img.width && warped.height == img.height,
    ensures
        r.image.well_formed(),
        is_turned(*img, degrees, crop, *warped, swing, r.image),
        warning_view(r.warning) == turn_warning(img.width, img.height, degrees, crop, swing),
        r.transform == turn_step(
            img.width,
            img.height,
            degrees,
            crop,
            swing,
            r.image.width,
            r.image.height,
        ),
{
    let w: u32 = img.width;
    let h: u32 = img.height;
    if let Some(quarter) = quarter_turns(degrees) {
        let image: LinearImage = turn(img, quarter);
        let transform: Affine = Transform::rotate_about(
            swing.sine,
            swing.cosine,
            middle(w, h),
            middle(image.width, image.height),
        );
        return Turned { image, warning: None, transform };
    }
    let image: LinearImage = unpremultiply(warped);
    match crop {
        RotateCrop::Full => {
            let transform: Affine = Transform::rotate_about(
                swing.sine,
                swing.cosine,
                pivot(w, h),
                pivot(image.width, image.height),
            );
            Turned { image, warning: None, transform }
        },
        RotateCrop::LargestInscribedRect => {
            let sides: Sides = largest_inscribed_rect(
                Real::from_integer(w as i64),
                Real::from_integer(h as i64),
                swing.exact_sine,
                swing.exact_cosine,
            );
            let kept_w: u32 = to_whole_side(sides.width, w);
            let kept_h: u32 = to_whole_side(sides.height, h);
            let x: u32 = (w - kept_w) / 2;
            let y: u32 = (h - kept_h) / 2;
            let out: LinearImage = crop_view(&image, x, y, kept_w, kept_h);
            let warning: String = show_crop_warning(w, h, kept_w, kept_h);
            let transform: Affine = Transform::rotate_about(
                swing.sine,
                swing.cosine,
                pivot(w, h),
                pivot(w, h),
            ).followed_by(shift_back(x, y));
            proof {
                assert forall|i: int, j: int|
                    0 <= i < kept_w && 0 <= j < kept_h implies #[trigger] out.pixel(i, j)
                    == unpremultiplied_pixel(warped.pixel(x + i, y + j)) by {
                    mapped_pixel(
                        *warped,
                        image,
                        |p: Rgba32| unpremultiplied_pixel(p),
                        x + i,
                        y + j,
                    );
                }
            }
            Turned { image: out, warning: Some(warning), transform }
        },
    }
}

} // verus!
