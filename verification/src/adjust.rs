//! Brightness, contrast, saturation and sharpness of encoded colours.
use vstd::prelude::*;

use crate::binary::{Real, Real32};
use crate::linear::LinearImage;
use crate::number::{ONE, SHORT_FOUR, SHORT_ONE, SHORT_SIXTEEN, SHORT_TWO, SHORT_ZERO, ZERO};
use crate::ops::blend::in_unit;
use crate::raster::{copy, inside, is_mapped, map_pixels, mapped_pixel, Image, Rgba32};

verus! {

/// The colour that contrast leaves in place, 128 / 255.
pub const CONTRAST_PIVOT: u32 = 0x3F00_8081;

/// The weight of red in the luma of a colour, 0.299.
pub const LUMA_RED: u32 = 0x3E99_1687;

/// The weight of green in the luma of a colour, 0.587.
pub const LUMA_GREEN: u32 = 0x3F16_45A2;

/// The weight of blue in the luma of a colour, 0.114.
pub const LUMA_BLUE: u32 = 0x3DE9_78D5;

/// What a pixel goes through: a shift, a spread about the pivot, and a spread about its luma.
#[derive(Clone, Copy, Debug, PartialEq, Eq, Structural)]
pub struct Tone {
    pub shift: Real32,
    pub contrast: Real32,
    pub saturation: Option<Real32>,
}

/// A channel shifted and spread about the pivot.
#[verifier::allow_in_spec]
pub fn spread(v: Real32, tone: Tone) -> Real32
    returns
        v.plus(tone.shift).minus(Real32 { bits: CONTRAST_PIVOT }).times(tone.contrast).plus(
            Real32 { bits: CONTRAST_PIVOT },
        ),
{
    let pivot: Real32 = Real32 { bits: CONTRAST_PIVOT };
    v.plus(tone.shift).minus(pivot).times(tone.contrast).plus(pivot)
}

/// The luma of a colour.
#[verifier::allow_in_spec]
pub fn luma(r: Real32, g: Real32, b: Real32) -> Real32
    returns
        (Real32 { bits: LUMA_RED }).times(r).plus((Real32 { bits: LUMA_GREEN }).times(g)).plus(
            (Real32 { bits: LUMA_BLUE }).times(b),
        ),
{
    let wr: Real32 = Real32 { bits: LUMA_RED };
    let wg: Real32 = Real32 { bits: LUMA_GREEN };
    let wb: Real32 = Real32 { bits: LUMA_BLUE };
    wr.times(r).plus(wg.times(g)).plus(wb.times(b))
}

/// A channel spread about the luma.
#[verifier::allow_in_spec]
pub fn saturated(v: Real32, luma: Real32, saturation: Option<Real32>) -> Real32
    returns
        (match saturation {
            Some(s) => luma.plus(v.minus(luma).times(s)),
            None => v,
        }),
{
    match saturation {
        Some(s) => luma.plus(v.minus(luma).times(s)),
        None => v,
    }
}

/// A pixel with its tone changed. Opacity stays.
pub open spec fn toned(p: Rgba32, tone: Tone) -> Rgba32 {
    let r = spread(p.r, tone);
    let g = spread(p.g, tone);
    let b = spread(p.b, tone);
    let y = luma(r, g, b);
    Rgba32 {
        r: in_unit(saturated(r, y, tone.saturation)),
        g: in_unit(saturated(g, y, tone.saturation)),
        b: in_unit(saturated(b, y, tone.saturation)),
        a: p.a,
    }
}

fn change_tone(p: Rgba32, tone: Tone) -> (q: Rgba32)
    ensures
        q == toned(p, tone),
{
    let r: Real32 = spread(p.r, tone);
    let g: Real32 = spread(p.g, tone);
    let b: Real32 = spread(p.b, tone);
    let y: Real32 = luma(r, g, b);
    Rgba32 {
        r: in_unit(saturated(r, y, tone.saturation)),
        g: in_unit(saturated(g, y, tone.saturation)),
        b: in_unit(saturated(b, y, tone.saturation)),
        a: p.a,
    }
}

/// The tone of an adjustment; none where it leaves the colours as they are.
pub open spec fn tone_of(brightness: Real, contrast: Real, saturation: Real) -> Option<Tone> {
    let zero = Real { bits: ZERO };
    let one = Real { bits: ONE };
    if brightness.same(zero) && contrast.same(zero) && saturation.same(zero) {
        None
    } else {
        Some(
            Tone {
                shift: brightness.narrowed(),
                contrast: one.plus(contrast).narrowed(),
                saturation: if saturation.same(zero) {
                    None
                } else {
                    Some(one.plus(saturation).narrowed())
                },
            },
        )
    }
}

/// The weight of a neighbour in a blur of three by three: `1 2 1`, `2 4 2`, `1 2 1`.
#[verifier::allow_in_spec]
pub fn neighbour_weight(k: u8) -> Real32
    returns
        (if k == 4 {
            Real32 { bits: SHORT_FOUR }
        } else if k == 1 || k == 3 || k == 5 || k == 7 {
            Real32 { bits: SHORT_TWO }
        } else {
            Real32 { bits: SHORT_ONE }
        }),
{
    if k == 4 {
        Real32 { bits: SHORT_FOUR }
    } else if k == 1 || k == 3 || k == 5 || k == 7 {
        Real32 { bits: SHORT_TWO }
    } else {
        Real32 { bits: SHORT_ONE }
    }
}

/// Neighbour `k` of a pixel, row by row. Beyond an edge the last pixel goes on.
pub open spec fn neighbour(img: LinearImage, x: int, y: int, k: int) -> Rgba32 {
    img.pixel(
        inside(x + k % 3 - 1, img.width as int),
        inside(y + k / 3 - 1, img.height as int),
    )
}

/// The first `n` parts of the weighted sum of a pixel's neighbours. Opacity is left out.
pub open spec fn neighbours(img: LinearImage, x: int, y: int, n: nat) -> Rgba32
    decreases n,
{
    if n == 0 {
        Rgba32 {
            r: Real32 { bits: SHORT_ZERO },
            g: Real32 { bits: SHORT_ZERO },
            b: Real32 { bits: SHORT_ZERO },
            a: Real32 { bits: SHORT_ZERO },
        }
    } else {
        let before = neighbours(img, x, y, (n - 1) as nat);
        let p = neighbour(img, x, y, n - 1);
        let w = neighbour_weight((n - 1) as u8);
        Rgba32 {
            r: before.r.plus(p.r.times(w)),
            g: before.g.plus(p.g.times(w)),
            b: before.b.plus(p.b.times(w)),
            a: before.a,
        }
    }
}

fn sum_neighbours(img: &LinearImage, x: u32, y: u32) -> (r: Rgba32)
    requires
        img.well_formed(),
        x < img.width,
        y < img.height,
    ensures
        r == neighbours(*img, x as int, y as int, 9),
{
    let zero: Real32 = Real32 { bits: SHORT_ZERO };
    let mut acc: Rgba32 = Rgba32 { r: zero, g: zero, b: zero, a: zero };
    let mut k: u8 = 0;
    while k < 9
        invariant
            img.well_formed(),
            x < img.width,
            y < img.height,
            k <= 9,
            acc == neighbours(*img, x as int, y as int, k as nat),
        decreases 9 - k,
    {
        let i: i64 = x as i64 + (k % 3) as i64 - 1;
        let j: i64 = y as i64 + (k / 3) as i64 - 1;
        let p: Rgba32 = img.get_clamped(i, j);
        let w: Real32 = neighbour_weight(k);
        acc = Rgba32 {
            r: acc.r.plus(p.r.times(w)),
            g: acc.g.plus(p.g.times(w)),
            b: acc.b.plus(p.b.times(w)),
            a: acc.a,
        };
        k = k + 1;
    }
    acc
}

/// A channel moved away from its blur; `sum` is 16 times the blur.
#[verifier::allow_in_spec]
pub fn sharpened_channel(v: Real32, sum: Real32, amount: Real32) -> Real32
    returns
        in_unit(v.plus(amount.times(v.minus(sum.over(Real32 { bits: SHORT_SIXTEEN }))))),
{
    in_unit(v.plus(amount.times(v.minus(sum.over(Real32 { bits: SHORT_SIXTEEN })))))
}

/// A pixel moved away from the blur of its neighbours. Opacity stays.
pub open spec fn sharpened(img: LinearImage, amount: Real32, x: int, y: int) -> Rgba32 {
    let p = img.pixel(x, y);
    let sum = neighbours(img, x, y, 9);
    Rgba32 {
        r: sharpened_channel(p.r, sum.r, amount),
        g: sharpened_channel(p.g, sum.g, amount),
        b: sharpened_channel(p.b, sum.b, amount),
        a: p.a,
    }
}

/// Moves each pixel away from the blur of its neighbours.
pub fn unsharp_3x3(img: &LinearImage, amount: Real32) -> (r: LinearImage)
    requires
        img.well_formed(),
    ensures
        r.well_formed(),
        r.width == img.width,
        r.height == img.height,
        forall|x: int, y: int|
            0 <= x < img.width && 0 <= y < img.height ==> #[trigger] r.pixel(x, y) == sharpened(
                *img,
                amount,
                x,
                y,
            ),
{
    let count: usize = img.data.len();
    let f = |x: u32, y: u32| -> (q: Rgba32)
        requires
            img.well_formed(),
            x < img.width,
            y < img.height,
        ensures
            q == sharpened(*img, amount, x as int, y as int),
        {
            let p: Rgba32 = img.get(x, y);
            let sum: Rgba32 = sum_neighbours(img, x, y);
            Rgba32 {
                r: sharpened_channel(p.r, sum.r, amount),
                g: sharpened_channel(p.g, sum.g, amount),
                b: sharpened_channel(p.b, sum.b, amount),
                a: p.a,
            }
        };
    let r: LinearImage = Image::build(img.width, img.height, f);
    proof {
        assert forall|x: int, y: int|
            0 <= x < img.width && 0 <= y < img.height implies #[trigger] r.pixel(x, y) == sharpened(
            *img,
            amount,
            x,
            y,
        ) by {
            assert(call_ensures(
                f,
                (x as u32, y as u32),
                r.pixel(x as u32 as int, y as u32 as int),
            ));
        }
    }
    r
}

/// An image before it is sharpened.
pub open spec fn is_toned(img: LinearImage, tone: Option<Tone>, out: LinearImage) -> bool {
    match tone {
        Some(t) => is_mapped(img, out, |p: Rgba32| toned(p, t)),
        None => out.width == img.width && out.height == img.height && out.data@ == img.data@,
    }
}

/// An adjusted image: toned, and then sharpened where sharpness is positive.
pub open spec fn is_adjusted(
    img: LinearImage,
    tone: Option<Tone>,
    sharpness: Real,
    out: LinearImage,
) -> bool {
    if (Real { bits: ZERO }).below(sharpness) {
        &&& out.width == img.width
        &&& out.height == img.height
        &&& exists|mid: LinearImage|
            #![trigger is_toned(img, tone, mid)]
            {
                &&& is_toned(img, tone, mid)
                &&& forall|x: int, y: int|
                    0 <= x < img.width && 0 <= y < img.height ==> #[trigger] out.pixel(x, y)
                        == sharpened(mid, sharpness.narrowed(), x, y)
            }
    } else {
        is_toned(img, tone, out)
    }
}

/// Changes brightness, contrast and saturation, and then sharpens.
pub fn adjust(
    img: &LinearImage,
    brightness: Real,
    contrast: Real,
    saturation: Real,
    sharpness: Real,
) -> (r: LinearImage)
    requires
        img.well_formed(),
    ensures
        r.well_formed(),
        is_adjusted(*img, tone_of(brightness, contrast, saturation), sharpness, r),
{
    let zero: Real = Real { bits: ZERO };
    let one: Real = Real { bits: ONE };
    let still: bool = brightness.same(zero) && contrast.same(zero) && saturation.same(zero);
    let mid: LinearImage = if still {
        copy(img)
    } else {
        let tone: Tone = Tone {
            shift: brightness.narrowed(),
            contrast: one.plus(contrast).narrowed(),
            saturation: if saturation.same(zero) {
                None
            } else {
                Some(one.plus(saturation).narrowed())
            },
        };
        let f = |p: Rgba32| -> (q: Rgba32)
            ensures
                q == toned(p, tone),
            { change_tone(p, tone) };
        map_pixels(img, f, Ghost(|p: Rgba32| toned(p, tone)))
    };
    let ghost tone = tone_of(brightness, contrast, saturation);
    assert(is_toned(*img, tone, mid));
    if zero.below(sharpness) {
        unsharp_3x3(&mid, sharpness.narrowed())
    } else {
        mid
    }
}

/// With nothing to adjust an image stays as it is.
pub proof fn no_adjustment_changes_nothing(img: LinearImage, out: LinearImage)
    requires
        is_adjusted(
            img,
            tone_of(Real { bits: ZERO }, Real { bits: ZERO }, Real { bits: ZERO }),
            Real { bits: ZERO },
            out,
        ),
    ensures
        out.width == img.width,
        out.height == img.height,
        out.data@ == img.data@,
{
    assert((Real { bits: ZERO }).same(Real { bits: ZERO }));
    assert(!(Real { bits: ZERO }).below(Real { bits: ZERO }));
}

/// An adjustment without sharpness leaves opacity as it is.
pub proof fn tone_keeps_opacity(img: LinearImage, tone: Option<Tone>, out: LinearImage, x: int, y: int)
    requires
        img.well_formed(),
        is_toned(img, tone, out),
        0 <= x < img.width,
        0 <= y < img.height,
    ensures
        out.pixel(x, y).a == img.pixel(x, y).a,
{
    match tone {
        Some(t) => {
            mapped_pixel(img, out, |p: Rgba32| toned(p, t), x, y);
        },
        None => {},
    }
}

/// An adjustment leaves opacity as it is.
pub proof fn adjustment_keeps_opacity(
    img: LinearImage,
    tone: Option<Tone>,
    sharpness: Real,
    out: LinearImage,
    x: int,
    y: int,
)
    requires
        img.well_formed(),
        is_adjusted(img, tone, sharpness, out),
        0 <= x < img.width,
        0 <= y < img.height,
    ensures
        out.pixel(x, y).a == img.pixel(x, y).a,
{
    if (Real { bits: ZERO }).below(sharpness) {
        let mid = choose|mid: LinearImage|
            #![trigger is_toned(img, tone, mid)]
            {
                &&& is_toned(img, tone, mid)
                &&& forall|x: int, y: int|
                    0 <= x < img.width && 0 <= y < img.height ==> #[trigger] out.pixel(x, y)
                        == sharpened(mid, sharpness.narrowed(), x, y)
            };
        tone_keeps_opacity(img, tone, mid, x, y);
    } else {
        tone_keeps_opacity(img, tone, out, x, y);
    }
}

} // verus!
