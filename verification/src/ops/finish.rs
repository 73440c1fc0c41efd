//! Finishing: flip, vignette and grain.
use vstd::prelude::*;

use crate::binary::{Real, Real32};
use crate::error::{op_error, op_fault, verdict, AtxError, Fault};
use crate::linear::{quantize_1e6, LinearImage};
use crate::number::{
    is_within, within, Number, HALF, MINUS_ONE, ONE, ONE_AND_A_HALF, THREE, TWO, ZERO,
};
use crate::ops::blend::in_unit;
use crate::pixel_ops::{
    flip_horizontal, flip_vertical, mirrored_horizontally, mirrored_vertically,
};
use crate::raster::{Image, Rgba32};
use crate::recipe::FlipDirection;
use crate::text::{cat2, dec, decimal};

verus! {

/// What is wrong with the parameters of `vignette`.
pub open spec fn vignette_fault(
    index: int,
    strength: Number,
    radius: Number,
    feather: Number,
) -> Option<Fault> {
    if !within(strength.bits, MINUS_ONE, ONE) {
        op_fault(
            index,
            "vignette"@,
            "strength must be a finite value within -1..=1, got "@ + strength.text@,
        )
    } else if !within(radius.bits, ZERO, ONE_AND_A_HALF) {
        op_fault(
            index,
            "vignette"@,
            "radius must be a finite value within 0.0..=1.5, got "@ + radius.text@,
        )
    } else if !within(feather.bits, ZERO, ONE) {
        op_fault(
            index,
            "vignette"@,
            "feather must be a finite value within 0.0..=1, got "@ + feather.text@,
        )
    } else {
        None
    }
}

/// Checks the parameters of `vignette`.
pub fn validate_vignette(index: usize, strength: &Number, radius: &Number, feather: &Number) -> (r:
    Result<(), AtxError>)
    ensures
        verdict(r) == vignette_fault(index as int, *strength, *radius, *feather),
{
    if !is_within(strength.bits, MINUS_ONE, ONE) {
        let message: String = cat2(
            "strength must be a finite value within -1..=1, got ",
            strength.text.as_str(),
        );
        return Err(op_error(index, "vignette", message.as_str()));
    }
    if !is_within(radius.bits, ZERO, ONE_AND_A_HALF) {
        let message: String = cat2(
            "radius must be a finite value within 0.0..=1.5, got ",
            radius.text.as_str(),
        );
        return Err(op_error(index, "vignette", message.as_str()));
    }
    if !is_within(feather.bits, ZERO, ONE) {
        let message: String = cat2(
            "feather must be a finite value within 0.0..=1, got ",
            feather.text.as_str(),
        );
        return Err(op_error(index, "vignette", message.as_str()));
    }
    Ok(())
}

/// What is wrong with the parameters of `grain`.
pub open spec fn grain_fault(index: int, amount: Number, size: u32) -> Option<Fault> {
    if !within(amount.bits, ZERO, ONE) {
        op_fault(
            index,
            "grain"@,
            "amount must be a finite value within 0.0..=1, got "@ + amount.text@,
        )
    } else if !(1 <= size <= 4) {
        op_fault(index, "grain"@, "size must be within 1..=4, got "@ + decimal(size as nat))
    } else {
        None
    }
}

/// Checks the parameters of `grain`.
pub fn validate_grain(index: usize, amount: &Number, size: u32) -> (r: Result<(), AtxError>)
    ensures
        verdict(r) == grain_fault(index as int, *amount, size),
{
    if !is_within(amount.bits, ZERO, ONE) {
        let message: String = cat2(
            "amount must be a finite value within 0.0..=1, got ",
            amount.text.as_str(),
        );
        return Err(op_error(index, "grain", message.as_str()));
    }
    if size < 1 || size > 4 {
        let number: String = dec(size as u64);
        let message: String = cat2("size must be within 1..=4, got ", number.as_str());
        return Err(op_error(index, "grain", message.as_str()));
    }
    Ok(())
}

/// Mirrors an image.
pub fn flip<P: Copy>(img: &Image<P>, direction: FlipDirection) -> (r: Image<P>)
    requires
        img.well_formed(),
    ensures
        match direction {
            FlipDirection::Horizontal => mirrored_horizontally(*img, r),
            FlipDirection::Vertical => mirrored_vertically(*img, r),
        },
{
    match direction {
        FlipDirection::Horizontal => flip_horizontal(img),
        FlipDirection::Vertical => flip_vertical(img),
    }
}

/// What light is multiplied with at distance `d` from the middle: nothing changes up to
/// the radius, and beyond the feather all of the strength counts.
pub open spec fn falloff(d: Real, strength: Real, radius: Real, feather: Real) -> Real32 {
    let one = Real { bits: ONE };
    let gain = if d.at_most(radius) {
        one
    } else if feather.at_most(Real { bits: ZERO }) || radius.plus(feather).at_most(d) {
        one.minus(strength)
    } else {
        let t = d.minus(radius).over(feather);
        let s = t.times(t).times((Real { bits: THREE }).minus((Real { bits: TWO }).times(t)));
        one.minus(strength.times(s))
    };
    quantize_1e6(gain).narrowed()
}

/// What light is multiplied with at distance `d` from the middle.
pub fn vignette_gain(d: Real, strength: Real, radius: Real, feather: Real) -> (r: Real32)
    ensures
        r == falloff(d, strength, radius, feather),
{
    let one: Real = Real { bits: ONE };
    let gain: Real = if d.at_most(radius) {
        one
    } else if feather.at_most(Real { bits: ZERO }) || radius.plus(feather).at_most(d) {
        one.minus(strength)
    } else {
        let (two, three): (Real, Real) = (Real { bits: TWO }, Real { bits: THREE });
        let t: Real = d.minus(radius).over(feather);
        let s: Real = t.times(t).times(three.minus(two.times(t)));
        one.minus(strength.times(s))
    };
    quantize_1e6(gain).narrowed()
}

/// The square of the distance of place `i` from the middle of `len` places.
#[verifier::allow_in_spec]
pub fn from_middle(i: u32, len: u32) -> Real
    returns
        Real::nearest_to(i as int).plus(Real { bits: HALF }).minus(
            Real::nearest_to(len as int).over(Real { bits: TWO }),
        ).times(
            Real::nearest_to(i as int).plus(Real { bits: HALF }).minus(
                Real::nearest_to(len as int).over(Real { bits: TWO }),
            ),
        ),
{
    let d: Real = Real::from_integer(i as i64).plus(Real { bits: HALF }).minus(
        Real::from_integer(len as i64).over(Real { bits: TWO }),
    );
    d.times(d)
}

/// Half the diagonal of an image.
#[verifier::allow_in_spec]
pub fn half_diagonal(w: u32, h: u32) -> Real
    returns
        Real::nearest_to(w as int).times(Real::nearest_to(w as int)).plus(
            Real::nearest_to(h as int).times(Real::nearest_to(h as int)),
        ).root().over(Real { bits: TWO }),
{
    let (a, b): (Real, Real) = (Real::from_integer(w as i64), Real::from_integer(h as i64));
    a.times(a).plus(b.times(b)).root().over(Real { bits: TWO })
}

/// A pixel under a vignette. Opacity stays.
pub open spec fn vignetted(
    img: LinearImage,
    strength: Real,
    radius: Real,
    feather: Real,
    x: int,
    y: int,
) -> Rgba32 {
    let p = img.pixel(x, y);
    if strength.same(Real { bits: ZERO }) {
        p
    } else {
        let d = from_middle(x as u32, img.width).plus(from_middle(y as u32, img.height)).root().over(
            half_diagonal(img.width, img.height),
        );
        let gain = falloff(d, strength, radius, feather);
        Rgba32 { r: p.r.times(gain), g: p.g.times(gain), b: p.b.times(gain), a: p.a }
    }
}

fn vignette_pixel(
    img: &LinearImage,
    strength: Real,
    radius: Real,
    feather: Real,
    x: u32,
    y: u32,
) -> (r: Rgba32)
    requires
        img.well_formed(),
        x < img.width,
        y < img.height,
    ensures
        r == vignetted(*img, strength, radius, feather, x as int, y as int),
{
    let p: Rgba32 = img.get(x, y);
    if strength.same(Real { bits: ZERO }) {
        return p;
    }
    let d: Real = from_middle(x, img.width).plus(from_middle(y, img.height)).root().over(
        half_diagonal(img.width, img.height),
    );
    let gain: Real32 = vignette_gain(d, strength, radius, feather);
    Rgba32 { r: p.r.times(gain), g: p.g.times(gain), b: p.b.times(gain), a: p.a }
}

/// Darkens, or lightens, an image towards its corners.
pub fn vignette(img: &LinearImage, strength: Real, radius: Real, feather: Real) -> (r: LinearImage)
    requires
        img.well_formed(),
    ensures
        r.well_formed(),
        r.width == img.width,
        r.height == img.height,
        forall|x: int, y: int|
            0 <= x < img.width && 0 <= y < img.height ==> #[trigger] r.pixel(x, y) == vignetted(
                *img,
                strength,
                radius,
                feather,
                x,
                y,
            ),
{
    let count: usize = img.data.len();
    let f = |x: u32, y: u32| -> (p: Rgba32)
        requires
            img.well_formed(),
            x < img.width,
            y < img.height,
        ensures
            p == vignetted(*img, strength, radius, feather, x as int, y as int),
        { vignette_pixel(img, strength, radius, feather, x, y) };
    let r: LinearImage = Image::build(img.width, img.height, f);
    proof {
        assert forall|x: int, y: int|
            0 <= x < img.width && 0 <= y < img.height implies #[trigger] r.pixel(x, y)
            == vignetted(*img, strength, radius, feather, x, y) by {
            assert(call_ensures(
                f,
                (x as u32, y as u32),
                r.pixel(x as u32 as int, y as u32 as int),
            ));
        }
    }
    r
}

/// The golden ratio in 64 bits.
pub const GOLDEN: u64 = 0x9E37_79B9_7F4A_7C15;

/// One step of a mix: the number with its own upper bits, times a constant.
#[verifier::allow_in_spec]
pub fn mix(z: u64, shift: u64, factor: u64) -> u64
    requires
        shift < 64,
    returns
        (z ^ (z >> shift)).wrapping_mul(factor),
{
    (z ^ (z >> shift)).wrapping_mul(factor)
}

/// The mix of the splitmix64 generator.
#[verifier::allow_in_spec]
pub fn splitmix64(seed: u64) -> u64
    returns
        (mix(
            mix(seed.wrapping_add(GOLDEN), 30, 0xBF58_476D_1CE4_E5B9),
            27,
            0x94D0_49BB_1331_11EB,
        ) ^ (mix(
            mix(seed.wrapping_add(GOLDEN), 30, 0xBF58_476D_1CE4_E5B9),
            27,
            0x94D0_49BB_1331_11EB,
        ) >> 31u64)),
{
    let z: u64 = seed.wrapping_add(GOLDEN);
    let z: u64 = mix(z, 30, 0xBF58_476D_1CE4_E5B9);
    let z: u64 = mix(z, 27, 0x94D0_49BB_1331_11EB);
    z ^ (z >> 31u64)
}

/// A hash of a block, a seed and a channel.
#[verifier::allow_in_spec]
pub fn grain_hash(block_x: u64, block_y: u64, seed: u64, channel: u64) -> u64
    returns
        splitmix64(
            splitmix64(
                splitmix64(
                    splitmix64(seed ^ 0xA076_1D64_78BD_642F) ^ block_x.wrapping_mul(
                        0xD6E8_FEB8_6659_FD93,
                    ),
                ) ^ block_y.wrapping_mul(0xE703_7ED1_A0B4_28DB),
            ) ^ channel.wrapping_mul(GOLDEN),
        ),
{
    let h: u64 = splitmix64(seed ^ 0xA076_1D64_78BD_642F);
    let h: u64 = splitmix64(h ^ block_x.wrapping_mul(0xD6E8_FEB8_6659_FD93));
    let h: u64 = splitmix64(h ^ block_y.wrapping_mul(0xE703_7ED1_A0B4_28DB));
    splitmix64(h ^ channel.wrapping_mul(GOLDEN))
}

/// How far grain moves a channel at most, 0.12.
pub const GRAIN_SCALE: u64 = 0x3FBE_B851_EB85_1EB8;

/// The largest 32-bit number.
pub const U32_SPAN: u64 = 0x41EF_FFFF_FFE0_0000;

/// How far grain moves a channel of a block: the upper half of the hash, brought to the
/// range from -1 to 1, times the amount, on a grid of millionths.
pub open spec fn grain_shift(
    block_x: u64,
    block_y: u64,
    seed: u64,
    channel: u64,
    amount: Real,
) -> Real32 {
    let h = grain_hash(block_x, block_y, seed, channel);
    let u = Real::nearest_to(((h >> 32u64) as u32) as int).over(Real { bits: U32_SPAN });
    let noise = u.times(Real { bits: TWO }).minus(Real { bits: ONE });
    quantize_1e6(noise.times(amount).times(Real { bits: GRAIN_SCALE })).narrowed()
}

/// How far grain moves a channel of a block.
pub fn grain_delta(block_x: u64, block_y: u64, seed: u64, channel: u64, amount: Real) -> (r: Real32)
    ensures
        r == grain_shift(block_x, block_y, seed, channel, amount),
{
    let h: u64 = grain_hash(block_x, block_y, seed, channel);
    let top: u32 = (h >> 32u64) as u32;
    let u: Real = Real::from_integer(top as i64).over(Real { bits: U32_SPAN });
    let noise: Real = u.times(Real { bits: TWO }).minus(Real { bits: ONE });
    quantize_1e6(noise.times(amount).times(Real { bits: GRAIN_SCALE })).narrowed()
}

/// A pixel with grain: all channels move alike where the grain is monochrome. Opacity
/// stays.
pub open spec fn grained(
    p: Rgba32,
    amount: Real,
    size: u32,
    monochrome: bool,
    seed: u64,
    x: int,
    y: int,
) -> Rgba32 {
    let side = if size < 1 {
        1
    } else {
        size as int
    };
    let (bx, by) = ((x / side) as u64, (y / side) as u64);
    if amount.same(Real { bits: ZERO }) {
        p
    } else {
        let shift = |c: u64|
            grain_shift(
                bx,
                by,
                seed,
                if monochrome {
                    0
                } else {
                    c
                },
                amount,
            );
        Rgba32 {
            r: in_unit(p.r.plus(shift(0))),
            g: in_unit(p.g.plus(shift(1))),
            b: in_unit(p.b.plus(shift(2))),
            a: p.a,
        }
    }
}

fn grain_pixel(
    p: Rgba32,
    amount: Real,
    size: u32,
    monochrome: bool,
    seed: u64,
    x: u32,
    y: u32,
) -> (r: Rgba32)
    ensures
        r == grained(p, amount, size, monochrome, seed, x as int, y as int),
{
    if amount.same(Real { bits: ZERO }) {
        return p;
    }
    let side: u32 = if size < 1 {
        1
    } else {
        size
    };
    let (bx, by): (u64, u64) = ((x / side) as u64, (y / side) as u64);
    let red: Real32 = grain_delta(bx, by, seed, 0, amount);
    let (green, blue): (Real32, Real32) = if monochrome {
        (red, red)
    } else {
        (grain_delta(bx, by, seed, 1, amount), grain_delta(bx, by, seed, 2, amount))
    };
    Rgba32 {
        r: in_unit(p.r.plus(red)),
        g: in_unit(p.g.plus(green)),
        b: in_unit(p.b.plus(blue)),
        a: p.a,
    }
}

/// Adds grain to an image.
pub fn grain(img: &LinearImage, amount: Real, size: u32, monochrome: bool, seed: u64) -> (r:
    LinearImage)
    requires
        img.well_formed(),
    ensures
        r.well_formed(),
        r.width == img.width,
        r.height == img.height,
        forall|x: int, y: int|
            0 <= x < img.width && 0 <= y < img.height ==> #[trigger] r.pixel(x, y) == grained(
                img.pixel(x, y),
                amount,
                size,
                monochrome,
                seed,
                x,
                y,
            ),
{
    let count: usize = img.data.len();
    let f = |x: u32, y: u32| -> (p: Rgba32)
        requires
            img.well_formed(),
            x < img.width,
            y < img.height,
        ensures
            p == grained(
                img.pixel(x as int, y as int),
                amount,
                size,
                monochrome,
                seed,
                x as int,
                y as int,
            ),
        { grain_pixel(img.get(x, y), amount, size, monochrome, seed, x, y) };
    let r: LinearImage = Image::build(img.width, img.height, f);
    proof {
        assert forall|x: int, y: int|
            0 <= x < img.width && 0 <= y < img.height implies #[trigger] r.pixel(x, y) == grained(
            img.pixel(x, y),
            amount,
            size,
            monochrome,
            seed,
            x,
            y,
        ) by {
            assert(call_ensures(
                f,
                (x as u32, y as u32),
                r.pixel(x as u32 as int, y as u32 as int),
            ));
        }
    }
    r
}

/// Grain of amount 0 changes nothing.
pub proof fn no_grain_changes_nothing(
    p: Rgba32,
    size: u32,
    monochrome: bool,
    seed: u64,
    x: int,
    y: int,
)
    ensures
        grained(p, Real { bits: ZERO }, size, monochrome, seed, x, y) == p,
{
}

} // verus!
