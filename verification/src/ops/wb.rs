//! White balance.
use vstd::prelude::*;

use crate::binary::{byte_range, Real, Triple};
use crate::error::{first_fault, op_error, op_fault, verdict, AtxError, Fault};
use crate::number::{
    finite, is_finite, is_within, within, Number, HUNDRED, MINUS_HUNDRED, ONE, ZERO,
};
use crate::ops::color::{apply_rgb_luts, identity_lut};
use crate::raster::{is_mapped, Image, Rgba};
use crate::stats::{LUMA_B, LUMA_G, LUMA_R};
use crate::text::cat3;

verus! {

/// What is wrong with one slider of `white_balance`.
pub open spec fn balance_fault(index: int, name: Seq<char>, value: Number) -> Option<Fault> {
    if within(value.bits, MINUS_HUNDRED, HUNDRED) {
        None
    } else {
        op_fault(
            index,
            "white_balance"@,
            name + " must be a finite value within -100..=100, got "@ + value.text@,
        )
    }
}

/// What is wrong with the parameters of `white_balance`.
pub open spec fn white_balance_fault(index: int, temperature: Number, tint: Number) -> Option<
    Fault,
> {
    first_fault(
        balance_fault(index, "temperature"@, temperature),
        balance_fault(index, "tint"@, tint),
    )
}

/// Checks one slider.
fn validate_slider(index: usize, name: &str, value: &Number) -> (r: Result<(), AtxError>)
    ensures
        verdict(r) == balance_fault(index as int, name@, *value),
{
    if !is_within(value.bits, MINUS_HUNDRED, HUNDRED) {
        let message: String = cat3(
            name,
            " must be a finite value within -100..=100, got ",
            value.text.as_str(),
        );
        return Err(op_error(index, "white_balance", message.as_str()));
    }
    Ok(())
}

/// Checks the parameters of `white_balance`.
pub fn validate(index: usize, temperature: &Number, tint: &Number) -> (r: Result<(), AtxError>)
    ensures
        verdict(r) == white_balance_fault(index as int, *temperature, *tint),
{
    match validate_slider(index, "temperature", temperature) {
        Err(e) => return Err(e),
        Ok(_) => {},
    }
    validate_slider(index, "tint", tint)
}

/// How far temperature moves red and blue, 0.35.
pub const TEMPERATURE_AMPLITUDE: u64 = 0x3FD6_6666_6666_6666;

/// How far tint moves green, 0.25.
pub const TINT_AMPLITUDE: u64 = 0x3FD0_0000_0000_0000;

/// The gains before they are shared out: warm raises red and lowers blue, magenta
/// lowers green.
pub open spec fn raw_gains(temperature: Real, tint: Real) -> Triple {
    let one = Real { bits: ONE };
    let t = temperature.over(Real { bits: HUNDRED });
    let m = tint.over(Real { bits: HUNDRED });
    Triple {
        r: one.plus((Real { bits: TEMPERATURE_AMPLITUDE }).times(t)),
        g: one.minus((Real { bits: TINT_AMPLITUDE }).times(m)),
        b: one.minus((Real { bits: TEMPERATURE_AMPLITUDE }).times(t)),
    }
}

/// The gains of temperature and tint: their mean, weighted by luminance, is brought to 1,
/// and they lie on a grid of millionths.
pub open spec fn balanced(temperature: Real, tint: Real) -> Triple {
    let raw = raw_gains(temperature, tint);
    let mean = (Real { bits: LUMA_R }).times(raw.r).plus(
        (Real { bits: LUMA_G }).times(raw.g),
    ).plus((Real { bits: LUMA_B }).times(raw.b));
    if !finite(mean.bits) || mean.at_most(Real { bits: ZERO }) {
        raw
    } else {
        Triple {
            r: raw.r.over(mean).on_grid(),
            g: raw.g.over(mean).on_grid(),
            b: raw.b.over(mean).on_grid(),
        }
    }
}

/// The gains of temperature and tint.
pub fn gains(temperature: Real, tint: Real) -> (r: Triple)
    ensures
        r == balanced(temperature, tint),
{
    let one: Real = Real { bits: ONE };
    let t: Real = temperature.over(Real { bits: HUNDRED });
    let m: Real = tint.over(Real { bits: HUNDRED });
    let warm: Real = Real { bits: TEMPERATURE_AMPLITUDE };
    let magenta: Real = Real { bits: TINT_AMPLITUDE };
    let g_r: Real = one.plus(warm.times(t));
    let g_b: Real = one.minus(warm.times(t));
    let g_g: Real = one.minus(magenta.times(m));
    let (lr, lg, lb): (Real, Real, Real) = (
        Real { bits: LUMA_R },
        Real { bits: LUMA_G },
        Real { bits: LUMA_B },
    );
    let mean: Real = lr.times(g_r).plus(lg.times(g_g)).plus(lb.times(g_b));
    if !is_finite(mean.bits) || mean.at_most(Real { bits: ZERO }) {
        return Triple { r: g_r, g: g_g, b: g_b };
    }
    Triple {
        r: g_r.over(mean).on_grid(),
        g: g_g.over(mean).on_grid(),
        b: g_b.over(mean).on_grid(),
    }
}

/// A byte times a gain.
pub open spec fn gained(i: int, gain: Real) -> u8 {
    byte_range(Real::nearest_to(i).times(gain).round_integer() as int)
}

/// The table of a gain.
pub fn gain_lut(gain: Real) -> (r: Vec<u8>)
    ensures
        r@.len() == 256,
        forall|i: int| 0 <= i < 256 ==> #[trigger] r@[i] == gained(i, gain),
{
    let mut r: Vec<u8> = Vec::new();
    let mut i: u16 = 0;
    while i < 256
        invariant
            i <= 256,
            r@.len() == i,
            forall|k: int| 0 <= k < i ==> #[trigger] r@[k] == gained(k, gain),
        decreases 256 - i,
    {
        let n: i64 = Real::from_integer(i as i64).times(gain).round_integer();
        let v: u8 = if n < 0 {
            0
        } else if n > 255 {
            255
        } else {
            n as u8
        };
        r.push(v);
        i = i + 1;
    }
    r
}

/// What white balance makes of a colour. Opacity stays, and so does everything where
/// both sliders are at 0.
pub open spec fn balanced_pixel(temperature: Real, tint: Real, p: Rgba) -> Rgba {
    let zero = Real { bits: ZERO };
    let g = balanced(temperature, tint);
    if temperature.same(zero) && tint.same(zero) {
        p
    } else {
        Rgba {
            r: gained(p.r as int, g.r),
            g: gained(p.g as int, g.g),
            b: gained(p.b as int, g.b),
            a: p.a,
        }
    }
}

/// Applies white balance to an image.
pub fn apply(img: &Image<Rgba>, temperature: Real, tint: Real) -> (r: Image<Rgba>)
    requires
        img.well_formed(),
    ensures
        is_mapped(*img, r, |p: Rgba| balanced_pixel(temperature, tint, p)),
{
    let zero: Real = Real { bits: ZERO };
    if temperature.same(zero) && tint.same(zero) {
        let same: Vec<u8> = identity_lut();
        return apply_rgb_luts(img, &same, &same, &same);
    }
    let g: Triple = gains(temperature, tint);
    let red: Vec<u8> = gain_lut(g.r);
    let green: Vec<u8> = gain_lut(g.g);
    let blue: Vec<u8> = gain_lut(g.b);
    apply_rgb_luts(img, &red, &green, &blue)
}

} // verus!
