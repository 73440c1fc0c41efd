//! Hue, saturation and luminance by colour band.
use vstd::arithmetic::div_mod::lemma_basic_div;
use vstd::arithmetic::power2::{lemma_pow2_unfold, pow2};
use vstd::prelude::*;

use crate::binary::{byte_range, Real};
use crate::error::{first_fault, op_error, op_fault, verdict, AtxError, Fault};
use crate::exact::{
    formats, is_number, nearest_keeps_order, parts_of, quotient_at_most_one, sum_of_zeros,
    sum_with_zero,
};
use crate::float::{lowest, negative, significand, zero, Width};
use crate::number::{
    is_within, within, Number, BYTE_MAX, FOUR, FULL_TURN, HALF, HUNDRED, MINUS_HUNDRED, ONE, SIX,
    SIXTY, THIRTY, TWO, ZERO,
};
use crate::raster::{is_mapped, map_pixels, Image, Rgba};
use crate::recipe::HslShift;
use crate::text::cat5;
use crate::units::{
    difference_in_units, exact_units, pattern_of_units, units, units_keep_order,
};
use crate::weights::parts_make_up_one;

verus! {

/// What is wrong with one slider of one band.
pub open spec fn slider_fault(index: int, band: Seq<char>, field: Seq<char>, value: Number) -> Option<
    Fault,
> {
    if within(value.bits, MINUS_HUNDRED, HUNDRED) {
        None
    } else {
        op_fault(
            index,
            "hsl"@,
            band + "."@ + field + " must be a finite value within -100..=100, got "@ + value.text@,
        )
    }
}

/// What is wrong with the shift of one band.
pub open spec fn band_fault(index: int, band: Seq<char>, shift: Option<HslShift>) -> Option<Fault> {
    match shift {
        None => None,
        Some(s) => first_fault(
            slider_fault(index, band, "hue"@, s.hue),
            first_fault(
                slider_fault(index, band, "saturation"@, s.saturation),
                slider_fault(index, band, "luminance"@, s.luminance),
            ),
        ),
    }
}

/// What is wrong with the bands, from red to magenta in this order.
pub open spec fn hsl_fault(index: int, bands: Seq<Option<HslShift>>) -> Option<Fault> {
    if forall|i: int| 0 <= i < 8 ==> bands[i] is None {
        op_fault(
            index,
            "hsl"@,
            "at least one of red, orange, yellow, green, aqua, blue, purple, magenta is required"@,
        )
    } else {
        first_fault(
            band_fault(index, "red"@, bands[0]),
            first_fault(
                band_fault(index, "orange"@, bands[1]),
                first_fault(
                    band_fault(index, "yellow"@, bands[2]),
                    first_fault(
                        band_fault(index, "green"@, bands[3]),
                        first_fault(
                            band_fault(index, "aqua"@, bands[4]),
                            first_fault(
                                band_fault(index, "blue"@, bands[5]),
                                first_fault(
                                    band_fault(index, "purple"@, bands[6]),
                                    band_fault(index, "magenta"@, bands[7]),
                                ),
                            ),
                        ),
                    ),
                ),
            ),
        )
    }
}

/// Checks one slider.
fn validate_slider(index: usize, band: &str, field: &str, value: &Number) -> (r: Result<
    (),
    AtxError,
>)
    ensures
        verdict(r) == slider_fault(index as int, band@, field@, *value),
{
    if !is_within(value.bits, MINUS_HUNDRED, HUNDRED) {
        let message: String = cat5(
            band,
            ".",
            field,
            " must be a finite value within -100..=100, got ",
            value.text.as_str(),
        );
        return Err(op_error(index, "hsl", message.as_str()));
    }
    Ok(())
}

/// Checks the shift of one band.
fn validate_band(index: usize, band: &str, shift: &Option<HslShift>) -> (r: Result<(), AtxError>)
    ensures
        verdict(r) == band_fault(index as int, band@, *shift),
{
    match shift {
        None => Ok(()),
        Some(s) => {
            match validate_slider(index, band, "hue", &s.hue) {
                Err(e) => return Err(e),
                Ok(_) => {},
            }
            match validate_slider(index, band, "saturation", &s.saturation) {
                Err(e) => return Err(e),
                Ok(_) => {},
            }
            validate_slider(index, band, "luminance", &s.luminance)
        },
    }
}

/// Checks the bands, from red to magenta: at least one is there, and every slider is
/// from -100 to 100.
pub fn validate(
    index: usize,
    red: &Option<HslShift>,
    orange: &Option<HslShift>,
    yellow: &Option<HslShift>,
    green: &Option<HslShift>,
    aqua: &Option<HslShift>,
    blue: &Option<HslShift>,
    purple: &Option<HslShift>,
    magenta: &Option<HslShift>,
) -> (r: Result<(), AtxError>)
    ensures
        verdict(r) == hsl_fault(
            index as int,
            seq![*red, *orange, *yellow, *green, *aqua, *blue, *purple, *magenta],
        ),
{
    let ghost bands = seq![*red, *orange, *yellow, *green, *aqua, *blue, *purple, *magenta];
    let none: bool = red.is_none() && orange.is_none() && yellow.is_none() && green.is_none()
        && aqua.is_none() && blue.is_none() && purple.is_none() && magenta.is_none();
    proof {
        assert(bands[0] == *red && bands[1] == *orange && bands[2] == *yellow && bands[3] == *green
            && bands[4] == *aqua && bands[5] == *blue && bands[6] == *purple && bands[7]
            == *magenta);
        if none {
            assert forall|i: int| 0 <= i < 8 implies bands[i] is None by {}
        }
    }
    if none {
        return Err(
            op_error(
                index,
                "hsl",
                "at least one of red, orange, yellow, green, aqua, blue, purple, magenta is required",
            ),
        );
    }
    match validate_band(index, "red", red) {
        Err(e) => return Err(e),
        Ok(_) => {},
    }
    match validate_band(index, "orange", orange) {
        Err(e) => return Err(e),
        Ok(_) => {},
    }
    match validate_band(index, "yellow", yellow) {
        Err(e) => return Err(e),
        Ok(_) => {},
    }
    match validate_band(index, "green", green) {
        Err(e) => return Err(e),
        Ok(_) => {},
    }
    match validate_band(index, "aqua", aqua) {
        Err(e) => return Err(e),
        Ok(_) => {},
    }
    match validate_band(index, "blue", blue) {
        Err(e) => return Err(e),
        Ok(_) => {},
    }
    match validate_band(index, "purple", purple) {
        Err(e) => return Err(e),
        Ok(_) => {},
    }
    validate_band(index, "magenta", magenta)
}

/// The hue at the middle of a band, in degrees.
#[verifier::allow_in_spec]
pub fn band_center(i: usize) -> Real
    returns
        (if i == 0 {
            Real { bits: ZERO }
        } else if i == 1 {
            Real { bits: THIRTY }
        } else if i == 2 {
            Real { bits: SIXTY }
        } else if i == 3 {
            Real { bits: 0x405E_0000_0000_0000 }
        } else if i == 4 {
            Real { bits: 0x4066_8000_0000_0000 }
        } else if i == 5 {
            Real { bits: 0x406E_0000_0000_0000 }
        } else if i == 6 {
            Real { bits: 0x4071_8000_0000_0000 }
        } else if i == 7 {
            Real { bits: 0x4074_0000_0000_0000 }
        } else {
            Real { bits: FULL_TURN }
        }),
{
    if i == 0 {
        Real { bits: ZERO }
    } else if i == 1 {
        Real { bits: THIRTY }
    } else if i == 2 {
        Real { bits: SIXTY }
    } else if i == 3 {
        Real { bits: 0x405E_0000_0000_0000 }
    } else if i == 4 {
        Real { bits: 0x4066_8000_0000_0000 }
    } else if i == 5 {
        Real { bits: 0x406E_0000_0000_0000 }
    } else if i == 6 {
        Real { bits: 0x4071_8000_0000_0000 }
    } else if i == 7 {
        Real { bits: 0x4074_0000_0000_0000 }
    } else {
        Real { bits: FULL_TURN }
    }
}

/// Degrees of hue for one step of the slider, 0.3.
pub const HUE_DEGREES_PER_UNIT: u64 = 0x3FD3_3333_3333_3333;

/// The least factor of saturation and luminance, less 1: -0.95.
pub const FACTOR_MIN: u64 = 0xBFEE_6666_6666_6666;

/// A colour by hue in degrees, saturation and lightness from 0 to 1.
#[derive(Clone, Copy, Debug, PartialEq, Eq, Structural)]
pub struct Hsl {
    pub h: Real,
    pub s: Real,
    pub l: Real,
}

/// The largest of three bytes.
pub open spec fn largest(r: u8, g: u8, b: u8) -> u8 {
    if r >= g && r >= b {
        r
    } else if g >= b {
        g
    } else {
        b
    }
}

/// The smallest of three bytes.
pub open spec fn smallest(r: u8, g: u8, b: u8) -> u8 {
    if r <= g && r <= b {
        r
    } else if g <= b {
        g
    } else {
        b
    }
}

/// A byte as a part of 255.
#[verifier::allow_in_spec]
pub fn part(v: u8) -> Real
    returns
        Real::of_byte(v).over(Real { bits: BYTE_MAX }),
{
    Real::of_byte(v).over(Real { bits: BYTE_MAX })
}

/// The sector of the colour wheel, from 0 to 6, of a colour that is not grey.
pub open spec fn sector(r: u8, g: u8, b: u8) -> Real {
    let top = largest(r, g, b);
    let d = part(top).minus(part(smallest(r, g, b)));
    if top == r {
        let v = part(g).minus(part(b)).over(d);
        if v.below(Real { bits: ZERO }) {
            v.plus(Real { bits: SIX })
        } else {
            v
        }
    } else if top == g {
        part(b).minus(part(r)).over(d).plus(Real { bits: TWO })
    } else {
        part(r).minus(part(g)).over(d).plus(Real { bits: FOUR })
    }
}

/// Hue, saturation and lightness of a colour. A grey has no hue.
pub open spec fn hsl_of(r: u8, g: u8, b: u8) -> Option<Hsl> {
    if largest(r, g, b) == smallest(r, g, b) {
        None
    } else {
        let max = part(largest(r, g, b));
        let min = part(smallest(r, g, b));
        let l = max.plus(min).over(Real { bits: TWO });
        let d = max.minus(min);
        let s = if l.at_most(Real { bits: HALF }) {
            d.over(max.plus(min))
        } else {
            d.over((Real { bits: TWO }).minus(max).minus(min))
        };
        Some(Hsl { h: sector(r, g, b).times(Real { bits: SIXTY }), s, l })
    }
}

/// Hue, saturation and lightness of a colour. A grey has no hue.
pub fn rgb_to_hsl(r: u8, g: u8, b: u8) -> (out: Option<Hsl>)
    ensures
        out == hsl_of(r, g, b),
{
    let high: u8 = if r >= g && r >= b {
        r
    } else if g >= b {
        g
    } else {
        b
    };
    let low: u8 = if r <= g && r <= b {
        r
    } else if g <= b {
        g
    } else {
        b
    };
    if high == low {
        return None;
    }
    let (rf, gf, bf): (Real, Real, Real) = (part(r), part(g), part(b));
    let (max, min): (Real, Real) = (part(high), part(low));
    let two: Real = Real { bits: TWO };
    let l: Real = max.plus(min).over(two);
    let d: Real = max.minus(min);
    let s: Real = if l.at_most(Real { bits: HALF }) {
        d.over(max.plus(min))
    } else {
        d.over(two.minus(max).minus(min))
    };
    let hp: Real = if high == r {
        let v: Real = gf.minus(bf).over(d);
        if v.below(Real { bits: ZERO }) {
            v.plus(Real { bits: SIX })
        } else {
            v
        }
    } else if high == g {
        bf.minus(rf).over(d).plus(two)
    } else {
        rf.minus(gf).over(d).plus(Real { bits: FOUR })
    };
    Some(Hsl { h: hp.times(Real { bits: SIXTY }), s, l })
}

/// A part of 255 as the nearest byte.
#[verifier::allow_in_spec]
pub fn part_to_byte(v: Real) -> u8
    returns
        byte_range(v.times(Real { bits: BYTE_MAX }).round_integer() as int),
{
    let n: i64 = v.times(Real { bits: BYTE_MAX }).round_integer();
    if n < 0 {
        0
    } else if n > 255 {
        255
    } else {
        n as u8
    }
}

/// A hue brought into the range from 0 up to 360 degrees.
pub open spec fn in_turn(h: Real) -> Real {
    let turn = Real { bits: FULL_TURN };
    let zero = Real { bits: ZERO };
    let left = h.left_of(turn);
    let up = if left.below(zero) {
        left.plus(turn)
    } else {
        left
    };
    if turn.at_most(up) {
        zero
    } else {
        up
    }
}

fn bring_into_turn(h: Real) -> (r: Real)
    ensures
        r == in_turn(h),
{
    let turn: Real = Real { bits: FULL_TURN };
    let zero: Real = Real { bits: ZERO };
    let left: Real = h.left_of(turn);
    let up: Real = if left.below(zero) {
        left.plus(turn)
    } else {
        left
    };
    if turn.at_most(up) {
        zero
    } else {
        up
    }
}

/// The colour of hue, saturation and lightness.
pub open spec fn rgb_of(h: Real, s: Real, l: Real) -> (u8, u8, u8) {
    let zero = Real { bits: ZERO };
    let one = Real { bits: ONE };
    let two = Real { bits: TWO };
    if s.at_most(zero) {
        (part_to_byte(l), part_to_byte(l), part_to_byte(l))
    } else {
        let hp = in_turn(h).over(Real { bits: SIXTY });
        let c = if l.at_most(Real { bits: HALF }) {
            two.times(l).times(s)
        } else {
            two.minus(two.times(l)).times(s)
        };
        let x = c.times(one.minus(hp.left_of(two).minus(one).absolute()));
        let m = l.minus(c.over(two));
        let k = hp.floor_integer();
        let (r, g, b) = if k <= 0 {
            (c, x, zero)
        } else if k == 1 {
            (x, c, zero)
        } else if k == 2 {
            (zero, c, x)
        } else if k == 3 {
            (zero, x, c)
        } else if k == 4 {
            (x, zero, c)
        } else {
            (c, zero, x)
        };
        (part_to_byte(r.plus(m)), part_to_byte(g.plus(m)), part_to_byte(b.plus(m)))
    }
}

/// The colour of hue, saturation and lightness.
pub fn hsl_to_rgb(h: Real, s: Real, l: Real) -> (out: (u8, u8, u8))
    ensures
        out == rgb_of(h, s, l),
{
    let zero: Real = Real { bits: ZERO };
    let one: Real = Real { bits: ONE };
    let two: Real = Real { bits: TWO };
    if s.at_most(zero) {
        let v: u8 = part_to_byte(l);
        return (v, v, v);
    }
    let hp: Real = bring_into_turn(h).over(Real { bits: SIXTY });
    let c: Real = if l.at_most(Real { bits: HALF }) {
        two.times(l).times(s)
    } else {
        two.minus(two.times(l)).times(s)
    };
    let x: Real = c.times(one.minus(hp.left_of(two).minus(one).absolute()));
    let m: Real = l.minus(c.over(two));
    let k: i64 = hp.floor_integer();
    let (r, g, b): (Real, Real, Real) = if k <= 0 {
        (c, x, zero)
    } else if k == 1 {
        (x, c, zero)
    } else if k == 2 {
        (zero, c, x)
    } else if k == 3 {
        (zero, x, c)
    } else if k == 4 {
        (x, zero, c)
    } else {
        (c, zero, x)
    };
    (part_to_byte(r.plus(m)), part_to_byte(g.plus(m)), part_to_byte(b.plus(m)))
}

/// The two bands that a hue lies between, each with its weight, looked for from band `i`
/// on.
pub open spec fn bands_from(h: Real, i: int) -> ((int, Real), (int, Real))
    decreases 8 - i,
{
    let one = Real { bits: ONE };
    if i >= 8 {
        ((0, one), (1, Real { bits: ZERO }))
    } else {
        let low = band_center(i as usize);
        let high = band_center((i + 1) as usize);
        if low.at_most(h) && h.below(high) {
            let t = h.minus(low).over(high.minus(low));
            let next = if i + 1 < 8 {
                i + 1
            } else {
                0
            };
            ((i, one.minus(t)), (next, t))
        } else {
            bands_from(h, i + 1)
        }
    }
}

/// The two bands that a hue lies between, each with its weight.
pub fn band_weights(h: Real) -> (r: ((usize, Real), (usize, Real)))
    ensures
        r.0.0 == bands_from(h, 0).0.0,
        r.0.1 == bands_from(h, 0).0.1,
        r.1.0 == bands_from(h, 0).1.0,
        r.1.1 == bands_from(h, 0).1.1,
        r.0.0 < 8,
        r.1.0 < 8,
{
    let one: Real = Real { bits: ONE };
    let mut i: usize = 0;
    while i < 8
        invariant
            i <= 8,
            one == (Real { bits: ONE }),
            bands_from(h, 0) == bands_from(h, i as int),
        decreases 8 - i,
    {
        let low: Real = band_center(i);
        let high: Real = band_center(i + 1);
        if low.at_most(h) && h.below(high) {
            let t: Real = h.minus(low).over(high.minus(low));
            let next: usize = if i + 1 < 8 {
                i + 1
            } else {
                0
            };
            return ((i, one.minus(t)), (next, t));
        }
        i = i + 1;
    }
    ((0, one), (1, Real { bits: ZERO }))
}

/// The sliders of one band as numbers.
#[derive(Clone, Copy, Debug, PartialEq, Eq, Structural)]
pub struct Shift {
    pub hue: Real,
    pub saturation: Real,
    pub luminance: Real,
}

/// The sliders of a band; one that is left out has them at 0.
pub open spec fn shift_of(band: Option<HslShift>) -> Shift {
    match band {
        Some(s) => Shift {
            hue: Real { bits: s.hue.bits },
            saturation: Real { bits: s.saturation.bits },
            luminance: Real { bits: s.luminance.bits },
        },
        None => Shift {
            hue: Real { bits: ZERO },
            saturation: Real { bits: ZERO },
            luminance: Real { bits: ZERO },
        },
    }
}

/// Reads the sliders of a band.
pub fn read_shift(band: &Option<HslShift>) -> (r: Shift)
    ensures
        r == shift_of(*band),
{
    match band {
        Some(s) => Shift {
            hue: Real { bits: s.hue.bits },
            saturation: Real { bits: s.saturation.bits },
            luminance: Real { bits: s.luminance.bits },
        },
        None => Shift {
            hue: Real { bits: ZERO },
            saturation: Real { bits: ZERO },
            luminance: Real { bits: ZERO },
        },
    }
}

/// All sliders of a band are at 0.
#[verifier::allow_in_spec]
pub fn is_still(s: Shift) -> bool
    returns
        s.hue.same(Real { bits: ZERO }) && s.saturation.same(Real { bits: ZERO })
            && s.luminance.same(Real { bits: ZERO }),
{
    let zero: Real = Real { bits: ZERO };
    s.hue.same(zero) && s.saturation.same(zero) && s.luminance.same(zero)
}

/// A mean of two sliders.
#[verifier::allow_in_spec]
pub fn mixed(wi: Real, a: Real, wj: Real, b: Real) -> Real
    returns
        wi.times(a).plus(wj.times(b)),
{
    wi.times(a).plus(wj.times(b))
}

/// Hue, saturation and lightness after the shifts of two bands.
pub open spec fn shifted(at: Hsl, a: Shift, wi: Real, b: Shift, wj: Real) -> Hsl {
    let one = Real { bits: ONE };
    let zero = Real { bits: ZERO };
    let hundred = Real { bits: HUNDRED };
    let low = Real { bits: FACTOR_MIN };
    let dh = mixed(wi, a.hue, wj, b.hue).times(Real { bits: HUE_DEGREES_PER_UNIT });
    let more = mixed(wi, a.saturation, wj, b.saturation).over(hundred).clamped(low, one);
    let lighter = mixed(wi, a.luminance, wj, b.luminance).over(hundred).times(
        Real { bits: HALF },
    ).clamped(low, one);
    Hsl {
        h: at.h.plus(dh),
        s: at.s.times(one.plus(more)).clamped(zero, one),
        l: at.l.times(one.plus(lighter)).clamped(zero, one),
    }
}

fn shift_colour(at: Hsl, a: Shift, wi: Real, b: Shift, wj: Real) -> (r: Hsl)
    ensures
        r == shifted(at, a, wi, b, wj),
{
    let one: Real = Real { bits: ONE };
    let zero: Real = Real { bits: ZERO };
    let hundred: Real = Real { bits: HUNDRED };
    let low: Real = Real { bits: FACTOR_MIN };
    let dh: Real = mixed(wi, a.hue, wj, b.hue).times(Real { bits: HUE_DEGREES_PER_UNIT });
    let more: Real = mixed(wi, a.saturation, wj, b.saturation).over(hundred).clamped(low, one);
    let lighter: Real = mixed(wi, a.luminance, wj, b.luminance).over(hundred).times(
        Real { bits: HALF },
    ).clamped(low, one);
    Hsl {
        h: at.h.plus(dh),
        s: at.s.times(one.plus(more)).clamped(zero, one),
        l: at.l.times(one.plus(lighter)).clamped(zero, one),
    }
}

/// What the bands make of a colour. Greys stay, and so does a colour between two bands
/// that are still. Opacity stays.
pub open spec fn band_pixel(shifts: Seq<Shift>, p: Rgba) -> Rgba {
    match hsl_of(p.r, p.g, p.b) {
        None => p,
        Some(at) => {
            let ((i, wi), (j, wj)) = bands_from(at.h, 0);
            if is_still(shifts[i]) && is_still(shifts[j]) {
                p
            } else {
                let to = shifted(at, shifts[i], wi, shifts[j], wj);
                let (r, g, b) = rgb_of(to.h, to.s, to.l);
                Rgba { r, g, b, a: p.a }
            }
        },
    }
}

fn shift_pixel(shifts: &Vec<Shift>, p: Rgba) -> (q: Rgba)
    requires
        shifts@.len() == 8,
    ensures
        q == band_pixel(shifts@, p),
{
    match rgb_to_hsl(p.r, p.g, p.b) {
        None => p,
        Some(at) => {
            let ((i, wi), (j, wj)): ((usize, Real), (usize, Real)) = band_weights(at.h);
            let (a, b): (Shift, Shift) = (shifts[i], shifts[j]);
            if is_still(a) && is_still(b) {
                p
            } else {
                let to: Hsl = shift_colour(at, a, wi, b, wj);
                let (r, g, b): (u8, u8, u8) = hsl_to_rgb(to.h, to.s, to.l);
                Rgba { r, g, b, a: p.a }
            }
        },
    }
}

/// Applies the sliders of the bands, from red to magenta, to an image.
pub fn apply(img: &Image<Rgba>, shifts: &Vec<Shift>) -> (r: Image<Rgba>)
    requires
        img.well_formed(),
        shifts@.len() == 8,
    ensures
        is_mapped(*img, r, |p: Rgba| band_pixel(shifts@, p)),
{
    let f = |p: Rgba| -> (q: Rgba)
        requires
            shifts@.len() == 8,
        ensures
            q == band_pixel(shifts@, p),
        { shift_pixel(shifts, p) };
    map_pixels(img, f, Ghost(|p: Rgba| band_pixel(shifts@, p)))
}

/// A grey stays as it is, whatever the bands are.
pub proof fn greys_stay(shifts: Seq<Shift>, v: u8, a: u8)
    ensures
        band_pixel(shifts, (Rgba { r: v, g: v, b: v, a })) == (Rgba { r: v, g: v, b: v, a }),
{
}

/// Bands that are all still change nothing.
pub proof fn still_bands_change_nothing(shifts: Seq<Shift>, p: Rgba)
    requires
        shifts.len() == 8,
        forall|i: int| 0 <= i < 8 ==> is_still(#[trigger] shifts[i]),
    ensures
        band_pixel(shifts, p) == p,
{
    if let Some(at) = hsl_of(p.r, p.g, p.b) {
        bands_are_inside(at.h, 0);
    }
}

proof fn bands_are_inside(h: Real, i: int)
    requires
        0 <= i <= 8,
    ensures
        0 <= bands_from(h, i).0.0 < 8,
        0 <= bands_from(h, i).1.0 < 8,
    decreases 8 - i,
{
    if i < 8 {
        bands_are_inside(h, i + 1);
    }
}

/// The weights of the two bands that a hue lies between make up 1, to the last bit.
pub proof fn weights_make_up_one(h: Real)
    ensures
        bands_from(h, 0).0.1.plus(bands_from(h, 0).1.1) == (Real { bits: ONE }),
{
    weights_make_up_one_from(h, 0);
}

proof fn weights_make_up_one_from(h: Real, i: int)
    requires
        0 <= i <= 8,
    ensures
        bands_from(h, i).0.1.plus(bands_from(h, i).1.1) == (Real { bits: ONE }),
    decreases 8 - i,
{
    if i >= 8 {
        reveal(Real::spec_plus);
        sum_with_zero(Width::Double, ONE, ZERO);
    } else {
        let (low, high) = (band_center(i as usize), band_center((i + 1) as usize));
        if low.at_most(h) && h.below(high) {
            let t = h.minus(low).over(high.minus(low));
            way_is_a_part(h, low, high);
            parts_make_up_one(t);
        } else {
            weights_make_up_one_from(h, i + 1);
        }
    }
}

/// The way to a hue between two others is a part of the way between them.
pub proof fn way_is_a_part(h: Real, low: Real, high: Real)
    requires
        is_number(low) && !negative(Width::Double, low.bits),
        is_number(high) && !negative(Width::Double, high.bits),
        low.at_most(h),
        h.below(high),
    ensures
        ({
            let t = h.minus(low).over(high.minus(low));
            is_number(t) && (zero(Width::Double, t.bits) || t.bits <= ONE)
        }),
{
    let w = Width::Double;
    reveal(Real::spec_plus);
    reveal(Real::spec_negated);
    reveal(Real::spec_over);
    units_keep_order(w, low.bits, high.bits);
    difference_in_units(w, high.bits, low.bits);
    let (p, q) = (units(w, low.bits), units(w, high.bits));
    let b = high.minus(low);
    pattern_of_units(w, low.bits);
    pattern_of_units(w, high.bits);
    formats(w);
    lemma_pow2_unfold(53);
    exact_units(w, 1, 0);
    assert(1 * pow2(0) == 1);
    nearest_keeps_order(w, (q - p) as nat, q, lowest(w));
    nearest_keeps_order(w, 1, (q - p) as nat, lowest(w));
    assert(is_number(b) && !negative(w, b.bits) && !zero(w, b.bits));
    parts_of(w, b.bits);
    if zero(w, h.bits) {
        sum_of_zeros(w, h.bits, low.negated().bits);
        let a = h.minus(low);
        parts_of(w, a.bits);
        assert(0 * pow2(128) == 0) by (nonlinear_arith);
        lemma_basic_div(0, significand(w, b.bits) as int);
    } else {
        units_keep_order(w, low.bits, h.bits);
        units_keep_order(w, h.bits, high.bits);
        difference_in_units(w, h.bits, low.bits);
        nearest_keeps_order(w, (units(w, h.bits) - p) as nat, (q - p) as nat, lowest(w));
        nearest_keeps_order(w, 0, (units(w, h.bits) - p) as nat, lowest(w));
        quotient_at_most_one(w, h.minus(low).bits, b.bits);
    }
}

} // verus!
