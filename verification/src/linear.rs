//! The working form of an image: colours as binary32 numbers, either light or encoded,
//! and the ways into it, out of it and between the two.
use vstd::prelude::*;

use crate::binary::{Real, Real32};
use crate::exact::{is_finite32, is_zero32, one32, over_one, times_one};
use crate::number::{SHORT_BYTE_MAX, SHORT_HALF, SHORT_WORD_MAX, SHORT_ZERO};
use crate::ops::blend::in_unit;
use crate::raster::{is_mapped, map_pixels, Image, Rgba, Rgba32};

verus! {

/// An image in its working form.
pub type LinearImage = Image<Rgba32>;

/// A colour with its opacity, 16 bits each.
#[derive(Clone, Copy, Debug, PartialEq, Eq, Structural)]
pub struct Rgba16 {
    pub r: u16,
    pub g: u16,
    pub b: u16,
    pub a: u16,
}

/// What the numbers of an image in its working form mean.
#[derive(Clone, Copy, Debug, PartialEq, Eq, Structural)]
pub enum Space {
    /// Amounts of light, from 0 to 1.
    Linear,
    /// Encoded colours, from 0 to 1.
    Srgb,
}

/// The number of entries of a conversion table.
pub const CONV_LUT_LEN: usize = 4096;

/// The last entry of a conversion table, 4095.
pub const CONV_LUT_LAST: u32 = 0x457F_F000;

/// Opacity below this leaves no colour, 0.000001.
pub const ALPHA_EPSILON: u32 = 0x3586_37BD;

/// 1000000000.
pub const BILLION: u64 = 0x41CD_CD65_0000_0000;

/// The number on a grid of 1e-9 that is nearest to another.
#[verifier::allow_in_spec]
pub fn quantize_1e9(v: Real) -> Real
    returns
        v.times(Real { bits: BILLION }).round().over(Real { bits: BILLION }),
{
    let scale: Real = Real { bits: BILLION };
    v.times(scale).round().over(scale)
}

/// The number on a grid of 1e-6 that is nearest to another.
#[verifier::allow_in_spec]
pub fn quantize_1e6(v: Real) -> Real
    returns
        v.on_grid(),
{
    v.on_grid()
}

/// A number rounded to a whole one; halves go away from zero.
pub open spec fn half_away(v: Real32) -> int {
    if (Real32 { bits: SHORT_ZERO }).at_most(v) {
        v.plus(Real32 { bits: SHORT_HALF }).floor_integer() as int
    } else {
        v.minus(Real32 { bits: SHORT_HALF }).ceiling_integer() as int
    }
}

fn round_half_away_from_zero(v: Real32) -> (r: i64)
    ensures
        r == half_away(v),
{
    let zero: Real32 = Real32 { bits: SHORT_ZERO };
    if zero.at_most(v) {
        v.plus(Real32 { bits: SHORT_HALF }).floor_integer()
    } else {
        v.minus(Real32 { bits: SHORT_HALF }).ceiling_integer()
    }
}

/// A whole number, or the end of the range from 0 to `top` that it is beyond.
pub open spec fn up_to(n: int, top: int) -> int {
    if n < 0 {
        0
    } else if n > top {
        top
    } else {
        n
    }
}

/// A number from 0 to 1 as a byte.
pub open spec fn unit_byte(v: Real32) -> u8 {
    up_to(half_away(in_unit(v).times(Real32 { bits: SHORT_BYTE_MAX })), 255) as u8
}

/// A number from 0 to 1 as a byte.
pub fn unit_to_u8(v: Real32) -> (r: u8)
    ensures
        r == unit_byte(v),
{
    let n: i64 = round_half_away_from_zero(in_unit(v).times(Real32 { bits: SHORT_BYTE_MAX }));
    if n < 0 {
        0
    } else if n > 255 {
        255
    } else {
        n as u8
    }
}

/// A number from 0 to 1 in 16 bits.
pub open spec fn unit_word(v: Real32) -> u16 {
    up_to(half_away(in_unit(v).times(Real32 { bits: SHORT_WORD_MAX })), 65535) as u16
}

/// A number from 0 to 1 in 16 bits.
pub fn unit_to_u16(v: Real32) -> (r: u16)
    ensures
        r == unit_word(v),
{
    let n: i64 = round_half_away_from_zero(in_unit(v).times(Real32 { bits: SHORT_WORD_MAX }));
    if n < 0 {
        0
    } else if n > 65535 {
        65535
    } else {
        n as u16
    }
}

// The transfer functions of the encoding. Each is a line near zero and a power beyond;
// the powers are given.

/// The end of the line for encoded colours, 0.04045.
pub const EOTF_KNEE: u64 = 0x3FA4_B5DC_C63F_1412;

/// The end of the line for light, 0.0031308.
pub const OETF_KNEE: u64 = 0x3F69_A5C3_7387_B719;

/// The slope of the line, 12.92.
pub const SLOPE: u64 = 0x4029_D70A_3D70_A3D7;

/// 0.055.
pub const OFFSET: u64 = 0x3FAC_28F5_C28F_5C29;

/// 1.055.
pub const SCALE: u64 = 0x3FF0_E147_AE14_7AE1;

/// The number whose power 2.4 is the light of an encoded colour.
#[verifier::allow_in_spec]
pub fn eotf_base(c: Real) -> Real
    returns
        c.plus(Real { bits: OFFSET }).over(Real { bits: SCALE }),
{
    c.plus(Real { bits: OFFSET }).over(Real { bits: SCALE })
}

/// The light of an encoded colour, where `power` is `eotf_base(c)` to the power 2.4.
#[verifier::allow_in_spec]
pub fn srgb_eotf(c: Real, power: Real) -> Real
    returns
        (if c.at_most(Real { bits: EOTF_KNEE }) {
            c.over(Real { bits: SLOPE })
        } else {
            power
        }),
{
    if c.at_most(Real { bits: EOTF_KNEE }) {
        c.over(Real { bits: SLOPE })
    } else {
        power
    }
}

/// The encoded colour of light, where `power` is the light to the power 1 / 2.4.
#[verifier::allow_in_spec]
pub fn srgb_oetf(light: Real, power: Real) -> Real
    returns
        (if light.at_most(Real { bits: OETF_KNEE }) {
            light.times(Real { bits: SLOPE })
        } else {
            (Real { bits: SCALE }).times(power).minus(Real { bits: OFFSET })
        }),
{
    if light.at_most(Real { bits: OETF_KNEE }) {
        light.times(Real { bits: SLOPE })
    } else {
        let scale: Real = Real { bits: SCALE };
        scale.times(power).minus(Real { bits: OFFSET })
    }
}

/// Step `i` of `last` steps from 0 to 1.
#[verifier::allow_in_spec]
pub fn table_step(i: u32, last: u32) -> Real
    returns
        Real::nearest_to(i as int).over(Real::nearest_to(last as int)),
{
    Real::from_integer(i as i64).over(Real::from_integer(last as i64))
}

/// An entry of a table of light: the powers of its steps are given.
#[verifier::allow_in_spec]
pub fn eotf_entry(i: u32, last: u32, power: Real) -> Real32
    returns
        quantize_1e9(srgb_eotf(table_step(i, last), power)).narrowed(),
{
    quantize_1e9(srgb_eotf(table_step(i, last), power)).narrowed()
}

/// An entry of a table of encoded colours: the powers of its steps are given.
#[verifier::allow_in_spec]
pub fn oetf_entry(i: u32, last: u32, power: Real) -> Real32
    returns
        quantize_1e9(srgb_oetf(table_step(i, last), power)).narrowed(),
{
    quantize_1e9(srgb_oetf(table_step(i, last), power)).narrowed()
}

/// The table of the light of evenly spaced encoded colours: the power 2.4 of `eotf_base`
/// of each step is given.
pub fn light_table(powers: &Vec<Real>) -> (r: Vec<Real32>)
    requires
        2 <= powers@.len() <= 65536,
    ensures
        r@.len() == powers@.len(),
        forall|i: int|
            0 <= i < powers@.len() ==> r@[i] == eotf_entry(
                i as u32,
                (powers@.len() - 1) as u32,
                #[trigger] powers@[i],
            ),
{
    let last: u32 = (powers.len() - 1) as u32;
    let mut r: Vec<Real32> = Vec::new();
    for i in 0..powers.len()
        invariant
            2 <= powers@.len() <= 65536,
            last == powers@.len() - 1,
            r@.len() == i,
            forall|k: int|
                0 <= k < i ==> r@[k] == eotf_entry(k as u32, last, #[trigger] powers@[k]),
    {
        r.push(eotf_entry(i as u32, last, powers[i]));
    }
    r
}

/// The table of the encoded colours of evenly spaced light: the power 1 / 2.4 of each
/// step is given.
pub fn code_table(powers: &Vec<Real>) -> (r: Vec<Real32>)
    requires
        2 <= powers@.len() <= 65536,
    ensures
        r@.len() == powers@.len(),
        forall|i: int|
            0 <= i < powers@.len() ==> r@[i] == oetf_entry(
                i as u32,
                (powers@.len() - 1) as u32,
                #[trigger] powers@[i],
            ),
{
    let last: u32 = (powers.len() - 1) as u32;
    let mut r: Vec<Real32> = Vec::new();
    for i in 0..powers.len()
        invariant
            2 <= powers@.len() <= 65536,
            last == powers@.len() - 1,
            r@.len() == i,
            forall|k: int|
                0 <= k < i ==> r@[k] == oetf_entry(k as u32, last, #[trigger] powers@[k]),
    {
        r.push(oetf_entry(i as u32, last, powers[i]));
    }
    r
}

/// The tables that convert between light and encoded colours.
pub struct Tables {
    /// The light of each byte.
    pub eotf_u8: Vec<Real32>,
    /// The light of each 16-bit number.
    pub eotf_u16: Vec<Real32>,
    /// The light of evenly spaced encoded colours.
    pub eotf: Vec<Real32>,
    /// The encoded colours of evenly spaced light.
    pub oetf: Vec<Real32>,
}

impl Tables {
    /// Each table has its length.
    pub open spec fn well_formed(&self) -> bool {
        &&& self.eotf_u8@.len() == 256
        &&& self.eotf_u16@.len() == 65536
        &&& self.eotf@.len() == CONV_LUT_LEN
        &&& self.oetf@.len() == CONV_LUT_LEN
    }
}

/// A conversion table read at a number from 0 to 1: a straight line between entries.
pub open spec fn table_at(lut: Seq<Real32>, v: Real32) -> Real32 {
    let pos = in_unit(v).times(Real32 { bits: CONV_LUT_LAST });
    let floor = pos.floor();
    let i = floor.floor_integer();
    if i >= CONV_LUT_LEN - 1 {
        lut[CONV_LUT_LEN - 1]
    } else {
        let k = if i < 0 {
            0
        } else {
            i as int
        };
        lut[k].plus(lut[k + 1].minus(lut[k]).times(pos.minus(floor)))
    }
}

/// Reads a conversion table.
pub fn sample_conv_lut(lut: &Vec<Real32>, v: Real32) -> (r: Real32)
    requires
        lut@.len() == CONV_LUT_LEN,
    ensures
        r == table_at(lut@, v),
{
    let pos: Real32 = in_unit(v).times(Real32 { bits: CONV_LUT_LAST });
    let floor: Real32 = pos.floor();
    let i: i64 = floor.floor_integer();
    if i >= 4095 {
        return lut[4095];
    }
    let k: usize = if i < 0 {
        0
    } else {
        i as usize
    };
    let frac: Real32 = pos.minus(floor);
    let a: Real32 = lut[k];
    let b: Real32 = lut[k + 1];
    a.plus(b.minus(a).times(frac))
}

/// A colour with the light of its encoding. Opacity stays.
pub open spec fn lit(eotf: Seq<Real32>, p: Rgba32) -> Rgba32 {
    Rgba32 { r: table_at(eotf, p.r), g: table_at(eotf, p.g), b: table_at(eotf, p.b), a: p.a }
}

/// Turns encoded colours into light, and light into encoded colours, each by its table.
pub fn convert_in_place(img: &LinearImage, table: &Vec<Real32>) -> (r: LinearImage)
    requires
        img.well_formed(),
        table@.len() == CONV_LUT_LEN,
    ensures
        is_mapped(*img, r, |p: Rgba32| lit(table@, p)),
{
    let f = |p: Rgba32| -> (q: Rgba32)
        requires
            table@.len() == CONV_LUT_LEN,
        ensures
            q == lit(table@, p),
        {
            Rgba32 {
                r: sample_conv_lut(table, p.r),
                g: sample_conv_lut(table, p.g),
                b: sample_conv_lut(table, p.b),
                a: p.a,
            }
        };
    map_pixels(img, f, Ghost(|p: Rgba32| lit(table@, p)))
}

/// A colour times its opacity.
pub open spec fn premultiplied_pixel(p: Rgba32) -> Rgba32 {
    Rgba32 { r: p.r.times(p.a), g: p.g.times(p.a), b: p.b.times(p.a), a: p.a }
}

/// An image with its colours times their opacity.
pub fn premultiplied(img: &LinearImage) -> (r: LinearImage)
    requires
        img.well_formed(),
    ensures
        is_mapped(*img, r, |p: Rgba32| premultiplied_pixel(p)),
{
    let f = |p: Rgba32| -> (q: Rgba32)
        ensures
            q == premultiplied_pixel(p),
        { Rgba32 { r: p.r.times(p.a), g: p.g.times(p.a), b: p.b.times(p.a), a: p.a } };
    map_pixels(img, f, Ghost(|p: Rgba32| premultiplied_pixel(p)))
}

/// A colour over its opacity, all from 0 to 1; with next to no opacity there is no
/// colour.
pub open spec fn unpremultiplied_pixel(p: Rgba32) -> Rgba32 {
    let a = in_unit(p.a);
    let zero = Real32 { bits: SHORT_ZERO };
    if a.below(Real32 { bits: ALPHA_EPSILON }) {
        Rgba32 { r: zero, g: zero, b: zero, a }
    } else {
        Rgba32 {
            r: in_unit(p.r.over(a)),
            g: in_unit(p.g.over(a)),
            b: in_unit(p.b.over(a)),
            a,
        }
    }
}

fn divide_by_opacity(p: Rgba32) -> (q: Rgba32)
    ensures
        q == unpremultiplied_pixel(p),
{
    let a: Real32 = in_unit(p.a);
    let zero: Real32 = Real32 { bits: SHORT_ZERO };
    if a.below(Real32 { bits: ALPHA_EPSILON }) {
        Rgba32 { r: zero, g: zero, b: zero, a }
    } else {
        Rgba32 {
            r: in_unit(p.r.over(a)),
            g: in_unit(p.g.over(a)),
            b: in_unit(p.b.over(a)),
            a,
        }
    }
}

/// An image with its colours over their opacity.
pub fn unpremultiply(img: &LinearImage) -> (r: LinearImage)
    requires
        img.well_formed(),
    ensures
        is_mapped(*img, r, |p: Rgba32| unpremultiplied_pixel(p)),
{
    let f = |p: Rgba32| -> (q: Rgba32)
        ensures
            q == unpremultiplied_pixel(p),
        { divide_by_opacity(p) };
    map_pixels(img, f, Ghost(|p: Rgba32| unpremultiplied_pixel(p)))
}

/// A byte as a number from 0 to 1.
#[verifier::allow_in_spec]
pub fn byte_to_unit(b: u8) -> Real32
    returns
        Real32::nearest_to(b as int).over(Real32 { bits: SHORT_BYTE_MAX }),
{
    Real32::from_integer(b as i64).over(Real32 { bits: SHORT_BYTE_MAX })
}

/// A 16-bit number as one from 0 to 1.
#[verifier::allow_in_spec]
pub fn word_to_unit(w: u16) -> Real32
    returns
        Real32::nearest_to(w as int).over(Real32 { bits: SHORT_WORD_MAX }),
{
    Real32::from_integer(w as i64).over(Real32 { bits: SHORT_WORD_MAX })
}

/// A colour in bytes as an encoded colour.
#[verifier::allow_in_spec]
pub fn pad_to_srgb(p: Rgba) -> Rgba32
    returns
        (Rgba32 {
            r: byte_to_unit(p.r),
            g: byte_to_unit(p.g),
            b: byte_to_unit(p.b),
            a: byte_to_unit(p.a),
        }),
{
    Rgba32 {
        r: byte_to_unit(p.r),
        g: byte_to_unit(p.g),
        b: byte_to_unit(p.b),
        a: byte_to_unit(p.a),
    }
}

/// The light of a colour in bytes.
pub open spec fn byte_light(eotf_u8: Seq<Real32>, p: Rgba) -> Rgba32 {
    Rgba32 {
        r: eotf_u8[p.r as int],
        g: eotf_u8[p.g as int],
        b: eotf_u8[p.b as int],
        a: byte_to_unit(p.a),
    }
}

/// The light of a colour in bytes.
pub fn pad_to_linear(tables: &Tables, p: Rgba) -> (r: Rgba32)
    requires
        tables.well_formed(),
    ensures
        r == byte_light(tables.eotf_u8@, p),
{
    Rgba32 {
        r: tables.eotf_u8[p.r as usize],
        g: tables.eotf_u8[p.g as usize],
        b: tables.eotf_u8[p.b as usize],
        a: byte_to_unit(p.a),
    }
}

/// An image in bytes as encoded colours.
pub fn from_rgba8_srgb(img: &Image<Rgba>) -> (r: LinearImage)
    requires
        img.well_formed(),
    ensures
        is_mapped(*img, r, |p: Rgba| pad_to_srgb(p)),
{
    let f = |p: Rgba| -> (q: Rgba32)
        ensures
            q == pad_to_srgb(p),
        { pad_to_srgb(p) };
    map_pixels(img, f, Ghost(|p: Rgba| pad_to_srgb(p)))
}

/// A colour in 16 bits as an encoded colour.
#[verifier::allow_in_spec]
pub fn word_to_srgb(p: Rgba16) -> Rgba32
    returns
        (Rgba32 {
            r: word_to_unit(p.r),
            g: word_to_unit(p.g),
            b: word_to_unit(p.b),
            a: word_to_unit(p.a),
        }),
{
    Rgba32 {
        r: word_to_unit(p.r),
        g: word_to_unit(p.g),
        b: word_to_unit(p.b),
        a: word_to_unit(p.a),
    }
}

/// An image in 16 bits as encoded colours.
pub fn from_rgba16_srgb(img: &Image<Rgba16>) -> (r: LinearImage)
    requires
        img.well_formed(),
    ensures
        is_mapped(*img, r, |p: Rgba16| word_to_srgb(p)),
{
    let f = |p: Rgba16| -> (q: Rgba32)
        ensures
            q == word_to_srgb(p),
        { word_to_srgb(p) };
    map_pixels(img, f, Ghost(|p: Rgba16| word_to_srgb(p)))
}

/// An image in bytes as light.
pub fn from_rgba8(img: &Image<Rgba>, tables: &Tables) -> (r: LinearImage)
    requires
        img.well_formed(),
        tables.well_formed(),
    ensures
        is_mapped(*img, r, |p: Rgba| byte_light(tables.eotf_u8@, p)),
{
    let f = |p: Rgba| -> (q: Rgba32)
        requires
            tables.well_formed(),
        ensures
            q == byte_light(tables.eotf_u8@, p),
        { pad_to_linear(tables, p) };
    map_pixels(img, f, Ghost(|p: Rgba| byte_light(tables.eotf_u8@, p)))
}

/// The light of a colour in 16 bits.
pub open spec fn word_light(eotf_u16: Seq<Real32>, p: Rgba16) -> Rgba32 {
    Rgba32 {
        r: eotf_u16[p.r as int],
        g: eotf_u16[p.g as int],
        b: eotf_u16[p.b as int],
        a: word_to_unit(p.a),
    }
}

/// An image in 16 bits as light.
pub fn from_rgba16(img: &Image<Rgba16>, tables: &Tables) -> (r: LinearImage)
    requires
        img.well_formed(),
        tables.well_formed(),
    ensures
        is_mapped(*img, r, |p: Rgba16| word_light(tables.eotf_u16@, p)),
{
    let f = |p: Rgba16| -> (q: Rgba32)
        requires
            tables.well_formed(),
        ensures
            q == word_light(tables.eotf_u16@, p),
        {
            Rgba32 {
                r: tables.eotf_u16[p.r as usize],
                g: tables.eotf_u16[p.g as usize],
                b: tables.eotf_u16[p.b as usize],
                a: word_to_unit(p.a),
            }
        };
    map_pixels(img, f, Ghost(|p: Rgba16| word_light(tables.eotf_u16@, p)))
}

/// An encoded colour in bytes.
pub open spec fn byte_pixel(p: Rgba32) -> Rgba {
    Rgba { r: unit_byte(p.r), g: unit_byte(p.g), b: unit_byte(p.b), a: unit_byte(p.a) }
}

/// `bytes` are the colours of an image in bytes.
pub open spec fn in_bytes(img: LinearImage, bytes: Image<Rgba>) -> bool {
    is_mapped(img, bytes, |p: Rgba32| byte_pixel(p))
}

/// Encoded colours in bytes.
pub fn encoded_to_rgba8(img: &LinearImage) -> (r: Image<Rgba>)
    requires
        img.well_formed(),
    ensures
        in_bytes(*img, r),
{
    let f = |p: Rgba32| -> (q: Rgba)
        ensures
            q == byte_pixel(p),
        {
            Rgba {
                r: unit_to_u8(p.r),
                g: unit_to_u8(p.g),
                b: unit_to_u8(p.b),
                a: unit_to_u8(p.a),
            }
        };
    map_pixels(img, f, Ghost(|p: Rgba32| byte_pixel(p)))
}

/// An encoded colour in 16 bits.
pub open spec fn word_pixel(p: Rgba32) -> Rgba16 {
    Rgba16 { r: unit_word(p.r), g: unit_word(p.g), b: unit_word(p.b), a: unit_word(p.a) }
}

/// Encoded colours in 16 bits.
pub fn encoded_to_rgba16(img: &LinearImage) -> (r: Image<Rgba16>)
    requires
        img.well_formed(),
    ensures
        is_mapped(*img, r, |p: Rgba32| word_pixel(p)),
{
    let f = |p: Rgba32| -> (q: Rgba16)
        ensures
            q == word_pixel(p),
        {
            Rgba16 {
                r: unit_to_u16(p.r),
                g: unit_to_u16(p.g),
                b: unit_to_u16(p.b),
                a: unit_to_u16(p.a),
            }
        };
    map_pixels(img, f, Ghost(|p: Rgba32| word_pixel(p)))
}

/// Encoded colours as they are wanted: nothing happens where they are so already.
pub fn ensure_space(img: LinearImage, space: Space, target: Space, tables: &Tables) -> (r:
    LinearImage)
    requires
        img.well_formed(),
        tables.well_formed(),
    ensures
        r.well_formed(),
        space == target ==> r == img,
        space != target && target == Space::Srgb ==> is_mapped(
            img,
            r,
            |p: Rgba32| lit(tables.oetf@, p),
        ),
        space != target && target == Space::Linear ==> is_mapped(
            img,
            r,
            |p: Rgba32| lit(tables.eotf@, p),
        ),
{
    match (space, target) {
        (Space::Linear, Space::Srgb) => convert_in_place(&img, &tables.oetf),
        (Space::Srgb, Space::Linear) => convert_in_place(&img, &tables.eotf),
        _ => img,
    }
}

/// A number from 0 to 1.
pub open spec fn is_unit(v: Real32) -> bool {
    is_finite32(v) && in_unit(v) == v
}

/// Opaque colours stay as they are when they are multiplied by their opacity, and when
/// they are divided by it again.
pub proof fn opaque_colours_come_back(p: Rgba32)
    requires
        p.a == one32(),
        is_unit(p.r) && is_unit(p.g) && is_unit(p.b),
    ensures
        premultiplied_pixel(p) == p,
        unpremultiplied_pixel(p) == p,
{
    times_one(p.r);
    times_one(p.g);
    times_one(p.b);
    over_one(p.r);
    over_one(p.g);
    over_one(p.b);
}

/// What is clear has no colour once it is divided by its opacity.
pub proof fn clear_pixels_lose_their_colour(p: Rgba32)
    requires
        is_zero32(p.a),
    ensures
        ({
            let q = unpremultiplied_pixel(p);
            let zero = Real32 { bits: SHORT_ZERO };
            q.r == zero && q.g == zero && q.b == zero && is_zero32(q.a)
        }),
{
}

} // verus!
