//! What operations leave as it is: opacity under those that only change colour, and
//! everything under those whose sliders are at rest.
use vstd::prelude::*;

use crate::adjust::{adjustment_keeps_opacity, tone_of};
use crate::binary::{Real, Real32};
use crate::effects::{
    as_real, band_shifts, from_byte_pixel, is_byte_effect, is_changed_in_bytes, is_cube,
    to_byte_pixel, Supply,
};
use crate::linear::{byte_to_unit, pad_to_srgb, unit_byte, LinearImage, Space, Tables};
use crate::number::ZERO;
use crate::ops::auto_levels::{are_bounds, is_leveled, measure_for, stretched_pixel, Measure};
use crate::ops::color::{is_curve, is_curved, leveled, points_of};
use crate::ops::gradient::{all_prepared, mapped_colour};
use crate::ops::hsl::{band_pixel, is_still, still_bands_change_nothing};
use crate::ops::lut::{lut_pixel, CubeLut};
use crate::ops::wb::balanced_pixel;
use crate::pipeline::is_repainted;
use crate::raster::{
    alike_by_pixels, are_alike, is_mapped, mapped_pixel, Image, Rgba, Rgba32,
};
use crate::recipe::Operation;
use crate::round_trip::bytes_come_back;

verus! {

/// An operation changes the colours of pixels, in numbers, and not their opacity.
pub open spec fn only_colours(op: Operation) -> bool {
    match op {
        Operation::Adjust { .. } | Operation::Vignette { .. } | Operation::Grain { .. }
        | Operation::GradientMap { .. } | Operation::AutoLevels { .. } => true,
        _ => false,
    }
}

/// An operation changes the colours of pixels, in bytes, and not their opacity.
pub open spec fn only_colours_in_bytes(op: Operation) -> bool {
    match op {
        Operation::Curves { .. } | Operation::Levels { .. } | Operation::Lut { .. }
        | Operation::WhiteBalance { .. } | Operation::Hsl { .. }
        | Operation::Convolve { .. } => true,
        _ => false,
    }
}

/// Operations on colours leave opacity as it is.
pub proof fn opacity_is_kept(
    op: Operation,
    supply: Supply,
    space: Space,
    tables: Tables,
    img: LinearImage,
    out: LinearImage,
    x: int,
    y: int,
)
    requires
        img.well_formed(),
        out.well_formed(),
        only_colours(op),
        is_repainted(op, supply, space, tables, img, out),
        0 <= x < img.width,
        0 <= y < img.height,
    ensures
        out.pixel(x, y).a == img.pixel(x, y).a,
{
    match op {
        Operation::Adjust { brightness, contrast, saturation, sharpness, .. } => {
            adjustment_keeps_opacity(
                img,
                tone_of(as_real(&brightness), as_real(&contrast), as_real(&saturation)),
                as_real(&sharpness),
                out,
                x,
                y,
            );
        },
        Operation::GradientMap { stops, .. } => {
            mapped_pixel(
                img,
                out,
                |p: Rgba32| mapped_colour(all_prepared(stops@), p),
                x,
                y,
            );
        },
        Operation::AutoLevels { clip_percent, per_channel, .. } => {
            stretching_keeps_opacity(img, as_real(&clip_percent), per_channel, out, x, y);
        },
        _ => {},
    }
}

proof fn stretching_keeps_opacity(
    img: LinearImage,
    clip_percent: Real,
    per_channel: bool,
    out: LinearImage,
    x: int,
    y: int,
)
    requires
        img.well_formed(),
        is_leveled(img, clip_percent, per_channel, out),
        0 <= x < img.width,
        0 <= y < img.height,
    ensures
        out.pixel(x, y).a == img.pixel(x, y).a,
{
    let (mr, mg, mb) = (
        measure_for(per_channel, Measure::Red),
        measure_for(per_channel, Measure::Green),
        measure_for(per_channel, Measure::Blue),
    );
    let (r, g, b) = choose|r: (Real32, Real32), g: (Real32, Real32), b: (Real32, Real32)|
        {
            &&& #[trigger] are_bounds(img, mr, clip_percent, r)
            &&& #[trigger] are_bounds(img, mg, clip_percent, g)
            &&& #[trigger] are_bounds(img, mb, clip_percent, b)
            &&& is_mapped(img, out, |p: Rgba32| stretched_pixel(p, r, g, b))
        };
    mapped_pixel(img, out, |p: Rgba32| stretched_pixel(p, r, g, b), x, y);
}

/// Operations on colours in bytes leave the bytes of opacity as they are.
proof fn opacity_is_kept_by_bytes(
    op: Operation,
    supply: Supply,
    a: Image<Rgba>,
    b: Image<Rgba>,
    x: int,
    y: int,
)
    requires
        a.well_formed(),
        only_colours_in_bytes(op),
        is_byte_effect(op, supply, a, b),
        0 <= x < a.width,
        0 <= y < a.height,
    ensures
        b.width == a.width,
        b.height == a.height,
        b.pixel(x, y).a == a.pixel(x, y).a,
{
    match (op, supply) {
        (Operation::Curves { master, red, green, blue, .. }, _) => {
            curves_keep_opacity(
                a,
                points_of(master),
                points_of(red),
                points_of(green),
                points_of(blue),
                b,
                x,
                y,
            );
        },
        (
            Operation::Levels { in_black, in_white, gamma, out_black, out_white, .. },
            Supply::Powers(powers),
        ) => {
            mapped_pixel(
                a,
                b,
                |p: Rgba|
                    leveled(p, in_black, in_white, as_real(&gamma), out_black, out_white, powers@),
                x,
                y,
            );
        },
        (Operation::Lut { strength, .. }, Supply::Cube { asset, .. }) => {
            let lut = choose|lut: CubeLut| #[trigger]
                is_cube(asset, lut) && is_mapped(
                    a,
                    b,
                    |p: Rgba| lut_pixel(lut, as_real(&strength), p),
                );
            mapped_pixel(a, b, |p: Rgba| lut_pixel(lut, as_real(&strength), p), x, y);
        },
        (Operation::WhiteBalance { temperature, tint, .. }, _) => {
            mapped_pixel(
                a,
                b,
                |p: Rgba| balanced_pixel(as_real(&temperature), as_real(&tint), p),
                x,
                y,
            );
        },
        (Operation::Hsl { red, orange, yellow, green, aqua, blue, purple, magenta, .. }, _) => {
            let shifts = band_shifts(red, orange, yellow, green, aqua, blue, purple, magenta);
            mapped_pixel(a, b, |p: Rgba| band_pixel(shifts, p), x, y);
        },
        _ => {},
    }
}

proof fn curves_keep_opacity(
    img: Image<Rgba>,
    master: Seq<[u8; 2]>,
    red: Seq<[u8; 2]>,
    green: Seq<[u8; 2]>,
    blue: Seq<[u8; 2]>,
    out: Image<Rgba>,
    x: int,
    y: int,
)
    requires
        img.well_formed(),
        is_curved(img, master, red, green, blue, out),
        0 <= x < img.width,
        0 <= y < img.height,
    ensures
        out.width == img.width,
        out.height == img.height,
        out.pixel(x, y).a == img.pixel(x, y).a,
{
    let (m, r, g, b) = choose|m: Seq<u8>, r: Seq<u8>, g: Seq<u8>, b: Seq<u8>|
        {
            &&& #[trigger] is_curve(master, m)
            &&& #[trigger] is_curve(red, r)
            &&& #[trigger] is_curve(green, g)
            &&& #[trigger] is_curve(blue, b)
            &&& is_mapped(
                img,
                out,
                |p: Rgba|
                    Rgba {
                        r: r[m[p.r as int] as int],
                        g: g[m[p.g as int] as int],
                        b: b[m[p.b as int] as int],
                        a: p.a,
                    },
            )
        };
    mapped_pixel(
        img,
        out,
        |p: Rgba|
            Rgba {
                r: r[m[p.r as int] as int],
                g: g[m[p.g as int] as int],
                b: b[m[p.b as int] as int],
                a: p.a,
            },
        x,
        y,
    );
}

/// Operations on colours in bytes leave opacity as it is in bytes: an opacity that a byte
/// stands for comes back to the last bit.
pub proof fn opacity_is_kept_in_bytes(
    op: Operation,
    supply: Supply,
    space: Space,
    tables: Tables,
    img: LinearImage,
    out: LinearImage,
    x: int,
    y: int,
)
    requires
        img.well_formed(),
        only_colours_in_bytes(op),
        is_changed_in_bytes(op, supply, space, tables, img, out),
        0 <= x < img.width,
        0 <= y < img.height,
    ensures
        out.pixel(x, y).a == byte_to_unit(unit_byte(img.pixel(x, y).a)),
        forall|b: u8|
            img.pixel(x, y).a == #[trigger] byte_to_unit(b) ==> out.pixel(x, y).a == img.pixel(
                x,
                y,
            ).a,
{
    let (a, b) = choose|a: Image<Rgba>, b: Image<Rgba>| #[trigger]
        is_byte_effect(op, supply, a, b) && is_mapped(
            img,
            a,
            |p: Rgba32| to_byte_pixel(space, tables, p),
        ) && is_mapped(b, out, |p: Rgba| from_byte_pixel(space, tables, p));
    mapped_pixel(img, a, |p: Rgba32| to_byte_pixel(space, tables, p), x, y);
    opacity_is_kept_by_bytes(op, supply, a, b, x, y);
    mapped_pixel(b, out, |p: Rgba| from_byte_pixel(space, tables, p), x, y);
    assert forall|b: u8| img.pixel(x, y).a == #[trigger] byte_to_unit(b) implies out.pixel(x, y).a
        == img.pixel(x, y).a by {
        bytes_come_back(b);
    }
}

/// The sliders of an operation are all at rest.
pub open spec fn is_at_rest(op: Operation) -> bool {
    let zero = Real { bits: ZERO };
    match op {
        Operation::Adjust { brightness, contrast, saturation, sharpness, .. } => {
            &&& as_real(&brightness).same(zero)
            &&& as_real(&contrast).same(zero)
            &&& as_real(&saturation).same(zero)
            &&& as_real(&sharpness).same(zero)
        },
        Operation::Vignette { strength, .. } => as_real(&strength).same(zero),
        Operation::Grain { amount, .. } => as_real(&amount).same(zero),
        _ => false,
    }
}

/// The sliders of an operation in bytes are all at rest.
pub open spec fn is_at_rest_in_bytes(op: Operation) -> bool {
    let zero = Real { bits: ZERO };
    match op {
        Operation::WhiteBalance { temperature, tint, .. } => {
            as_real(&temperature).same(zero) && as_real(&tint).same(zero)
        },
        Operation::Hsl { red, orange, yellow, green, aqua, blue, purple, magenta, .. } => {
            let shifts = band_shifts(red, orange, yellow, green, aqua, blue, purple, magenta);
            forall|i: int| 0 <= i < 8 ==> is_still(#[trigger] shifts[i])
        },
        _ => false,
    }
}

/// Operations at rest change nothing, to the last bit.
pub proof fn nothing_changes_at_rest(
    op: Operation,
    supply: Supply,
    space: Space,
    tables: Tables,
    img: LinearImage,
    out: LinearImage,
)
    requires
        img.well_formed(),
        out.well_formed(),
        is_at_rest(op),
        is_repainted(op, supply, space, tables, img, out),
    ensures
        are_alike(img, out),
{
    match op {
        Operation::Adjust { .. } => {},
        _ => {
            assert forall|x: int, y: int| 0 <= x < img.width && 0 <= y < img.height implies
                #[trigger] out.pixel(x, y) == img.pixel(x, y) by {}
            alike_by_pixels(img, out);
        },
    }
}

/// Operations in bytes that are at rest change nothing, to the last bit, where the image
/// holds encoded colours that were read from bytes.
pub proof fn nothing_changes_at_rest_in_bytes(
    op: Operation,
    supply: Supply,
    tables: Tables,
    bytes: Image<Rgba>,
    img: LinearImage,
    out: LinearImage,
)
    requires
        bytes.well_formed(),
        is_mapped(bytes, img, |p: Rgba| pad_to_srgb(p)),
        is_at_rest_in_bytes(op),
        is_changed_in_bytes(op, supply, Space::Srgb, tables, img, out),
    ensures
        are_alike(img, out),
{
    let space = Space::Srgb;
    let (a, b) = choose|a: Image<Rgba>, b: Image<Rgba>| #[trigger]
        is_byte_effect(op, supply, a, b) && is_mapped(
            img,
            a,
            |p: Rgba32| to_byte_pixel(space, tables, p),
        ) && is_mapped(b, out, |p: Rgba| from_byte_pixel(space, tables, p));
    assert forall|x: int, y: int| 0 <= x < img.width && 0 <= y < img.height implies #[trigger]
        out.pixel(x, y) == img.pixel(x, y) by {
        mapped_pixel(bytes, img, |p: Rgba| pad_to_srgb(p), x, y);
        mapped_pixel(img, a, |p: Rgba32| to_byte_pixel(space, tables, p), x, y);
        let p = bytes.pixel(x, y);
        bytes_come_back(p.r);
        bytes_come_back(p.g);
        bytes_come_back(p.b);
        bytes_come_back(p.a);
        rest_keeps_bytes(op, supply, a, b, x, y);
        mapped_pixel(b, out, |p: Rgba| from_byte_pixel(space, tables, p), x, y);
    }
    alike_by_pixels(img, out);
}

proof fn rest_keeps_bytes(
    op: Operation,
    supply: Supply,
    a: Image<Rgba>,
    b: Image<Rgba>,
    x: int,
    y: int,
)
    requires
        a.well_formed(),
        is_at_rest_in_bytes(op),
        is_byte_effect(op, supply, a, b),
        0 <= x < a.width,
        0 <= y < a.height,
    ensures
        b.width == a.width,
        b.height == a.height,
        b.pixel(x, y) == a.pixel(x, y),
{
    match op {
        Operation::WhiteBalance { temperature, tint, .. } => {
            mapped_pixel(
                a,
                b,
                |p: Rgba| balanced_pixel(as_real(&temperature), as_real(&tint), p),
                x,
                y,
            );
        },
        Operation::Hsl { red, orange, yellow, green, aqua, blue, purple, magenta, .. } => {
            let shifts = band_shifts(red, orange, yellow, green, aqua, blue, purple, magenta);
            mapped_pixel(a, b, |p: Rgba| band_pixel(shifts, p), x, y);
            still_bands_change_nothing(shifts, a.pixel(x, y));
        },
        _ => {},
    }
}

} // verus!
