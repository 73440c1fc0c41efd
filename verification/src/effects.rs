//! What an operation does to the pixels of an image in its working form.
//!
//! Some operations are defined on bytes: the encoded colours are put into bytes, changed
//! there and put back. What an operation needs from outside, such as exponentials, assets or
//! interpolated images, is given to it as a `Supply`.
use vstd::prelude::*;

use crate::binary::Real;
use crate::error::{fault_text, AtxError};
use crate::linear::{
    byte_light, byte_pixel, byte_to_unit, lit, pad_to_srgb, sample_conv_lut, unit_to_u8,
    LinearImage, Space, Tables,
};
use crate::number::Number;
use crate::ops::blur::{
    around, blur_pixel, gaussian_blur, gaussian_kernel, grid_sum, is_median, kernel_radius,
    kernel_reach, median, sharper_pixel, unsharp_mask, Kernel,
};
use crate::ops::color::{
    ascending, color_matrix, curves, is_curved, leveled, levels, matrix_pixel, points_of,
};
use crate::ops::convolve::convolved;
use crate::ops::hsl::{band_pixel, read_shift, shift_of, Shift};
use crate::ops::lut::{cube_error, cube_of, holds, lut_pixel, parse_cube, report_text, CubeLut};
use crate::ops::wb::balanced_pixel;
use crate::raster::{channel, is_mapped, map_pixels, Image, Rgba, Rgba32};
use crate::recipe::{HslShift, Operation};
use crate::resize::Sines;
use crate::rotate::Swing;
use crate::text::{cat3, decode_text};
use vstd::utf8::{decode_utf8, valid_utf8};

verus! {

/// What an operation needs from outside.
pub enum Supply {
    Nothing,
    /// The sines and cosines of a rotation, and the image, times opacity, as it was turned.
    Rotation { swing: Swing, warped: LinearImage },
    /// The sines of the windows of a change of size, across and down.
    Sines { across: Vec<Vec<Sines>>, down: Vec<Vec<Sines>> },
    /// The tangents of the keystone angles, and the image, times opacity, as it was mapped;
    /// none where the interpolation could not turn the mapping round.
    Perspective { tan_v: Real, tan_h: Real, warped: Option<LinearImage> },
    /// The exponentials of the exponents of a blur's kernel.
    Exponentials(Vec<Real>),
    /// The powers of the inputs of levels.
    Powers(Vec<Real>),
    /// What the asset of a lookup table gave, and the two numbers of its fault as texts.
    Cube { asset: Result<Vec<u8>, AtxError>, first: String, second: String },
    /// What the asset of a drawing and those of its fonts gave, and what was rendered. Fonts
    /// are there where text is to be drawn: the bundled font and then the assets.
    Drawing {
        asset: Result<Vec<u8>, AtxError>,
        fonts: Result<Option<Vec<Vec<u8>>>, AtxError>,
        rendered: Option<Vec<u8>>,
    },
}

/// A number of a recipe as a real.
#[verifier::allow_in_spec]
pub fn as_real(n: &Number) -> Real
    returns
        (Real { bits: n.bits }),
{
    Real { bits: n.bits }
}

/// Numbers of a recipe as reals.
pub open spec fn reals(v: Seq<Number>) -> Seq<Real> {
    Seq::new(v.len(), |i: int| Real { bits: v[i].bits })
}

fn to_reals(v: &Vec<Number>) -> (r: Vec<Real>)
    ensures
        r@ == reals(v@),
{
    let mut r: Vec<Real> = Vec::new();
    let mut i: usize = 0;
    while i < v.len()
        invariant
            i <= v@.len(),
            r@ == reals(v@).take(i as int),
        decreases v.len() - i,
    {
        r.push(Real { bits: v[i].bits });
        i = i + 1;
        assert(r@ =~= reals(v@).take(i as int));
    }
    assert(r@ =~= reals(v@));
    r
}

// Into bytes and back.

/// A pixel of a working space in bytes.
pub open spec fn to_byte_pixel(space: Space, tables: Tables, p: Rgba32) -> Rgba {
    match space {
        Space::Srgb => byte_pixel(p),
        Space::Linear => byte_pixel(lit(tables.oetf@, p)),
    }
}

/// A pixel in bytes back in a working space.
pub open spec fn from_byte_pixel(space: Space, tables: Tables, p: Rgba) -> Rgba32 {
    match space {
        Space::Srgb => pad_to_srgb(p),
        Space::Linear => byte_light(tables.eotf_u8@, p),
    }
}

/// Puts an image of a working space into bytes.
pub fn into_bytes(img: &LinearImage, space: Space, tables: &Tables) -> (r: Image<Rgba>)
    requires
        img.well_formed(),
        tables.well_formed(),
    ensures
        is_mapped(*img, r, |p: Rgba32| to_byte_pixel(space, *tables, p)),
{
    let f = |p: Rgba32| -> (q: Rgba)
        requires
            tables.well_formed(),
        ensures
            q == to_byte_pixel(space, *tables, p),
        {
            match space {
                Space::Srgb => Rgba {
                    r: unit_to_u8(p.r),
                    g: unit_to_u8(p.g),
                    b: unit_to_u8(p.b),
                    a: unit_to_u8(p.a),
                },
                Space::Linear => Rgba {
                    r: unit_to_u8(sample_conv_lut(&tables.oetf, p.r)),
                    g: unit_to_u8(sample_conv_lut(&tables.oetf, p.g)),
                    b: unit_to_u8(sample_conv_lut(&tables.oetf, p.b)),
                    a: unit_to_u8(p.a),
                },
            }
        };
    map_pixels(img, f, Ghost(|p: Rgba32| to_byte_pixel(space, *tables, p)))
}

/// Puts bytes back into a working space.
pub fn out_of_bytes(img: &Image<Rgba>, space: Space, tables: &Tables) -> (r: LinearImage)
    requires
        img.well_formed(),
        tables.well_formed(),
    ensures
        is_mapped(*img, r, |p: Rgba| from_byte_pixel(space, *tables, p)),
{
    let f = |p: Rgba| -> (q: Rgba32)
        requires
            tables.well_formed(),
        ensures
            q == from_byte_pixel(space, *tables, p),
        {
            match space {
                Space::Srgb => pad_to_srgb(p),
                Space::Linear => Rgba32 {
                    r: tables.eotf_u8[p.r as usize],
                    g: tables.eotf_u8[p.g as usize],
                    b: tables.eotf_u8[p.b as usize],
                    a: byte_to_unit(p.a),
                },
            }
        };
    map_pixels(img, f, Ghost(|p: Rgba| from_byte_pixel(space, *tables, p)))
}

// The effects on bytes.

/// The kernel of a blur from the exponentials of its exponents.
pub open spec fn is_kernel(sigma: Real, raw: Seq<Real>, kernel: Kernel) -> bool {
    &&& kernel.radius == kernel_reach(sigma)
    &&& kernel.weights@ == Seq::new(
        raw.len(),
        |k: int| raw[k].on_grid().over(grid_sum(raw, raw.len())),
    )
}

/// Makes the kernel of a blur.
pub fn make_kernel(sigma: Real, raw: &Vec<Real>) -> (r: Kernel)
    requires
        raw@.len() == 2 * kernel_reach(sigma) + 1,
    ensures
        r.well_formed(),
        is_kernel(sigma, raw@, r),
{
    let r: Kernel = gaussian_kernel(kernel_radius(sigma), raw);
    assert(r.weights@ =~= Seq::new(
        raw@.len(),
        |k: int| raw@[k].on_grid().over(grid_sum(raw@, raw@.len())),
    ));
    r
}

/// Every pixel is blurred.
pub open spec fn is_blurred(a: Image<Rgba>, kernel: Kernel, b: Image<Rgba>) -> bool {
    &&& b.well_formed() && b.width == a.width && b.height == a.height
    &&& forall|x: int, y: int|
        0 <= x < a.width && 0 <= y < a.height ==> #[trigger] b.pixel(x, y) == blur_pixel(
            a,
            kernel,
            x,
            y,
        )
}

/// Every pixel is moved away from its blur.
pub open spec fn is_sharpened(
    a: Image<Rgba>,
    kernel: Kernel,
    amount: Real,
    threshold: u8,
    b: Image<Rgba>,
) -> bool {
    &&& b.well_formed() && b.width == a.width && b.height == a.height
    &&& forall|x: int, y: int|
        0 <= x < a.width && 0 <= y < a.height ==> #[trigger] b.pixel(x, y) == sharper_pixel(
            a.pixel(x, y),
            blur_pixel(a, kernel, x, y),
            amount,
            threshold,
        )
}

/// Every channel of every pixel is the median of what is around it.
pub open spec fn is_filtered(a: Image<Rgba>, radius: u32, b: Image<Rgba>) -> bool {
    &&& b.well_formed() && b.width == a.width && b.height == a.height
    &&& forall|x: int, y: int, c: u8|
        #![trigger channel(b.pixel(x, y), c)]
        0 <= x < a.width && 0 <= y < a.height && c < 4 ==> is_median(
            around(a, c, x, y),
            radius as int,
            channel(b.pixel(x, y), c) as int,
        )
}

/// Every pixel is convolved.
pub open spec fn is_convolved(
    a: Image<Rgba>,
    kernel: Seq<Real>,
    size: u32,
    divisor: Real,
    offset: Real,
    b: Image<Rgba>,
) -> bool {
    &&& b.well_formed() && b.width == a.width && b.height == a.height
    &&& forall|x: int, y: int|
        0 <= x < a.width && 0 <= y < a.height ==> #[trigger] b.pixel(x, y) == convolved(
            a,
            kernel,
            size as int,
            divisor,
            offset,
            x,
            y,
        )
}

/// The sliders of the bands, from red to magenta.
pub open spec fn band_shifts(
    red: Option<HslShift>,
    orange: Option<HslShift>,
    yellow: Option<HslShift>,
    green: Option<HslShift>,
    aqua: Option<HslShift>,
    blue: Option<HslShift>,
    purple: Option<HslShift>,
    magenta: Option<HslShift>,
) -> Seq<Shift> {
    seq![
        shift_of(red),
        shift_of(orange),
        shift_of(yellow),
        shift_of(green),
        shift_of(aqua),
        shift_of(blue),
        shift_of(purple),
        shift_of(magenta),
    ]
}

/// Why a lookup table cannot be used; `first` and `second` are the numbers of its fault.
pub open spec fn cube_fault(
    id: Seq<char>,
    asset: Result<Vec<u8>, AtxError>,
    first: Seq<char>,
    second: Seq<char>,
) -> Option<Seq<char>> {
    match asset {
        Err(e) => Some(fault_text(e@)),
        Ok(bytes) => if !valid_utf8(bytes@) {
            Some("asset "@ + id + " is not a text .cube file"@)
        } else {
            match cube_of(decode_utf8(bytes@)) {
                Ok(_) => None,
                Err(report) => Some(
                    fault_text(
                        crate::error::Fault::InvalidRecipe(report_text(report, first, second)),
                    ),
                ),
            }
        },
    }
}

/// A lookup table holds what its asset says.
pub open spec fn is_cube(asset: Result<Vec<u8>, AtxError>, lut: CubeLut) -> bool {
    asset matches Ok(bytes) && cube_of(decode_utf8(bytes@)) matches Ok(at) && holds(lut, at)
}

/// Reads a lookup table.
pub fn read_cube(id: &str, asset: &Result<Vec<u8>, AtxError>, first: &str, second: &str) -> (r:
    Result<CubeLut, String>)
    ensures
        match r {
            Ok(lut) => {
                &&& cube_fault(id@, *asset, first@, second@) is None
                &&& lut.well_formed()
                &&& is_cube(*asset, lut)
            },
            Err(m) => cube_fault(id@, *asset, first@, second@) == Some(m@),
        },
{
    let bytes: &Vec<u8> = match asset {
        Ok(b) => b,
        Err(e) => {
            return Err(e.message());
        },
    };
    let text: String = match decode_text(bytes.as_slice()) {
        Some(t) => t,
        None => {
            return Err(cat3("asset ", id, " is not a text .cube file"));
        },
    };
    match parse_cube(text.as_str()) {
        Ok(lut) => Ok(lut),
        Err(fault) => Err(cube_error(&fault, first, second).message()),
    }
}

/// What an operation that is defined on bytes does.
pub open spec fn is_byte_effect(
    op: Operation,
    supply: Supply,
    a: Image<Rgba>,
    b: Image<Rgba>,
) -> bool {
    match (op, supply) {
        (Operation::ColorMatrix { matrix, .. }, _) => is_mapped(
            a,
            b,
            |p: Rgba| matrix_pixel(reals(matrix@), p),
        ),
        (Operation::Curves { master, red, green, blue, .. }, _) => is_curved(
            a,
            points_of(master),
            points_of(red),
            points_of(green),
            points_of(blue),
            b,
        ),
        (
            Operation::Levels { in_black, in_white, gamma, out_black, out_white, .. },
            Supply::Powers(powers),
        ) => is_mapped(
            a,
            b,
            |p: Rgba|
                leveled(p, in_black, in_white, as_real(&gamma), out_black, out_white, powers@),
        ),
        (Operation::Blur { sigma, .. }, Supply::Exponentials(raw)) => exists|k: Kernel| #[trigger]
            is_kernel(as_real(&sigma), raw@, k) && is_blurred(a, k, b),
        (Operation::Median { radius, .. }, _) => is_filtered(a, radius, b),
        (
            Operation::UnsharpMask { amount, radius, threshold, .. },
            Supply::Exponentials(raw),
        ) => exists|k: Kernel| #[trigger]
            is_kernel(as_real(&radius), raw@, k) && is_sharpened(a, k, as_real(&amount), threshold, b),
        (Operation::Lut { strength, .. }, Supply::Cube { asset, .. }) => exists|lut: CubeLut|
         #[trigger]
            is_cube(asset, lut) && is_mapped(a, b, |p: Rgba| lut_pixel(lut, as_real(&strength), p)),
        (Operation::WhiteBalance { temperature, tint, .. }, _) => is_mapped(
            a,
            b,
            |p: Rgba| balanced_pixel(as_real(&temperature), as_real(&tint), p),
        ),
        (
            Operation::Hsl { red, orange, yellow, green, aqua, blue, purple, magenta, .. },
            _,
        ) => is_mapped(
            a,
            b,
            |p: Rgba|
                band_pixel(
                    band_shifts(red, orange, yellow, green, aqua, blue, purple, magenta),
                    p,
                ),
        ),
        (Operation::Convolve { kernel, size, divisor, offset, .. }, _) => is_convolved(
            a,
            reals(kernel@),
            size,
            as_real(&divisor),
            as_real(&offset),
            b,
        ),
        _ => false,
    }
}

/// An operation is defined on bytes.
pub open spec fn is_on_bytes(op: Operation) -> bool {
    match op {
        Operation::ColorMatrix { .. } | Operation::Curves { .. } | Operation::Levels { .. }
        | Operation::Blur { .. } | Operation::Median { .. } | Operation::UnsharpMask { .. }
        | Operation::Lut { .. } | Operation::WhiteBalance { .. } | Operation::Hsl { .. }
        | Operation::Convolve { .. } => true,
        _ => false,
    }
}

/// The parameters of an operation that is defined on bytes are such as its check lets
/// through.
pub open spec fn is_ready_on_bytes(op: Operation) -> bool {
    match op {
        Operation::Curves { master, red, green, blue, .. } => {
            &&& ascending(points_of(master))
            &&& ascending(points_of(red))
            &&& ascending(points_of(green))
            &&& ascending(points_of(blue))
        },
        Operation::Median { radius, .. } => radius <= 16,
        Operation::Convolve { kernel, size, .. } => size <= 0xFFFF && size % 2 == 1
            && kernel@.len() == size * size,
        _ => true,
    }
}

/// An operation that is defined on bytes has been given what it needs.
pub open spec fn is_supplied_on_bytes(op: Operation, supply: Supply) -> bool {
    match op {
        Operation::Levels { .. } => supply matches Supply::Powers(p) && p@.len() == 256,
        Operation::Blur { sigma, .. } => supply matches Supply::Exponentials(raw) && raw@.len() == 2
            * kernel_reach(as_real(&sigma)) + 1,
        Operation::UnsharpMask { radius, .. } => supply matches Supply::Exponentials(raw)
            && raw@.len() == 2 * kernel_reach(as_real(&radius)) + 1,
        Operation::Lut { .. } => supply is Cube,
        _ => true,
    }
}

/// Why an operation that is defined on bytes fails.
pub open spec fn bytes_fault(op: Operation, supply: Supply) -> Option<Seq<char>> {
    match (op, supply) {
        (Operation::Lut { lut_revision_id, .. }, Supply::Cube { asset, first, second }) => cube_fault(
            lut_revision_id@,
            asset,
            first@,
            second@,
        ),
        _ => None,
    }
}

/// Applies an operation that is defined on bytes.
#[verifier::rlimit(60)]
pub fn change_bytes(op: &Operation, supply: &Supply, a: &Image<Rgba>) -> (r: Result<
    Image<Rgba>,
    String,
>)
    requires
        a.well_formed(),
        is_on_bytes(*op),
        is_ready_on_bytes(*op),
        is_supplied_on_bytes(*op, *supply),
    ensures
        match r {
            Ok(b) => {
                &&& bytes_fault(*op, *supply) is None
                &&& b.well_formed()
                &&& is_byte_effect(*op, *supply, *a, b)
            },
            Err(m) => bytes_fault(*op, *supply) == Some(m@),
        },
{
    match (op, supply) {
        (Operation::ColorMatrix { matrix, .. }, _) => Ok(color_matrix(a, &to_reals(matrix))),
        (Operation::Curves { master, red, green, blue, .. }, _) => Ok(
            curves(a, master, red, green, blue),
        ),
        (
            Operation::Levels { in_black, in_white, gamma, out_black, out_white, .. },
            Supply::Powers(powers),
        ) => Ok(levels(a, *in_black, *in_white, as_real(gamma), *out_black, *out_white, powers)),
        (Operation::Blur { sigma, .. }, Supply::Exponentials(raw)) => {
            let kernel: Kernel = make_kernel(as_real(sigma), raw);
            let b: Image<Rgba> = gaussian_blur(a, &kernel);
            assert(is_blurred(*a, kernel, b));
            Ok(b)
        },
        (Operation::Median { radius, .. }, _) => {
            let b: Image<Rgba> = median(a, *radius);
            assert(is_filtered(*a, *radius, b));
            Ok(b)
        },
        (
            Operation::UnsharpMask { amount, radius, threshold, .. },
            Supply::Exponentials(raw),
        ) => {
            let kernel: Kernel = make_kernel(as_real(radius), raw);
            let b: Image<Rgba> = unsharp_mask(a, as_real(amount), &kernel, *threshold);
            assert(is_sharpened(*a, kernel, as_real(amount), *threshold, b));
            Ok(b)
        },
        (
            Operation::Lut { lut_revision_id, strength, .. },
            Supply::Cube { asset, first, second },
        ) => {
            match read_cube(lut_revision_id.as_str(), asset, first.as_str(), second.as_str()) {
                Ok(lut) => Ok(crate::ops::lut::apply(a, &lut, as_real(strength))),
                Err(m) => Err(m),
            }
        },
        (Operation::WhiteBalance { temperature, tint, .. }, _) => Ok(
            crate::ops::wb::apply(a, as_real(temperature), as_real(tint)),
        ),
        (
            Operation::Hsl { red, orange, yellow, green, aqua, blue, purple, magenta, .. },
            _,
        ) => {
            let mut shifts: Vec<Shift> = Vec::new();
            shifts.push(read_shift(red));
            shifts.push(read_shift(orange));
            shifts.push(read_shift(yellow));
            shifts.push(read_shift(green));
            shifts.push(read_shift(aqua));
            shifts.push(read_shift(blue));
            shifts.push(read_shift(purple));
            shifts.push(read_shift(magenta));
            assert(shifts@ =~= band_shifts(
                *red,
                *orange,
                *yellow,
                *green,
                *aqua,
                *blue,
                *purple,
                *magenta,
            ));
            Ok(crate::ops::hsl::apply(a, &shifts))
        },
        (Operation::Convolve { kernel, size, divisor, offset, .. }, _) => {
            let weights: Vec<Real> = to_reals(kernel);
            let b: Image<Rgba> = crate::ops::convolve::apply(
                a,
                &weights,
                *size,
                as_real(divisor),
                as_real(offset),
            );
            assert(is_convolved(*a, reals(kernel@), *size, as_real(divisor), as_real(offset), b));
            Ok(b)
        },
        _ => {
            assert(false);
            Err(String::new())
        },
    }
}

/// What an operation that is defined on bytes does to an image of a working space.
pub open spec fn is_changed_in_bytes(
    op: Operation,
    supply: Supply,
    space: Space,
    tables: Tables,
    img: LinearImage,
    out: LinearImage,
) -> bool {
    exists|a: Image<Rgba>, b: Image<Rgba>| #[trigger]
        is_byte_effect(op, supply, a, b) && is_mapped(
            img,
            a,
            |p: Rgba32| to_byte_pixel(space, tables, p),
        ) && is_mapped(b, out, |p: Rgba| from_byte_pixel(space, tables, p))
}

/// Applies an operation that is defined on bytes to an image of a working space.
pub fn change_in_bytes(
    op: &Operation,
    supply: &Supply,
    space: Space,
    tables: &Tables,
    img: &LinearImage,
) -> (r: Result<LinearImage, String>)
    requires
        img.well_formed(),
        tables.well_formed(),
        is_on_bytes(*op),
        is_ready_on_bytes(*op),
        is_supplied_on_bytes(*op, *supply),
    ensures
        match r {
            Ok(out) => {
                &&& bytes_fault(*op, *supply) is None
                &&& out.well_formed()
                &&& is_changed_in_bytes(*op, *supply, space, *tables, *img, out)
            },
            Err(m) => bytes_fault(*op, *supply) == Some(m@),
        },
{
    let a: Image<Rgba> = into_bytes(img, space, tables);
    match change_bytes(op, supply, &a) {
        Ok(b) => {
            let out: LinearImage = out_of_bytes(&b, space, tables);
            assert(is_byte_effect(*op, *supply, a, b));
            Ok(out)
        },
        Err(m) => Err(m),
    }
}

/// An operation that is defined on bytes leaves the size of an image as it is.
pub proof fn bytes_keep_size(
    op: Operation,
    supply: Supply,
    space: Space,
    tables: Tables,
    img: LinearImage,
    out: LinearImage,
)
    requires
        is_changed_in_bytes(op, supply, space, tables, img, out),
    ensures
        out.width == img.width,
        out.height == img.height,
{
}

} // verus!
