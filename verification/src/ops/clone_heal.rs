//! Clone and heal: copying a disc from one place of the image to another.
use vstd::prelude::*;

use crate::binary::{Real, Real32};
use crate::error::{op_error, op_fault, verdict, AtxError, Fault};
use crate::linear::{
    encoded_to_rgba8, from_rgba8_srgb, in_bytes, pad_to_srgb, quantize_1e6, LinearImage,
};
use crate::number::{is_within, within, Number, ONE, THREE, TWO, TWO_HUNDRED, ZERO};
use crate::ops::blend::in_unit;
use crate::ops::blur::{blur_pixel, gaussian_blur, Kernel};
use crate::pixel_ops::{show_size, size_text};
use crate::raster::{inside, mapped_pixel, Image, Rgba, Rgba32};
use crate::roots::{root_above, root_at_most};
use crate::text::{cat2, cat5, dec, decimal};

verus! {

/// What is wrong with the parameters of `clone` or `heal`, whichever `op` names.
pub open spec fn disc_fault(index: int, op: Seq<char>, radius: u32, feather_px: Number) -> Option<
    Fault,
> {
    if !(1 <= radius <= 2048) {
        op_fault(index, op, "radius must be within 1..=2048, got "@ + decimal(radius as nat))
    } else if !within(feather_px.bits, ZERO, TWO_HUNDRED) {
        op_fault(index, op, "feather_px must be within 0.0..=200, got "@ + feather_px.text@)
    } else {
        None
    }
}

/// Checks the parameters of `clone` or `heal`, whichever `op` names.
pub fn validate(index: usize, op: &str, radius: u32, feather_px: &Number) -> (r: Result<
    (),
    AtxError,
>)
    ensures
        verdict(r) == disc_fault(index as int, op@, radius, *feather_px),
{
    if radius < 1 || radius > 2048 {
        let number: String = dec(radius as u64);
        let message: String = cat2("radius must be within 1..=2048, got ", number.as_str());
        return Err(op_error(index, op, message.as_str()));
    }
    if !is_within(feather_px.bits, ZERO, TWO_HUNDRED) {
        let message: String = cat2(
            "feather_px must be within 0.0..=200, got ",
            feather_px.text.as_str(),
        );
        return Err(op_error(index, op, message.as_str()));
    }
    Ok(())
}

/// How much of the source counts at a distance from the middle of the disc: all inside,
/// nothing outside, and a smooth step across the feather, on a grid of millionths.
pub open spec fn feathering(dx: int, dy: int, radius: u32, feather_px: Real) -> Real {
    let zero = Real { bits: ZERO };
    let one = Real { bits: ONE };
    let r = Real::nearest_to(dx * dx + dy * dy).root();
    let edge = Real::nearest_to(radius as int);
    let feather = if edge.below(feather_px) {
        edge
    } else {
        feather_px
    };
    if edge.below(r) {
        zero
    } else if feather.at_most(zero) {
        one
    } else if r.at_most(edge.minus(feather)) {
        one
    } else {
        let t = edge.minus(r).over(feather).clamped(zero, one);
        quantize_1e6(t.times(t).times((Real { bits: THREE }).minus((Real { bits: TWO }).times(t))))
    }
}

/// How much of the source counts at a distance from the middle of the disc.
pub fn feather_weight(dx: i64, dy: i64, radius: u32, feather_px: Real) -> (w: Real)
    requires
        -0xFFFF_FFFF <= dx <= 0xFFFF_FFFF,
        -0xFFFF_FFFF <= dy <= 0xFFFF_FFFF,
    ensures
        w == feathering(dx as int, dy as int, radius, feather_px),
{
    let zero: Real = Real { bits: ZERO };
    let one: Real = Real { bits: ONE };
    let ax: u128 = if dx < 0 {
        (-dx) as u128
    } else {
        dx as u128
    };
    let ay: u128 = if dy < 0 {
        (-dy) as u128
    } else {
        dy as u128
    };
    proof {
        let (a, b, c, d) = (ax as int, ay as int, dx as int, dy as int);
        assert(0 <= a * a <= 0xFFFF_FFFF * 0xFFFF_FFFF && a * a == c * c) by (nonlinear_arith)
            requires
                0 <= a <= 0xFFFF_FFFF,
                a == c || a == -c,
        ;
        assert(0 <= b * b <= 0xFFFF_FFFF * 0xFFFF_FFFF && b * b == d * d) by (nonlinear_arith)
            requires
                0 <= b <= 0xFFFF_FFFF,
                b == d || b == -d,
        ;
    }
    let r: Real = Real::from_whole(ax * ax + ay * ay).root();
    let edge: Real = Real::from_integer(radius as i64);
    if edge.below(r) {
        return zero;
    }
    let feather: Real = if edge.below(feather_px) {
        edge
    } else {
        feather_px
    };
    if feather.at_most(zero) {
        return one;
    }
    if r.at_most(edge.minus(feather)) {
        return one;
    }
    let t: Real = edge.minus(r).over(feather).clamped(zero, one);
    let two: Real = Real { bits: TWO };
    let three: Real = Real { bits: THREE };
    quantize_1e6(t.times(t).times(three.minus(two.times(t))))
}

/// The message for a middle that lies outside the image.
pub open spec fn center_text(
    op: Seq<char>,
    name: Seq<char>,
    x: u32,
    y: u32,
    w: u32,
    h: u32,
) -> Seq<char> {
    op + ": the "@ + name + " center ("@ + decimal(x as nat) + ", "@ + decimal(y as nat)
        + ") is outside the current "@ + size_text(w, h)
        + " image (centers must be inside the image; the circle itself may extend past the edge and is clipped). Adjust "@
        + name + "_x/"@ + name + "_y to be within 0.."@ + decimal((w - 1) as nat) + " / 0.."@
        + decimal((h - 1) as nat)
}

fn center_message(op: &str, name: &str, x: u32, y: u32, w: u32, h: u32) -> (r: String)
    requires
        w > 0,
        h > 0,
    ensures
        r@ == center_text(op@, name@, x, y, w, h),
{
    let sx: String = dec(x as u64);
    let sy: String = dec(y as u64);
    let size: String = show_size(w, h);
    let right: String = dec((w - 1) as u64);
    let bottom: String = dec((h - 1) as u64);
    let mut m: String = cat5(op, ": the ", name, " center (", sx.as_str());
    m.append(", ");
    m.append(sy.as_str());
    m.append(") is outside the current ");
    m.append(size.as_str());
    m.append(
        " image (centers must be inside the image; the circle itself may extend past the edge and is clipped). Adjust ",
    );
    m.append(name);
    m.append("_x/");
    m.append(name);
    m.append("_y to be within 0..");
    m.append(right.as_str());
    m.append(" / 0..");
    m.append(bottom.as_str());
    m
}

/// A pair of middles, where a disc is copied from and where to.
#[derive(Clone, Copy, Debug, PartialEq, Eq, Structural)]
pub struct Discs {
    pub src_x: u32,
    pub src_y: u32,
    pub dest_x: u32,
    pub dest_y: u32,
}

/// What is wrong with the middles: the source comes first.
pub open spec fn centers_text(op: Seq<char>, w: u32, h: u32, at: Discs) -> Option<Seq<char>> {
    if at.src_x >= w || at.src_y >= h {
        Some(center_text(op, "src"@, at.src_x, at.src_y, w, h))
    } else if at.dest_x >= w || at.dest_y >= h {
        Some(center_text(op, "dest"@, at.dest_x, at.dest_y, w, h))
    } else {
        None
    }
}

/// Checks that both middles lie inside the image.
pub fn check_centers(op: &str, w: u32, h: u32, at: Discs) -> (r: Result<(), String>)
    requires
        w > 0,
        h > 0,
    ensures
        match r {
            Ok(_) => centers_text(op@, w, h, at) is None,
            Err(m) => centers_text(op@, w, h, at) == Some(m@),
        },
{
    if at.src_x >= w || at.src_y >= h {
        return Err(center_message(op, "src", at.src_x, at.src_y, w, h));
    }
    if at.dest_x >= w || at.dest_y >= h {
        return Err(center_message(op, "dest", at.dest_x, at.dest_y, w, h));
    }
    Ok(())
}

/// A channel part of the way to another value.
#[verifier::allow_in_spec]
pub fn part_way(base: Real32, value: Real32, w: Real32) -> Real32
    returns
        base.plus(value.minus(base).times(w)),
{
    base.plus(value.minus(base).times(w))
}

/// A pixel part of the way to another; with all the weight it is the other itself.
pub open spec fn laid_over(base: Rgba32, value: Rgba32, w: Real) -> Rgba32 {
    let wf = w.narrowed();
    if (Real { bits: ONE }).at_most(w) {
        value
    } else {
        Rgba32 {
            r: part_way(base.r, value.r, wf),
            g: part_way(base.g, value.g, wf),
            b: part_way(base.b, value.b, wf),
            a: part_way(base.a, value.a, wf),
        }
    }
}

fn composite_pixel(base: Rgba32, value: Rgba32, w: Real) -> (r: Rgba32)
    ensures
        r == laid_over(base, value, w),
{
    let one: Real = Real { bits: ONE };
    if one.at_most(w) {
        return value;
    }
    let wf: Real32 = w.narrowed();
    Rgba32 {
        r: part_way(base.r, value.r, wf),
        g: part_way(base.g, value.g, wf),
        b: part_way(base.b, value.b, wf),
        a: part_way(base.a, value.a, wf),
    }
}

/// A place within the square around the destination.
pub open spec fn in_square(at: Discs, radius: u32, x: int, y: int) -> bool {
    -radius <= x - at.dest_x <= radius && -radius <= y - at.dest_y <= radius
}

/// The weight of the source at a place.
pub open spec fn weight_of(at: Discs, radius: u32, feather_px: Real, x: int, y: int) -> Real {
    if in_square(at, radius, x, y) {
        feathering(x - at.dest_x, y - at.dest_y, radius, feather_px)
    } else {
        Real { bits: ZERO }
    }
}

fn find_weight(at: Discs, radius: u32, feather_px: Real, x: u32, y: u32) -> (w: Real)
    ensures
        w == weight_of(at, radius, feather_px, x as int, y as int),
{
    let dx: i64 = x as i64 - at.dest_x as i64;
    let dy: i64 = y as i64 - at.dest_y as i64;
    let r: i64 = radius as i64;
    if -r <= dx && dx <= r && -r <= dy && dy <= r {
        feather_weight(dx, dy, radius, feather_px)
    } else {
        Real { bits: ZERO }
    }
}

/// A pixel after a disc has been copied: it is read from the image as it was, and
/// nothing is copied from outside.
pub open spec fn cloned_pixel(
    img: LinearImage,
    at: Discs,
    radius: u32,
    feather_px: Real,
    x: int,
    y: int,
) -> Rgba32 {
    let w = weight_of(at, radius, feather_px, x, y);
    let sx = at.src_x + (x - at.dest_x);
    let sy = at.src_y + (y - at.dest_y);
    if w.at_most(Real { bits: ZERO }) || sx < 0 || sy < 0 || sx >= img.width || sy >= img.height {
        img.pixel(x, y)
    } else {
        laid_over(img.pixel(x, y), img.pixel(sx, sy), w)
    }
}

fn clone_pixel(img: &LinearImage, at: Discs, radius: u32, feather_px: Real, x: u32, y: u32) -> (r:
    Rgba32)
    requires
        img.well_formed(),
        x < img.width,
        y < img.height,
    ensures
        r == cloned_pixel(*img, at, radius, feather_px, x as int, y as int),
{
    let w: Real = find_weight(at, radius, feather_px, x, y);
    let sx: i64 = at.src_x as i64 + (x as i64 - at.dest_x as i64);
    let sy: i64 = at.src_y as i64 + (y as i64 - at.dest_y as i64);
    let base: Rgba32 = img.get(x, y);
    if w.at_most(Real { bits: ZERO }) || sx < 0 || sy < 0 || sx >= img.width as i64 || sy
        >= img.height as i64 {
        return base;
    }
    composite_pixel(base, img.get(sx as u32, sy as u32), w)
}

/// Copies a disc from one place of an image to another.
pub fn apply_clone(img: &LinearImage, at: Discs, radius: u32, feather_px: Real) -> (r: Result<
    LinearImage,
    String,
>)
    requires
        img.well_formed(),
        img.width > 0,
        img.height > 0,
    ensures
        match r {
            Ok(out) => {
                &&& centers_text("clone"@, img.width, img.height, at) is None
                &&& out.well_formed()
                &&& out.width == img.width
                &&& out.height == img.height
                &&& forall|x: int, y: int|
                    0 <= x < img.width && 0 <= y < img.height ==> #[trigger] out.pixel(x, y)
                        == cloned_pixel(*img, at, radius, feather_px, x, y)
            },
            Err(m) => centers_text("clone"@, img.width, img.height, at) == Some(m@),
        },
{
    if let Err(m) = check_centers("clone", img.width, img.height, at) {
        return Err(m);
    }
    let count: usize = img.data.len();
    let f = |x: u32, y: u32| -> (p: Rgba32)
        requires
            img.well_formed(),
            x < img.width,
            y < img.height,
        ensures
            p == cloned_pixel(*img, at, radius, feather_px, x as int, y as int),
        { clone_pixel(img, at, radius, feather_px, x, y) };
    let out: LinearImage = Image::build(img.width, img.height, f);
    proof {
        assert forall|x: int, y: int|
            0 <= x < img.width && 0 <= y < img.height implies #[trigger] out.pixel(x, y)
            == cloned_pixel(*img, at, radius, feather_px, x, y) by {
            assert(call_ensures(
                f,
                (x as u32, y as u32),
                out.pixel(x as u32 as int, y as u32 as int),
            ));
        }
    }
    Ok(out)
}

/// `patch` is the square around a place. Beyond an edge the pixel at the edge counts.
pub open spec fn is_patch(img: LinearImage, cx: u32, cy: u32, radius: u32, patch: LinearImage) -> bool {
    &&& patch.well_formed()
    &&& patch.width == 2 * radius + 1
    &&& patch.height == 2 * radius + 1
    &&& forall|x: int, y: int|
        0 <= x < patch.width && 0 <= y < patch.height ==> #[trigger] patch.pixel(x, y)
            == img.pixel(
            inside(cx + x - radius, img.width as int),
            inside(cy + y - radius, img.height as int),
        )
}

/// The square around a place.
pub fn extract_patch(img: &LinearImage, cx: u32, cy: u32, radius: u32) -> (r: LinearImage)
    requires
        img.well_formed(),
        img.width > 0,
        img.height > 0,
        radius < 0x8000,
    ensures
        is_patch(*img, cx, cy, radius, r),
{
    let side: u32 = 2 * radius + 1;
    let reach: i64 = radius as i64;
    assert(side * side <= 0xFFFF_FFFF) by (nonlinear_arith)
        requires
            0 <= side <= 0xFFFF,
    ;
    let f = |x: u32, y: u32| -> (p: Rgba32)
        requires
            img.well_formed(),
            img.width > 0,
            img.height > 0,
            reach == radius,
            x < 0x10000,
            y < 0x10000,
        ensures
            p == img.pixel(
                inside(cx + x - radius, img.width as int),
                inside(cy + y - radius, img.height as int),
            ),
        { img.get_clamped(cx as i64 + x as i64 - reach, cy as i64 + y as i64 - reach) };
    let r: LinearImage = Image::build(side, side, f);
    proof {
        assert forall|x: int, y: int|
            0 <= x < r.width && 0 <= y < r.height implies #[trigger] r.pixel(x, y) == img.pixel(
            inside(cx + x - radius, img.width as int),
            inside(cy + y - radius, img.height as int),
        ) by {
            assert(call_ensures(
                f,
                (x as u32, y as u32),
                r.pixel(x as u32 as int, y as u32 as int),
            ));
        }
    }
    r
}

/// The diagonal of an image, rounded up; at least 1.
pub open spec fn diagonal(w: u32, h: u32) -> int {
    let (a, b) = (Real::nearest_to(w as int), Real::nearest_to(h as int));
    let d = a.times(a).plus(b.times(b)).root().ceiling_integer();
    if d < 1 {
        1
    } else if d > u32::MAX {
        u32::MAX as int
    } else {
        d as int
    }
}

/// The diagonal of an image, which is the largest disc that makes a difference.
pub fn diagonal_cap(img: &LinearImage) -> (r: u32)
    ensures
        r == diagonal(img.width, img.height),
{
    let a: Real = Real::from_integer(img.width as i64);
    let b: Real = Real::from_integer(img.height as i64);
    let d: i64 = a.times(a).plus(b.times(b)).root().ceiling_integer();
    if d < 1 {
        1
    } else if d > 0xFFFF_FFFF {
        0xFFFF_FFFF
    } else {
        d as u32
    }
}

/// The radius that a disc is healed with.
pub open spec fn healing_radius(w: u32, h: u32, radius: u32) -> u32 {
    if radius < diagonal(w, h) {
        radius
    } else {
        diagonal(w, h) as u32
    }
}

/// The radius that a disc is healed with.
pub fn heal_radius(img: &LinearImage, radius: u32) -> (r: u32)
    ensures
        r == healing_radius(img.width, img.height, radius),
        r <= radius,
{
    let cap: u32 = diagonal_cap(img);
    if radius < cap {
        radius
    } else {
        cap
    }
}

/// The sigma of the blur that parts texture from tone, a third of the radius.
#[verifier::allow_in_spec]
pub fn heal_sigma(radius: u32) -> Real
    returns
        Real::nearest_to(radius as int).over(Real { bits: THREE }),
{
    Real::from_integer(radius as i64).over(Real { bits: THREE })
}

/// `low` is the tone of a patch: its blurred bytes.
pub open spec fn is_tone(patch: LinearImage, kernel: Kernel, low: LinearImage) -> bool {
    &&& low.well_formed()
    &&& low.width == patch.width
    &&& low.height == patch.height
    &&& exists|bytes: Image<Rgba>|
        bytes.well_formed() && #[trigger] in_bytes(patch, bytes) && forall|x: int, y: int|
            0 <= x < patch.width && 0 <= y < patch.height ==> #[trigger] low.pixel(x, y)
                == pad_to_srgb(blur_pixel(bytes, kernel, x, y))
}

fn tone_of(patch: &LinearImage, kernel: &Kernel) -> (low: LinearImage)
    requires
        patch.well_formed(),
        kernel.well_formed(),
    ensures
        is_tone(*patch, *kernel, low),
{
    let bytes: Image<Rgba> = encoded_to_rgba8(patch);
    let blurred: Image<Rgba> = gaussian_blur(&bytes, kernel);
    let low: LinearImage = from_rgba8_srgb(&blurred);
    proof {
        assert(in_bytes(*patch, bytes));
        assert forall|x: int, y: int|
            0 <= x < patch.width && 0 <= y < patch.height implies #[trigger] low.pixel(x, y)
            == pad_to_srgb(blur_pixel(bytes, *kernel, x, y)) by {
            mapped_pixel(blurred, low, |p: Rgba| pad_to_srgb(p), x, y);
        }
    }
    low
}

/// The texture of one pixel on the tone of another.
#[verifier::allow_in_spec]
pub fn healed_channel(source: Real32, source_tone: Real32, tone: Real32) -> Real32
    returns
        in_unit(source.minus(source_tone).plus(tone)),
{
    in_unit(source.minus(source_tone).plus(tone))
}

/// A pixel after a disc has been healed.
pub open spec fn healed_pixel(
    img: LinearImage,
    at: Discs,
    radius: u32,
    feather_px: Real,
    patch: LinearImage,
    patch_low: LinearImage,
    dest_low: LinearImage,
    x: int,
    y: int,
) -> Rgba32 {
    let w = weight_of(at, radius, feather_px, x, y);
    let (px, py) = (x - at.dest_x + radius, y - at.dest_y + radius);
    let (s, sl, dl) = (patch.pixel(px, py), patch_low.pixel(px, py), dest_low.pixel(px, py));
    if w.at_most(Real { bits: ZERO }) {
        img.pixel(x, y)
    } else {
        laid_over(
            img.pixel(x, y),
            Rgba32 {
                r: healed_channel(s.r, sl.r, dl.r),
                g: healed_channel(s.g, sl.g, dl.g),
                b: healed_channel(s.b, sl.b, dl.b),
                a: healed_channel(s.a, sl.a, dl.a),
            },
            w,
        )
    }
}

fn heal_pixel(
    img: &LinearImage,
    at: Discs,
    radius: u32,
    feather_px: Real,
    patch: &LinearImage,
    patch_low: &LinearImage,
    dest_low: &LinearImage,
    x: u32,
    y: u32,
) -> (r: Rgba32)
    requires
        img.well_formed(),
        x < img.width,
        y < img.height,
        radius < 0x8000,
        patch.well_formed(),
        patch_low.well_formed(),
        dest_low.well_formed(),
        patch.width == 2 * radius + 1,
        patch.height == 2 * radius + 1,
        patch_low.width == 2 * radius + 1,
        patch_low.height == 2 * radius + 1,
        dest_low.width == 2 * radius + 1,
        dest_low.height == 2 * radius + 1,
    ensures
        r == healed_pixel(
            *img,
            at,
            radius,
            feather_px,
            *patch,
            *patch_low,
            *dest_low,
            x as int,
            y as int,
        ),
{
    let w: Real = find_weight(at, radius, feather_px, x, y);
    let base: Rgba32 = img.get(x, y);
    if w.at_most(Real { bits: ZERO }) {
        return base;
    }
    let dx: i64 = x as i64 - at.dest_x as i64 + radius as i64;
    let dy: i64 = y as i64 - at.dest_y as i64 + radius as i64;
    assert(in_square(at, radius, x as int, y as int)) by {
        if !in_square(at, radius, x as int, y as int) {
            assert((Real { bits: ZERO }).at_most(Real { bits: ZERO }));
        }
    }
    let (px, py): (u32, u32) = (dx as u32, dy as u32);
    let s: Rgba32 = patch.get(px, py);
    let sl: Rgba32 = patch_low.get(px, py);
    let dl: Rgba32 = dest_low.get(px, py);
    let healed: Rgba32 = Rgba32 {
        r: healed_channel(s.r, sl.r, dl.r),
        g: healed_channel(s.g, sl.g, dl.g),
        b: healed_channel(s.b, sl.b, dl.b),
        a: healed_channel(s.a, sl.a, dl.a),
    };
    composite_pixel(base, healed, w)
}

/// `out` is `img` with a disc that has the texture of the source and the tone of the
/// destination.
pub open spec fn is_healed(
    img: LinearImage,
    at: Discs,
    radius: u32,
    feather_px: Real,
    kernel: Kernel,
    out: LinearImage,
) -> bool {
    &&& out.well_formed()
    &&& out.width == img.width
    &&& out.height == img.height
    &&& exists|s: LinearImage, d: LinearImage, sl: LinearImage, dl: LinearImage|
        {
            &&& #[trigger] is_patch(img, at.src_x, at.src_y, radius, s)
            &&& #[trigger] is_patch(img, at.dest_x, at.dest_y, radius, d)
            &&& #[trigger] is_tone(s, kernel, sl)
            &&& #[trigger] is_tone(d, kernel, dl)
            &&& forall|x: int, y: int|
                0 <= x < img.width && 0 <= y < img.height ==> #[trigger] out.pixel(x, y)
                    == healed_pixel(img, at, radius, feather_px, s, sl, dl, x, y)
        }
}

/// Heals a disc: it gets the texture of the source and keeps its own tone. The kernel is
/// that of a blur with the sigma of `heal_sigma`.
pub fn apply_heal(
    img: &LinearImage,
    at: Discs,
    radius: u32,
    feather_px: Real,
    kernel: &Kernel,
) -> (r: Result<LinearImage, String>)
    requires
        img.well_formed(),
        img.width > 0,
        img.height > 0,
        radius < 0x8000,
        kernel.well_formed(),
    ensures
        match r {
            Ok(out) => centers_text("heal"@, img.width, img.height, at) is None && is_healed(
                *img,
                at,
                healing_radius(img.width, img.height, radius),
                feather_px,
                *kernel,
                out,
            ),
            Err(m) => centers_text("heal"@, img.width, img.height, at) == Some(m@),
        },
{
    if let Err(m) = check_centers("heal", img.width, img.height, at) {
        return Err(m);
    }
    let radius: u32 = heal_radius(img, radius);
    let s: LinearImage = extract_patch(img, at.src_x, at.src_y, radius);
    let d: LinearImage = extract_patch(img, at.dest_x, at.dest_y, radius);
    let sl: LinearImage = tone_of(&s, kernel);
    let dl: LinearImage = tone_of(&d, kernel);
    let (sr, slr, dlr): (&LinearImage, &LinearImage, &LinearImage) = (&s, &sl, &dl);
    let count: usize = img.data.len();
    let f = |x: u32, y: u32| -> (p: Rgba32)
        requires
            img.well_formed(),
            x < img.width,
            y < img.height,
            radius < 0x8000,
            sr.well_formed(),
            slr.well_formed(),
            dlr.well_formed(),
            sr.width == 2 * radius + 1,
            sr.height == 2 * radius + 1,
            slr.width == 2 * radius + 1,
            slr.height == 2 * radius + 1,
            dlr.width == 2 * radius + 1,
            dlr.height == 2 * radius + 1,
        ensures
            p == healed_pixel(*img, at, radius, feather_px, *sr, *slr, *dlr, x as int, y as int),
        { heal_pixel(img, at, radius, feather_px, sr, slr, dlr, x, y) };
    let out: LinearImage = Image::build(img.width, img.height, f);
    proof {
        assert forall|x: int, y: int|
            0 <= x < img.width && 0 <= y < img.height implies #[trigger] out.pixel(x, y)
            == healed_pixel(*img, at, radius, feather_px, s, sl, dl, x, y) by {
            assert(call_ensures(
                f,
                (x as u32, y as u32),
                out.pixel(x as u32 as int, y as u32 as int),
            ));
        }
        assert(is_patch(*img, at.src_x, at.src_y, radius, s) && is_patch(
            *img,
            at.dest_x,
            at.dest_y,
            radius,
            d,
        ) && is_tone(s, *kernel, sl) && is_tone(d, *kernel, dl));
    }
    Ok(out)
}

/// Outside the square around the destination a clone changes nothing.
pub proof fn clone_stays_in_its_square(
    img: LinearImage,
    at: Discs,
    radius: u32,
    feather_px: Real,
    x: int,
    y: int,
)
    requires
        !in_square(at, radius, x, y),
    ensures
        cloned_pixel(img, at, radius, feather_px, x, y) == img.pixel(x, y),
{
    assert((Real { bits: ZERO }).at_most(Real { bits: ZERO }));
}

/// Without a feather all of the source counts inside the disc, and nothing outside it.
proof fn hard_edges(dx: int, dy: int, radius: u32)
    requires
        1 <= radius <= 2048,
        -2048 <= dx <= 2048,
        -2048 <= dy <= 2048,
    ensures
        feathering(dx, dy, radius, Real { bits: ZERO }) == (if dx * dx + dy * dy <= radius * radius {
            Real { bits: ONE }
        } else {
            Real { bits: ZERO }
        }),
{
    assert(0 <= dx * dx <= 4194304) by (nonlinear_arith)
        requires
            -2048 <= dx <= 2048,
    ;
    assert(0 <= dy * dy <= 4194304) by (nonlinear_arith)
        requires
            -2048 <= dy <= 2048,
    ;
    let n = (dx * dx + dy * dy) as nat;
    if n <= radius * radius {
        root_at_most(n, radius as nat);
    } else {
        root_above(n, radius as nat);
    }
}

/// A clone without a feather puts the pixels of the source disc, as far as they lie inside the
/// image, where the destination disc is, and changes nothing else.
pub proof fn hard_clone_copies_its_disc(img: LinearImage, at: Discs, radius: u32, x: int, y: int)
    requires
        1 <= radius <= 2048,
    ensures
        ({
            let (dx, dy) = (x - at.dest_x, y - at.dest_y);
            let (sx, sy) = (at.src_x + dx, at.src_y + dy);
            cloned_pixel(img, at, radius, Real { bits: ZERO }, x, y) == (if dx * dx + dy * dy
                <= radius * radius && 0 <= sx < img.width && 0 <= sy < img.height {
                img.pixel(sx, sy)
            } else {
                img.pixel(x, y)
            })
        }),
{
    let (dx, dy) = (x - at.dest_x, y - at.dest_y);
    let r = radius as int;
    if in_square(at, radius, x, y) {
        hard_edges(dx, dy, radius);
    } else {
        assert(dx * dx + dy * dy > r * r) by (nonlinear_arith)
            requires
                dx < -r || dx > r || dy < -r || dy > r,
                r >= 0,
        ;
    }
    assert((Real { bits: ONE }).at_most(Real { bits: ONE }));
    assert((Real { bits: ZERO }).at_most(Real { bits: ZERO }));
    assert(!(Real { bits: ONE }).at_most(Real { bits: ZERO }));
}

/// Discs as large as the diagonal of an image or larger are healed alike.
pub proof fn large_discs_heal_alike(w: u32, h: u32, radius: u32, other: u32)
    requires
        radius >= diagonal(w, h),
        other >= diagonal(w, h),
    ensures
        healing_radius(w, h, radius) == healing_radius(w, h, other),
{
}

} // verus!
