//! Masks.
use std::io::Cursor;

use image::{DynamicImage, ImageReader};
use vstd::prelude::*;

use crate::assets::AssetResolver;
use crate::binary::{Real, Real32};
use crate::error::{fault_text, op_error, op_fault, verdict, AtxError, Fault};
use crate::input::{
    byte_colour, decoder_memory, head_fault, image_of_bytes, memory_for, read_head,
};
use crate::linear::{byte_to_unit, quantize_1e6, LinearImage};
use crate::number::{is_within, within, HALF, SHORT_ONE, SHORT_ZERO, TWO_HUNDRED, ZERO};
use crate::ops::blend::in_unit;
use crate::ops::blur::Kernel;
use crate::pixel_ops::{show_size, size_text};
use crate::raster::{clamp_coord, copy, inside, Image, Rgba, Rgba32};
use crate::recipe::MaskRef;
use crate::text::{begins, begins_with, cat2, cat4, cat5, debug_text, quoted};
use crate::Limits;

verus! {

/// What is wrong with a mask.
pub open spec fn mask_fault(index: int, mask: MaskRef) -> Option<Fault> {
    if mask.revision_id@.len() == 0 {
        op_fault(index, "mask"@, "revision_id must not be empty"@)
    } else if !begins(mask.revision_id@, "rev_"@) {
        op_fault(
            index,
            "mask"@,
            "revision_id must start with \"rev_\", got "@ + debug_text(mask.revision_id@),
        )
    } else if !within(mask.feather_px.bits, ZERO, TWO_HUNDRED) {
        op_fault(
            index,
            "mask"@,
            "feather_px must be within 0.0..=200, got "@ + mask.feather_px.text@,
        )
    } else {
        None
    }
}

/// Checks a mask: it names a revision, and its feather is 0 to 200 pixels.
pub fn validate(index: usize, mask: &MaskRef) -> (r: Result<(), AtxError>)
    ensures
        verdict(r) == mask_fault(index as int, *mask),
{
    if mask.revision_id.as_str().is_empty() {
        return Err(op_error(index, "mask", "revision_id must not be empty"));
    }
    if !begins_with(mask.revision_id.as_str(), "rev_") {
        let id: String = quoted(mask.revision_id.as_str());
        let message: String = cat2("revision_id must start with \"rev_\", got ", id.as_str());
        return Err(op_error(index, "mask", message.as_str()));
    }
    if !is_within(mask.feather_px.bits, ZERO, TWO_HUNDRED) {
        let message: String = cat2(
            "feather_px must be within 0.0..=200, got ",
            mask.feather_px.text.as_str(),
        );
        return Err(op_error(index, "mask", message.as_str()));
    }
    Ok(())
}

/// The weight of red in luminance, 0.2126.
pub const LUMA_R: u32 = 0x3E59_B3D0;

/// The weight of green in luminance, 0.7152.
pub const LUMA_G: u32 = 0x3F37_1759;

/// The weight of blue in luminance, 0.0722.
pub const LUMA_B: u32 = 0x3D93_DD98;

/// How much a pixel of a mask lets through: its luminance.
#[verifier::allow_in_spec]
pub fn coverage(p: Rgba) -> Real32
    returns
        (Real32 { bits: LUMA_R }).times(byte_to_unit(p.r)).plus(
            (Real32 { bits: LUMA_G }).times(byte_to_unit(p.g)),
        ).plus((Real32 { bits: LUMA_B }).times(byte_to_unit(p.b))),
{
    let (r, g, b): (Real32, Real32, Real32) = (
        Real32 { bits: LUMA_R },
        Real32 { bits: LUMA_G },
        Real32 { bits: LUMA_B },
    );
    r.times(byte_to_unit(p.r)).plus(g.times(byte_to_unit(p.g))).plus(b.times(byte_to_unit(p.b)))
}

/// An image of numbers holds the values of a function of column and row.
pub open spec fn holds(img: &Image<Real32>, f: spec_fn(int, int) -> Real32) -> bool {
    &&& img.well_formed()
    &&& forall|x: int, y: int|
        0 <= x < img.width && 0 <= y < img.height ==> #[trigger] img.pixel(x, y) == f(x, y)
}

/// The numbers of an image as a function of column and row.
pub open spec fn plane(img: &Image<Real32>) -> spec_fn(int, int) -> Real32 {
    |x: int, y: int| img.pixel(x, y)
}

/// The coverage of the pixels of a mask.
pub open spec fn coverages(img: Image<Rgba>) -> spec_fn(int, int) -> Real32 {
    |x: int, y: int| coverage(img.pixel(x, y))
}

/// Where place `i` of `to` places lies among `from` places, by their middles.
pub open spec fn source_place(i: int, from: int, to: int) -> Real {
    let half = Real { bits: HALF };
    let scale = Real::nearest_to(from).over(Real::nearest_to(to));
    Real::nearest_to(i).plus(half).times(scale).minus(half).clamped(
        Real { bits: ZERO },
        Real::nearest_to(from - 1),
    )
}

/// The place before a position.
pub open spec fn place_before(pos: Real, len: int) -> int {
    inside(pos.floor_integer() as int, len)
}

/// The place after another; the last has none and stays.
pub open spec fn place_next(i: int, len: int) -> int {
    if i + 1 > len - 1 {
        len - 1
    } else {
        i + 1
    }
}

/// How far a position is beyond the place before it, on a grid of millionths.
#[verifier::allow_in_spec]
pub fn beyond(pos: Real) -> Real32
    returns
        quantize_1e6(pos.minus(pos.floor())).narrowed(),
{
    quantize_1e6(pos.minus(pos.floor())).narrowed()
}

/// A number part of the way to another.
#[verifier::allow_in_spec]
pub fn toward(a: Real32, b: Real32, t: Real32) -> Real32
    returns
        a.plus(b.minus(a).times(t)),
{
    a.plus(b.minus(a).times(t))
}

/// A plane in another size, bilinear between its places.
pub open spec fn resized(
    f: spec_fn(int, int) -> Real32,
    sw: int,
    sh: int,
    dw: int,
    dh: int,
) -> spec_fn(int, int) -> Real32 {
    |x: int, y: int|
        {
            let (sx, sy) = (source_place(x, sw, dw), source_place(y, sh, dh));
            let (x0, y0) = (place_before(sx, sw), place_before(sy, sh));
            let (x1, y1) = (place_next(x0, sw), place_next(y0, sh));
            toward(
                toward(f(x0, y0), f(x1, y0), beyond(sx)),
                toward(f(x0, y1), f(x1, y1), beyond(sx)),
                beyond(sy),
            )
        }
}

/// Finds a place among others: the place before it, the one after, and how far it is
/// beyond.
fn locate(i: u32, from: u32, to: u32) -> (r: (u32, u32, Real32))
    requires
        from > 0,
        i < to,
    ensures
        r.0 == place_before(source_place(i as int, from as int, to as int), from as int),
        r.1 == place_next(r.0 as int, from as int),
        r.2 == beyond(source_place(i as int, from as int, to as int)),
        r.0 < from,
        r.1 < from,
{
    let half: Real = Real { bits: HALF };
    let scale: Real = Real::from_integer(from as i64).over(Real::from_integer(to as i64));
    let pos: Real = Real::from_integer(i as i64).plus(half).times(scale).minus(half).clamped(
        Real { bits: ZERO },
        Real::from_integer((from - 1) as i64),
    );
    let first: u32 = clamp_coord(pos.floor_integer(), from);
    let second: u32 = if first == from - 1 {
        first
    } else {
        first + 1
    };
    (first, second, beyond(pos))
}

/// Brings a plane to another size.
pub fn bilinear_resize(src: &Image<Real32>, dw: u32, dh: u32) -> (r: Image<Real32>)
    requires
        src.well_formed(),
        src.width > 0,
        src.height > 0,
        dw * dh <= usize::MAX,
    ensures
        r.width == dw,
        r.height == dh,
        holds(
            &r,
            resized(plane(src), src.width as int, src.height as int, dw as int, dh as int),
        ),
{
    let (sw, sh): (u32, u32) = (src.width, src.height);
    let g = |x: u32, y: u32| -> (v: Real32)
        requires
            src.well_formed(),
            sw == src.width,
            sh == src.height,
            sw > 0,
            sh > 0,
            x < dw,
            y < dh,
        ensures
            v == ({
                let (sx, sy) = (
                    source_place(x as int, sw as int, dw as int),
                    source_place(y as int, sh as int, dh as int),
                );
                let (x0, y0) = (place_before(sx, sw as int), place_before(sy, sh as int));
                let (x1, y1) = (place_next(x0, sw as int), place_next(y0, sh as int));
                toward(
                    toward(src.pixel(x0, y0), src.pixel(x1, y0), beyond(sx)),
                    toward(src.pixel(x0, y1), src.pixel(x1, y1), beyond(sx)),
                    beyond(sy),
                )
            }),
        {
            let (x0, x1, fx): (u32, u32, Real32) = locate(x, sw, dw);
            let (y0, y1, fy): (u32, u32, Real32) = locate(y, sh, dh);
            let top: Real32 = toward(src.get(x0, y0), src.get(x1, y0), fx);
            let bottom: Real32 = toward(src.get(x0, y1), src.get(x1, y1), fx);
            toward(top, bottom, fy)
        };
    let r: Image<Real32> = Image::build(dw, dh, g);
    proof {
        let h = resized(plane(src), sw as int, sh as int, dw as int, dh as int);
        assert forall|x: int, y: int| 0 <= x < dw && 0 <= y < dh implies #[trigger] r.pixel(x, y)
            == h(x, y) by {
            assert(call_ensures(
                g,
                (x as u32, y as u32),
                r.pixel(x as u32 as int, y as u32 as int),
            ));
        }
    }
    r
}

/// A plane in another size depends on its places alone.
proof fn resized_agrees(
    src: &Image<Real32>,
    f: spec_fn(int, int) -> Real32,
    dw: int,
    dh: int,
    x: int,
    y: int,
)
    requires
        holds(src, f),
        src.width > 0,
        src.height > 0,
    ensures
        resized(plane(src), src.width as int, src.height as int, dw, dh)(x, y) == resized(
            f,
            src.width as int,
            src.height as int,
            dw,
            dh,
        )(x, y),
{
    let (sw, sh) = (src.width as int, src.height as int);
    let (sx, sy) = (source_place(x, sw, dw), source_place(y, sh, dh));
    let (x0, y0) = (place_before(sx, sw), place_before(sy, sh));
    let (x1, y1) = (place_next(x0, sw), place_next(y0, sh));
    assert(src.pixel(x0, y0) == f(x0, y0) && src.pixel(x1, y0) == f(x1, y0) && src.pixel(x0, y1)
        == f(x0, y1) && src.pixel(x1, y1) == f(x1, y1));
}

/// The first `n` parts of the weighted sum along a row.
pub open spec fn row_mean(
    f: spec_fn(int, int) -> Real32,
    kernel: Kernel,
    w: int,
    x: int,
    y: int,
    n: nat,
) -> Real32
    decreases n,
{
    if n == 0 {
        Real32 { bits: SHORT_ZERO }
    } else {
        row_mean(f, kernel, w, x, y, (n - 1) as nat).plus(
            f(inside(x + (n - 1 - kernel.radius), w), y).times(kernel.weights@[n - 1].narrowed()),
        )
    }
}

/// The first `n` parts of the weighted sum along a column.
pub open spec fn column_mean(
    f: spec_fn(int, int) -> Real32,
    kernel: Kernel,
    h: int,
    x: int,
    y: int,
    n: nat,
) -> Real32
    decreases n,
{
    if n == 0 {
        Real32 { bits: SHORT_ZERO }
    } else {
        column_mean(f, kernel, h, x, y, (n - 1) as nat).plus(
            f(x, inside(y + (n - 1 - kernel.radius), h)).times(kernel.weights@[n - 1].narrowed()),
        )
    }
}

/// A plane blurred along its rows.
pub open spec fn rows_blurred(f: spec_fn(int, int) -> Real32, kernel: Kernel, w: int) -> spec_fn(
    int,
    int,
) -> Real32 {
    |x: int, y: int| row_mean(f, kernel, w, x, y, kernel.weights@.len())
}

/// A plane blurred along its columns.
pub open spec fn columns_blurred(f: spec_fn(int, int) -> Real32, kernel: Kernel, h: int) -> spec_fn(
    int,
    int,
) -> Real32 {
    |x: int, y: int| column_mean(f, kernel, h, x, y, kernel.weights@.len())
}

proof fn row_means_agree(
    img: &Image<Real32>,
    f: spec_fn(int, int) -> Real32,
    kernel: Kernel,
    x: int,
    y: int,
    n: nat,
)
    requires
        holds(img, f),
        0 <= x < img.width,
        0 <= y < img.height,
    ensures
        row_mean(plane(img), kernel, img.width as int, x, y, n) == row_mean(
            f,
            kernel,
            img.width as int,
            x,
            y,
            n,
        ),
    decreases n,
{
    if n > 0 {
        row_means_agree(img, f, kernel, x, y, (n - 1) as nat);
        let at = inside(x + (n - 1 - kernel.radius), img.width as int);
        assert(img.pixel(at, y) == f(at, y));
    }
}

proof fn column_means_agree(
    img: &Image<Real32>,
    f: spec_fn(int, int) -> Real32,
    kernel: Kernel,
    x: int,
    y: int,
    n: nat,
)
    requires
        holds(img, f),
        0 <= x < img.width,
        0 <= y < img.height,
    ensures
        column_mean(plane(img), kernel, img.height as int, x, y, n) == column_mean(
            f,
            kernel,
            img.height as int,
            x,
            y,
            n,
        ),
    decreases n,
{
    if n > 0 {
        column_means_agree(img, f, kernel, x, y, (n - 1) as nat);
        let at = inside(y + (n - 1 - kernel.radius), img.height as int);
        assert(img.pixel(x, at) == f(x, at));
    }
}

fn mean_along_row(img: &Image<Real32>, kernel: &Kernel, x: u32, y: u32) -> (r: Real32)
    requires
        img.well_formed(),
        kernel.well_formed(),
        x < img.width,
        y < img.height,
    ensures
        r == row_mean(
            plane(img),
            *kernel,
            img.width as int,
            x as int,
            y as int,
            kernel.weights@.len(),
        ),
{
    let mut acc: Real32 = Real32 { bits: SHORT_ZERO };
    let mut k: usize = 0;
    while k < kernel.weights.len()
        invariant
            img.well_formed(),
            kernel.well_formed(),
            x < img.width,
            y < img.height,
            k <= kernel.weights@.len(),
            acc == row_mean(plane(img), *kernel, img.width as int, x as int, y as int, k as nat),
        decreases kernel.weights.len() - k,
    {
        let at: i64 = x as i64 + k as i64 - kernel.radius as i64;
        let v: Real32 = img.get_clamped(at, y as i64);
        acc = acc.plus(v.times(kernel.weights[k].narrowed()));
        k = k + 1;
    }
    acc
}

fn mean_along_column(img: &Image<Real32>, kernel: &Kernel, x: u32, y: u32) -> (r: Real32)
    requires
        img.well_formed(),
        kernel.well_formed(),
        x < img.width,
        y < img.height,
    ensures
        r == column_mean(
            plane(img),
            *kernel,
            img.height as int,
            x as int,
            y as int,
            kernel.weights@.len(),
        ),
{
    let mut acc: Real32 = Real32 { bits: SHORT_ZERO };
    let mut k: usize = 0;
    while k < kernel.weights.len()
        invariant
            img.well_formed(),
            kernel.well_formed(),
            x < img.width,
            y < img.height,
            k <= kernel.weights@.len(),
            acc == column_mean(plane(img), *kernel, img.height as int, x as int, y as int, k as nat),
        decreases kernel.weights.len() - k,
    {
        let at: i64 = y as i64 + k as i64 - kernel.radius as i64;
        let v: Real32 = img.get_clamped(x as i64, at);
        acc = acc.plus(v.times(kernel.weights[k].narrowed()));
        k = k + 1;
    }
    acc
}

/// Blurs a plane: along the rows first, then along the columns.
fn feather(
    img: &Image<Real32>,
    Ghost(f): Ghost<spec_fn(int, int) -> Real32>,
    kernel: &Kernel,
) -> (r: Image<Real32>)
    requires
        holds(img, f),
        kernel.well_formed(),
    ensures
        r.width == img.width,
        r.height == img.height,
        holds(
            &r,
            columns_blurred(
                rows_blurred(f, *kernel, img.width as int),
                *kernel,
                img.height as int,
            ),
        ),
{
    let count: usize = img.data.len();
    let ghost rows_f = rows_blurred(f, *kernel, img.width as int);
    let first = |x: u32, y: u32| -> (v: Real32)
        requires
            img.well_formed(),
            kernel.well_formed(),
            x < img.width,
            y < img.height,
        ensures
            v == row_mean(
                plane(img),
                *kernel,
                img.width as int,
                x as int,
                y as int,
                kernel.weights@.len(),
            ),
        { mean_along_row(img, kernel, x, y) };
    let rows: Image<Real32> = Image::build(img.width, img.height, first);
    proof {
        assert forall|x: int, y: int|
            0 <= x < rows.width && 0 <= y < rows.height implies #[trigger] rows.pixel(x, y)
            == rows_f(x, y) by {
            assert(call_ensures(
                first,
                (x as u32, y as u32),
                rows.pixel(x as u32 as int, y as u32 as int),
            ));
            row_means_agree(img, f, *kernel, x, y, kernel.weights@.len());
        }
    }
    let rr: &Image<Real32> = &rows;
    let second = |x: u32, y: u32| -> (v: Real32)
        requires
            rr.well_formed(),
            kernel.well_formed(),
            x < rr.width,
            y < rr.height,
        ensures
            v == column_mean(
                plane(rr),
                *kernel,
                rr.height as int,
                x as int,
                y as int,
                kernel.weights@.len(),
            ),
        { mean_along_column(rr, kernel, x, y) };
    let r: Image<Real32> = Image::build(img.width, img.height, second);
    proof {
        let h = columns_blurred(rows_f, *kernel, img.height as int);
        assert forall|x: int, y: int|
            0 <= x < r.width && 0 <= y < r.height implies #[trigger] r.pixel(x, y) == h(x, y) by {
            assert(call_ensures(
                second,
                (x as u32, y as u32),
                r.pixel(x as u32 as int, y as u32 as int),
            ));
            column_means_agree(rr, rows_f, *kernel, x, y, kernel.weights@.len());
        }
    }
    r
}

/// The coverages of a mask in the size of the image.
pub open spec fn fitted(img: Image<Rgba>, w: u32, h: u32) -> spec_fn(int, int) -> Real32 {
    if img.width == w && img.height == h {
        coverages(img)
    } else {
        resized(coverages(img), img.width as int, img.height as int, w as int, h as int)
    }
}

/// A plane, or what is left of it to 1.
pub open spec fn turned(f: spec_fn(int, int) -> Real32, invert: bool) -> spec_fn(
    int,
    int,
) -> Real32 {
    if invert {
        |x: int, y: int| (Real32 { bits: SHORT_ONE }).minus(f(x, y))
    } else {
        f
    }
}

/// A plane, blurred where there is a kernel.
pub open spec fn softened(
    f: spec_fn(int, int) -> Real32,
    kernel: Option<Kernel>,
    w: u32,
    h: u32,
) -> spec_fn(int, int) -> Real32 {
    match kernel {
        Some(k) => columns_blurred(rows_blurred(f, k, w as int), k, h as int),
        None => f,
    }
}

/// The weights of a mask for an image of a size: fitted, inverted where wanted, feathered
/// where there is a kernel, and from 0 to 1.
pub open spec fn mask_weight(
    img: Image<Rgba>,
    w: u32,
    h: u32,
    invert: bool,
    kernel: Option<Kernel>,
) -> spec_fn(int, int) -> Real32 {
    let f = softened(turned(fitted(img, w, h), invert), kernel, w, h);
    |x: int, y: int| in_unit(f(x, y))
}

/// The numbers of a plane with a function applied to each.
fn each(
    img: &Image<Real32>,
    Ghost(f): Ghost<spec_fn(int, int) -> Real32>,
    clamp: bool,
) -> (r: Image<Real32>)
    requires
        holds(img, f),
    ensures
        r.width == img.width,
        r.height == img.height,
        clamp ==> holds(&r, |x: int, y: int| in_unit(f(x, y))),
        !clamp ==> holds(&r, |x: int, y: int| (Real32 { bits: SHORT_ONE }).minus(f(x, y))),
{
    let count: usize = img.data.len();
    let one: Real32 = Real32 { bits: SHORT_ONE };
    let g = |x: u32, y: u32| -> (v: Real32)
        requires
            img.well_formed(),
            x < img.width,
            y < img.height,
        ensures
            v == (if clamp {
                in_unit(img.pixel(x as int, y as int))
            } else {
                one.minus(img.pixel(x as int, y as int))
            }),
        {
            let p: Real32 = img.get(x, y);
            if clamp {
                in_unit(p)
            } else {
                one.minus(p)
            }
        };
    let r: Image<Real32> = Image::build(img.width, img.height, g);
    proof {
        assert forall|x: int, y: int|
            0 <= x < r.width && 0 <= y < r.height implies #[trigger] r.pixel(x, y) == (if clamp {
            in_unit(f(x, y))
        } else {
            one.minus(f(x, y))
        }) by {
            assert(call_ensures(
                g,
                (x as u32, y as u32),
                r.pixel(x as u32 as int, y as u32 as int),
            ));
            assert(img.pixel(x, y) == f(x, y));
        }
    }
    r
}

fn cover(img: &Image<Rgba>) -> (r: Image<Real32>)
    requires
        img.well_formed(),
    ensures
        r.width == img.width,
        r.height == img.height,
        holds(&r, coverages(*img)),
{
    let count: usize = img.data.len();
    let g = |x: u32, y: u32| -> (v: Real32)
        requires
            img.well_formed(),
            x < img.width,
            y < img.height,
        ensures
            v == coverage(img.pixel(x as int, y as int)),
        { coverage(img.get(x, y)) };
    let r: Image<Real32> = Image::build(img.width, img.height, g);
    proof {
        let f = coverages(*img);
        assert forall|x: int, y: int|
            0 <= x < r.width && 0 <= y < r.height implies #[trigger] r.pixel(x, y) == f(x, y) by {
            assert(call_ensures(
                g,
                (x as u32, y as u32),
                r.pixel(x as u32 as int, y as u32 as int),
            ));
        }
    }
    r
}

/// The weights of a mask for an image of a size.
pub fn mask_weights(
    img: &Image<Rgba>,
    width: u32,
    height: u32,
    invert: bool,
    kernel: &Option<Kernel>,
) -> (r: Image<Real32>)
    requires
        img.well_formed(),
        img.width > 0,
        img.height > 0,
        width * height <= usize::MAX,
        kernel matches Some(k) ==> k.well_formed(),
    ensures
        r.width == width,
        r.height == height,
        holds(&r, mask_weight(*img, width, height, invert, *kernel)),
{
    let plain: Image<Real32> = cover(img);
    let ghost f1 = fitted(*img, width, height);
    let fit: Image<Real32> = if img.width == width && img.height == height {
        plain
    } else {
        let fit: Image<Real32> = bilinear_resize(&plain, width, height);
        assert forall|x: int, y: int|
            0 <= x < fit.width && 0 <= y < fit.height implies #[trigger] fit.pixel(x, y) == f1(
            x,
            y,
        ) by {
            resized_agrees(&plain, coverages(*img), width as int, height as int, x, y);
        }
        fit
    };
    assert(holds(&fit, f1));
    let turn: Image<Real32> = if invert {
        each(&fit, Ghost(f1), false)
    } else {
        fit
    };
    let ghost f2 = turned(f1, invert);
    assert(holds(&turn, f2));
    let soft: Image<Real32> = match kernel {
        Some(k) => feather(&turn, Ghost(f2), k),
        None => turn,
    };
    let ghost f3 = softened(f2, *kernel, width, height);
    assert(holds(&soft, f3));
    each(&soft, Ghost(f3), true)
}

/// What a mask makes of a change: all of it where its weight is 1, nothing where it is 0,
/// and a part between.
pub open spec fn blended(before: Rgba32, after: Rgba32, w: Real32) -> Rgba32 {
    if w.same(Real32 { bits: SHORT_ONE }) {
        after
    } else if w.same(Real32 { bits: SHORT_ZERO }) {
        before
    } else {
        Rgba32 {
            r: toward(before.r, after.r, w),
            g: toward(before.g, after.g, w),
            b: toward(before.b, after.b, w),
            a: toward(before.a, after.a, w),
        }
    }
}

fn blend_pixel(before: Rgba32, after: Rgba32, w: Real32) -> (r: Rgba32)
    ensures
        r == blended(before, after, w),
{
    if w.same(Real32 { bits: SHORT_ONE }) {
        return after;
    }
    if w.same(Real32 { bits: SHORT_ZERO }) {
        return before;
    }
    Rgba32 {
        r: toward(before.r, after.r, w),
        g: toward(before.g, after.g, w),
        b: toward(before.b, after.b, w),
        a: toward(before.a, after.a, w),
    }
}

/// Applies a change through the weights of a mask.
pub fn blend(before: &LinearImage, after: &LinearImage, weights: &Vec<Real32>) -> (r: LinearImage)
    requires
        before.well_formed(),
        after.well_formed(),
        before.width == after.width,
        before.height == after.height,
        weights@.len() == after.data@.len(),
    ensures
        r.well_formed(),
        r.width == after.width,
        r.height == after.height,
        forall|i: int|
            0 <= i < r.data@.len() ==> #[trigger] r.data@[i] == blended(
                before.data@[i],
                after.data@[i],
                weights@[i],
            ),
{
    let mut data: Vec<Rgba32> = Vec::new();
    let mut i: usize = 0;
    while i < after.data.len()
        invariant
            i <= after.data@.len(),
            before.data@.len() == after.data@.len(),
            weights@.len() == after.data@.len(),
            data@.len() == i,
            forall|k: int|
                0 <= k < i ==> #[trigger] data@[k] == blended(
                    before.data@[k],
                    after.data@[k],
                    weights@[k],
                ),
        decreases after.data.len() - i,
    {
        data.push(blend_pixel(before.data[i], after.data[i], weights[i]));
        i = i + 1;
    }
    Image { width: after.width, height: after.height, data }
}

/// A mask that is white all over lets the change through; one that is black all over
/// keeps things as they were.
pub proof fn ends_of_a_mask(before: Rgba32, after: Rgba32)
    ensures
        blended(before, after, Real32 { bits: SHORT_ONE }) == after,
        blended(before, after, Real32 { bits: SHORT_ZERO }) == before,
{
}

/// The pixels of a mask, four bytes each, or why they cannot be read.
pub uninterp spec fn mask_decoded(bytes: Seq<u8>, max_alloc: u64) -> Result<
    (u32, u32, Seq<u8>),
    Seq<char>,
>;

/// The outcome of reading a mask, with its texts as sequences.
pub open spec fn loaded_view(r: Result<(u32, u32, Vec<u8>), String>) -> Result<
    (u32, u32, Seq<u8>),
    Seq<char>,
> {
    match r {
        Ok(v) => Ok((v.0, v.1, v.2@)),
        Err(m) => Err(m@),
    }
}

/// The pixels that `image::DynamicImage::from_decoder` reads, for the format that
/// `image::guess_format` finds, as red, green, blue and opacity in bytes, four for each pixel.
/// Decoders may use `max_alloc` bytes; the reader is made with a format of the crate itself,
/// so that registered decoders play no part. The outcome, with the text of the error, depends
/// on the bytes and on that number; it is named `mask_decoded` here.
#[verifier::external_body]
fn load_mask(bytes: &[u8], max_alloc: u64) -> (r: Result<(u32, u32, Vec<u8>), String>)
    ensures
        loaded_view(r) == mask_decoded(bytes@, max_alloc),
        r matches Ok(v) ==> v.2@.len() == 4 * (v.0 * v.1),
{
    let format = image::guess_format(bytes).map_err(|e| e.to_string())?;
    let mut reader = ImageReader::with_format(Cursor::new(bytes), format);
    let mut limits = image::Limits::default();
    limits.max_alloc = Some(max_alloc);
    reader.limits(limits);
    let decoded = reader.into_decoder().and_then(DynamicImage::from_decoder);
    let img = decoded.map_err(|e| e.to_string())?.to_rgba8();
    let (width, height) = img.dimensions();
    Ok((width, height, img.into_raw()))
}

/// What is wrong with the bytes of a mask.
pub open spec fn mask_bytes_fault(id: Seq<char>, bytes: Seq<u8>, limits: Limits) -> Option<Fault> {
    match head_fault(bytes, limits) {
        Some(Fault::LimitExceeded(m)) => Some(Fault::LimitExceeded(m)),
        _ => match mask_decoded(bytes, memory_for(limits)) {
            Err(m) => Some(
                Fault::InvalidRecipe(
                    "mask asset "@ + id
                        + " is not a decodable image (any raster format is accepted): "@ + m,
                ),
            ),
            Ok((w, h, _)) => if w == 0 || h == 0 {
                Some(
                    Fault::InvalidRecipe(
                        "mask asset "@ + id + " has zero dimensions ("@ + size_text(w, h) + ")"@,
                    ),
                )
            } else {
                None
            },
        },
    }
}

/// The weights of a mask from its bytes.
pub open spec fn are_weights(
    bytes: Seq<u8>,
    mask: MaskRef,
    width: u32,
    height: u32,
    limits: Limits,
    kernel: Option<Kernel>,
    r: Image<Real32>,
) -> bool {
    &&& r.width == width
    &&& r.height == height
    &&& exists|img: Image<Rgba>|
        {
            &&& #[trigger] is_mask_image(bytes, limits, img)
            &&& holds(&r, mask_weight(img, width, height, mask.invert, kernel))
        }
}

/// `img` is the image in the bytes of a mask.
pub open spec fn is_mask_image(bytes: Seq<u8>, limits: Limits, img: Image<Rgba>) -> bool {
    &&& img.well_formed()
    &&& mask_decoded(bytes, memory_for(limits)) matches Ok((w, h, data))
    &&& img.width == w
    &&& img.height == h
    &&& forall|i: int| 0 <= i < img.data@.len() ==> #[trigger] img.data@[i] == byte_colour(data, i)
}

/// The weights of a mask from its bytes. The kernel is that of its feather, where it has
/// one.
pub fn weights_from_bytes(
    bytes: &Vec<u8>,
    mask: &MaskRef,
    width: u32,
    height: u32,
    limits: &Limits,
    kernel: &Option<Kernel>,
) -> (r: Result<Image<Real32>, AtxError>)
    requires
        width * height <= usize::MAX,
        kernel matches Some(k) ==> k.well_formed(),
    ensures
        match r {
            Ok(w) => mask_bytes_fault(mask.revision_id@, bytes@, *limits) is None && are_weights(
                bytes@,
                *mask,
                width,
                height,
                *limits,
                *kernel,
                w,
            ),
            Err(e) => mask_bytes_fault(mask.revision_id@, bytes@, *limits) == Some(e@),
        },
{
    if let Err(AtxError::LimitExceeded(m)) = read_head(bytes.as_slice(), limits) {
        return Err(AtxError::LimitExceeded(m));
    }
    let id: &str = mask.revision_id.as_str();
    let (w, h, data): (u32, u32, Vec<u8>) = match load_mask(
        bytes.as_slice(),
        decoder_memory(limits),
    ) {
        Ok(v) => v,
        Err(m) => {
            return Err(
                AtxError::InvalidRecipe(
                    cat4(
                        "mask asset ",
                        id,
                        " is not a decodable image (any raster format is accepted): ",
                        m.as_str(),
                    ),
                ),
            );
        },
    };
    if w == 0 || h == 0 {
        let size: String = show_size(w, h);
        return Err(
            AtxError::InvalidRecipe(
                cat5("mask asset ", id, " has zero dimensions (", size.as_str(), ")"),
            ),
        );
    }
    let img: Image<Rgba> = image_of_bytes(w, h, &data);
    assert(is_mask_image(bytes@, *limits, img));
    Ok(mask_weights(&img, width, height, mask.invert, kernel))
}

/// The error for a mask whose bytes cannot be read.
pub open spec fn unread_fault(id: Seq<char>, cause: Fault) -> Fault {
    Fault::InvalidRecipe("mask asset "@ + id + " could not be read: "@ + fault_text(cause))
}

/// The weights of a mask, or what stopped them, from what its asset gave.
pub open spec fn is_weighed(
    asset: Result<Vec<u8>, AtxError>,
    mask: MaskRef,
    width: u32,
    height: u32,
    limits: Limits,
    kernel: Option<Kernel>,
    r: Result<Image<Real32>, AtxError>,
) -> bool {
    match (asset, r) {
        (Err(cause), Ok(_)) => false,
        (Err(cause), Err(e)) => e@ == unread_fault(mask.revision_id@, cause@),
        (Ok(bytes), Ok(w)) => mask_bytes_fault(mask.revision_id@, bytes@, limits) is None
            && are_weights(bytes@, mask, width, height, limits, kernel, w),
        (Ok(bytes), Err(e)) => mask_bytes_fault(mask.revision_id@, bytes@, limits) == Some(e@),
    }
}

/// The weights of a mask from what its asset gave.
pub fn weights_from_asset(
    asset: Result<Vec<u8>, AtxError>,
    mask: &MaskRef,
    width: u32,
    height: u32,
    limits: &Limits,
    kernel: &Option<Kernel>,
) -> (r: Result<Image<Real32>, AtxError>)
    requires
        width * height <= usize::MAX,
        kernel matches Some(k) ==> k.well_formed(),
    ensures
        is_weighed(asset, *mask, width, height, *limits, *kernel, r),
{
    match asset {
        Ok(bytes) => weights_from_bytes(&bytes, mask, width, height, limits, kernel),
        Err(cause) => {
            let text: String = cause.message();
            Err(
                AtxError::InvalidRecipe(
                    cat4(
                        "mask asset ",
                        mask.revision_id.as_str(),
                        " could not be read: ",
                        text.as_str(),
                    ),
                ),
            )
        },
    }
}

/// The weights of a mask, or what stopped them, from what the resolver gave for the revision
/// that the mask names.
pub open spec fn is_resolved<A: AssetResolver>(
    mask: MaskRef,
    width: u32,
    height: u32,
    assets: &A,
    limits: Limits,
    kernel: Option<Kernel>,
    r: Result<Image<Real32>, AtxError>,
) -> bool {
    exists|id: &str, asset: Result<Vec<u8>, AtxError>|
        #![trigger call_ensures(A::read_revision, (assets, id), asset)]
        {
            &&& id@ == mask.revision_id@
            &&& call_ensures(A::read_revision, (assets, id), asset)
            &&& is_weighed(asset, mask, width, height, limits, kernel, r)
        }
}

/// Finds a mask and works out its weights.
pub fn resolve_mask<A: AssetResolver>(
    mask: &MaskRef,
    width: u32,
    height: u32,
    assets: &A,
    limits: &Limits,
    kernel: &Option<Kernel>,
) -> (r: Result<Image<Real32>, AtxError>)
    requires
        width * height <= usize::MAX,
        kernel matches Some(k) ==> k.well_formed(),
    ensures
        is_resolved(*mask, width, height, assets, *limits, *kernel, r),
{
    let id: &str = mask.revision_id.as_str();
    let asset: Result<Vec<u8>, AtxError> = assets.read_revision(id);
    assert(call_ensures(A::read_revision, (assets, id), asset));
    weights_from_asset(asset, mask, width, height, limits, kernel)
}

/// What the weights of a mask depend on.
pub struct MaskKey {
    pub revision_id: Seq<char>,
    pub invert: bool,
    pub feather_bits: u64,
    pub width: u32,
    pub height: u32,
}

/// The key of a mask for an image of a size.
pub open spec fn key_of(mask: MaskRef, width: u32, height: u32) -> MaskKey {
    MaskKey {
        revision_id: mask.revision_id@,
        invert: mask.invert,
        feather_bits: mask.feather_px.bits,
        width,
        height,
    }
}

/// The weights of a mask for an image of a size.
struct MaskEntry {
    revision_id: String,
    invert: bool,
    feather_bits: u64,
    width: u32,
    height: u32,
    weights: Image<Real32>,
}

impl MaskEntry {
    spec fn key(&self) -> MaskKey {
        MaskKey {
            revision_id: self.revision_id@,
            invert: self.invert,
            feather_bits: self.feather_bits,
            width: self.width,
            height: self.height,
        }
    }
}

spec fn entries_map(entries: Seq<MaskEntry>) -> Map<MaskKey, Image<Real32>>
    decreases entries.len(),
{
    if entries.len() == 0 {
        Map::empty()
    } else {
        entries_map(entries.drop_last()).insert(entries.last().key(), entries.last().weights)
    }
}

/// Masks whose weights have been worked out, so that each is worked out only once.
pub struct MaskCache {
    entries: Vec<MaskEntry>,
}

impl View for MaskCache {
    type V = Map<MaskKey, Image<Real32>>;

    closed spec fn view(&self) -> Map<MaskKey, Image<Real32>> {
        entries_map(self.entries@)
    }
}

impl MaskCache {
    /// A cache that holds nothing.
    pub fn new() -> (r: MaskCache)
        ensures
            r@ == Map::<MaskKey, Image<Real32>>::empty(),
    {
        MaskCache { entries: Vec::new() }
    }

    /// The weights of a mask, where they have been worked out.
    pub fn find(&self, mask: &MaskRef, width: u32, height: u32) -> (r: Option<&Image<Real32>>)
        ensures
            match r {
                Some(w) => self@.dom().contains(key_of(*mask, width, height)) && *w
                    == self@[key_of(*mask, width, height)],
                None => !self@.dom().contains(key_of(*mask, width, height)),
            },
    {
        let ghost key = key_of(*mask, width, height);
        let mut n: usize = self.entries.len();
        assert(self.entries@.take(n as int) =~= self.entries@);
        while n > 0
            invariant
                n <= self.entries@.len(),
                key == key_of(*mask, width, height),
                self@.dom().contains(key) == entries_map(
                    self.entries@.take(n as int),
                ).dom().contains(key),
                self@.dom().contains(key) ==> self@[key] == entries_map(
                    self.entries@.take(n as int),
                )[key],
            decreases n,
        {
            let e: &MaskEntry = &self.entries[n - 1];
            let ghost part = self.entries@.take(n as int);
            assert(part.last() == *e);
            assert(part.drop_last() =~= self.entries@.take(n - 1));
            if e.revision_id == mask.revision_id && e.invert == mask.invert && e.feather_bits
                == mask.feather_px.bits && e.width == width && e.height == height {
                assert(e.key() == key);
                return Some(&e.weights);
            }
            assert(e.key() != key);
            n = n - 1;
        }
        None
    }

    /// Keeps the weights of a mask.
    pub fn insert(&mut self, mask: &MaskRef, width: u32, height: u32, weights: Image<Real32>)
        ensures
            final(self)@ == old(self)@.insert(key_of(*mask, width, height), weights),
    {
        let entry: MaskEntry = MaskEntry {
            revision_id: mask.revision_id.clone(),
            invert: mask.invert,
            feather_bits: mask.feather_px.bits,
            width,
            height,
            weights,
        };
        let ghost before = self.entries@;
        self.entries.push(entry);
        assert(self.entries@.drop_last() =~= before);
        assert(entry.key() == key_of(*mask, width, height));
    }
}

impl MaskCache {
    /// The weights of a mask, worked out at the first request and kept for later ones.
    pub fn resolve<A: AssetResolver>(
        &mut self,
        mask: &MaskRef,
        width: u32,
        height: u32,
        assets: &A,
        limits: &Limits,
        kernel: &Option<Kernel>,
    ) -> (r: Result<Image<Real32>, AtxError>)
        requires
            width * height <= usize::MAX,
            kernel matches Some(k) ==> k.well_formed(),
        ensures
            ({
                let key = key_of(*mask, width, height);
                if old(self)@.dom().contains(key) {
                    &&& final(self)@ == old(self)@
                    &&& r matches Ok(w) && same_weights(w, old(self)@[key])
                } else {
                    &&& is_resolved(*mask, width, height, assets, *limits, *kernel, r)
                    &&& r is Err ==> final(self)@ == old(self)@
                    &&& r matches Ok(w) ==> final(self)@.dom() == old(self)@.dom().insert(key)
                        && same_weights(w, final(self)@[key])
                        && final(self)@ == old(self)@.insert(key, final(self)@[key])
                }
            }),
    {
        if let Some(w) = self.find(mask, width, height) {
            return Ok(copy(w));
        }
        match resolve_mask(mask, width, height, assets, limits, kernel) {
            Ok(w) => {
                let kept: Image<Real32> = copy(&w);
                let ghost before = self@;
                self.insert(mask, width, height, kept);
                assert(self@.dom() =~= before.dom().insert(key_of(*mask, width, height)));
                Ok(w)
            },
            Err(e) => Err(e),
        }
    }
}

/// The same weights.
pub open spec fn same_weights(a: Image<Real32>, b: Image<Real32>) -> bool {
    a.width == b.width && a.height == b.height && a.data@ == b.data@
}

/// Whether the edge of a mask is blurred.
pub open spec fn has_feather(mask: MaskRef) -> bool {
    (Real { bits: ZERO }).below(Real { bits: mask.feather_px.bits })
}

/// Whether the edge of a mask is blurred.
pub fn is_feathered(mask: &MaskRef) -> (r: bool)
    ensures
        r == has_feather(*mask),
{
    let zero: Real = Real { bits: ZERO };
    zero.below(Real { bits: mask.feather_px.bits })
}

} // verus!
