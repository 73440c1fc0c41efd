//! What a mask lets through: a masked run of an operation, held against a run without the mask.
use vstd::prelude::*;

use crate::binary::Real32;
use crate::effects::{
    as_real, from_byte_pixel, is_byte_effect, is_changed_in_bytes, is_cube, is_on_bytes,
    to_byte_pixel, Supply,
};
use crate::error::AtxError;
use crate::linear::{LinearImage, Space, Tables};
use crate::ops::fonts::texts;
use crate::ops::lut::{lut_pixel, CubeLut};
use crate::ops::mask::blended;
use crate::pipeline::{
    is_end, is_made, is_moved, is_repainted, is_repainting, is_run, is_run_from,
    is_supplied, make_fault, repainted_keeps_size, space_after, working_space, Made, Pipeline,
};
use crate::raster::{is_mapped, Image, Rgba, Rgba32};
use crate::recipe::{mask_of, operation_name, Operation};
use crate::repeat::{makings_agree, moves_agree};
use crate::transform::Affine;

verus! {

/// An operation on the whole image in place of one on what a mask lets through.
pub open spec fn without_mask(op: Operation) -> Operation {
    match op {
        Operation::Adjust { brightness, contrast, saturation, sharpness, .. } => Operation::Adjust {
            brightness,
            contrast,
            saturation,
            sharpness,
            mask: None,
        },
        Operation::ColorMatrix { matrix, .. } => Operation::ColorMatrix { matrix, mask: None },
        Operation::Curves { master, red, green, blue, .. } => Operation::Curves {
            master,
            red,
            green,
            blue,
            mask: None,
        },
        Operation::Levels { in_black, in_white, gamma, out_black, out_white, .. } => {
            Operation::Levels { in_black, in_white, gamma, out_black, out_white, mask: None }
        },
        Operation::Blur { sigma, .. } => Operation::Blur { sigma, mask: None },
        Operation::Median { radius, .. } => Operation::Median { radius, mask: None },
        Operation::UnsharpMask { amount, radius, threshold, .. } => Operation::UnsharpMask {
            amount,
            radius,
            threshold,
            mask: None,
        },
        Operation::Lut { lut_revision_id, strength, .. } => Operation::Lut {
            lut_revision_id,
            strength,
            mask: None,
        },
        Operation::WhiteBalance { temperature, tint, .. } => Operation::WhiteBalance {
            temperature,
            tint,
            mask: None,
        },
        Operation::Hsl { red, orange, yellow, green, aqua, blue, purple, magenta, .. } => {
            Operation::Hsl {
                red,
                orange,
                yellow,
                green,
                aqua,
                blue,
                purple,
                magenta,
                mask: None,
            }
        },
        Operation::Convolve { kernel, size, divisor, offset, .. } => Operation::Convolve {
            kernel,
            size,
            divisor,
            offset,
            mask: None,
        },
        Operation::Grain { amount, size, monochrome, seed, .. } => Operation::Grain {
            amount,
            size,
            monochrome,
            seed,
            mask: None,
        },
        Operation::GradientMap { stops, .. } => Operation::GradientMap { stops, mask: None },
        Operation::AutoLevels { clip_percent, per_channel, .. } => Operation::AutoLevels {
            clip_percent,
            per_channel,
            mask: None,
        },
        _ => op,
    }
}

/// A mask plays no part in how an operation is called, supplied and told apart.
proof fn masks_do_not_name(op: Operation, supply: Supply, index: int, xf: Affine, w: u32, h: u32)
    ensures
        mask_of(without_mask(op)) is None,
        working_space(without_mask(op)) == working_space(op),
        operation_name(without_mask(op)) == operation_name(op),
        is_supplied(without_mask(op), supply, w, h) == is_supplied(op, supply, w, h),
        make_fault(without_mask(op), index, supply, xf, w, h) == make_fault(
            op,
            index,
            supply,
            xf,
            w,
            h,
        ),
        mask_of(op) is Some ==> is_repainting(op),
{
}

/// A mask plays no part in what an operation makes of bytes.
proof fn masks_do_not_paint_bytes(op: Operation, supply: Supply, a: Image<Rgba>, b: Image<Rgba>)
    requires
        is_byte_effect(without_mask(op), supply, a, b),
    ensures
        is_byte_effect(op, supply, a, b),
{
    match (op, supply) {
        (Operation::Lut { strength, .. }, Supply::Cube { asset, .. }) => {
            let lut = choose|lut: CubeLut| #[trigger]
                is_cube(asset, lut) && is_mapped(
                    a,
                    b,
                    |p: Rgba| lut_pixel(lut, as_real(&strength), p),
                );
            assert(is_cube(asset, lut));
            assert(is_mapped(a, b, |p: Rgba| lut_pixel(lut, as_real(&strength), p)));
        },
        _ => {},
    }
}

/// A mask plays no part in what an operation makes of an image.
proof fn masks_do_not_paint(
    op: Operation,
    index: int,
    supply: Supply,
    space: Space,
    tables: Tables,
    xf: Affine,
    img: LinearImage,
    m: Made,
)
    requires
        is_made(without_mask(op), index, supply, space, tables, xf, img, m),
    ensures
        is_made(op, index, supply, space, tables, xf, img, m),
{
    if is_on_bytes(op) {
        let (a, b) = choose|a: Image<Rgba>, b: Image<Rgba>| #[trigger]
            is_byte_effect(without_mask(op), supply, a, b) && is_mapped(
                img,
                a,
                |p: Rgba32| to_byte_pixel(space, tables, p),
            ) && is_mapped(b, m.img, |p: Rgba| from_byte_pixel(space, tables, p));
        masks_do_not_paint_bytes(op, supply, a, b);
        assert(is_changed_in_bytes(op, supply, space, tables, img, m.img));
    }
}

/// The pixels of a masked run are those that the operation alone would have made, as far as
/// the mask lets them through, and those of the image as it was in the operation's space.
pub open spec fn is_let_through(
    before: LinearImage,
    whole: LinearImage,
    weights: Image<Real32>,
    out: LinearImage,
) -> bool {
    &&& out.width == whole.width == before.width
    &&& out.height == whole.height == before.height
    &&& forall|i: int|
        0 <= i < out.data@.len() ==> #[trigger] out.data@[i] == blended(
            before.data@[i],
            whole.data@[i],
            weights.data@[i],
        )
}

/// What a masked run and one without the mask come to: the same error, or the same state but
/// for the pixels that the mask keeps.
pub open spec fn is_local(
    st: Pipeline,
    op: Operation,
    weights: Image<Real32>,
    tables: Tables,
    masked: Result<Pipeline, AtxError>,
    whole: Result<Pipeline, AtxError>,
) -> bool {
    match (masked, whole) {
        (Ok(x), Ok(y)) => {
            &&& exists|before: LinearImage| #[trigger]
                is_moved(st.img, st.space, space_after(op, st.space), tables, before)
                    && is_let_through(before, y.img, weights, x.img)
            &&& x.space == y.space
            &&& x.xf == y.xf
            &&& texts(x.warnings@) == texts(y.warnings@)
            &&& x.strip == y.strip
            &&& x.has_alpha == y.has_alpha
        },
        (Err(x), Err(y)) => x@ == y@,
        _ => false,
    }
}

/// A run of an operation under a mask comes to what a run without the mask comes to, but for
/// the pixels: where the weight is one the pixel is that of the run without the mask, where it
/// is nought the pixel is the one that was there, and elsewhere it lies between them by the
/// weight.
pub proof fn masked_run_is_local(
    st: Pipeline,
    index: int,
    op: Operation,
    supply: Supply,
    weights: Image<Real32>,
    tables: Tables,
    masked: Result<Pipeline, AtxError>,
    whole: Result<Pipeline, AtxError>,
)
    requires
        st.img.well_formed(),
        mask_of(op) is Some,
        is_supplied(op, supply, st.img.width, st.img.height),
        masked matches Ok(next) ==> next.img.well_formed(),
        is_run(st, index, op, supply, Some(Ok(weights)), tables, masked),
        is_run(st, index, without_mask(op), supply, None, tables, whole),
    ensures
        is_local(st, op, weights, tables, masked, whole),
{
    let bare = without_mask(op);
    let space = space_after(op, st.space);
    let c = choose|before: LinearImage| #[trigger]
        is_moved(st.img, st.space, space, tables, before) && is_run_from(
            st,
            index,
            op,
            supply,
            Some(Ok(weights)),
            tables,
            before,
            masked,
        );
    masks_do_not_name(op, supply, index, st.xf, st.img.width, st.img.height);
    let d = choose|before: LinearImage| #[trigger]
        is_moved(st.img, st.space, space, tables, before) && is_run_from(
            st,
            index,
            bare,
            supply,
            None,
            tables,
            before,
            whole,
        );
    moves_agree(st.img, st.img, st.space, space, tables, c, d);
    if make_fault(op, index, supply, st.xf, c.width, c.height) is None {
        let m = choose|m: Made| #[trigger]
            is_made(op, index, supply, space, tables, st.xf, c, m) && m.img.well_formed()
                && is_end(st, index, op, Some(Ok(weights)), c, m, masked);
        let n = choose|m: Made| #[trigger]
            is_made(bare, index, supply, space, tables, st.xf, d, m) && m.img.well_formed()
                && is_end(st, index, bare, None, d, m, whole);
        masks_do_not_paint(op, index, supply, space, tables, st.xf, d, n);
        assert(is_repainted(op, supply, space, tables, c, m.img));
        repainted_keeps_size(op, supply, space, tables, c, m.img);
        makings_agree(op, index, supply, supply, space, tables, st.xf, c, d, m, n);
        assert(is_moved(st.img, st.space, space, tables, c));
        assert(is_let_through(c, whole->Ok_0.img, weights, masked->Ok_0.img));
    }
}

} // verus!
