//! The steps of a pipeline: what one operation makes of an image, of the mapping from the
//! source to it, and of what is known about it.
use vstd::prelude::*;

use crate::adjust::{adjust, is_adjusted, tone_of};
use crate::binary::{Real, Real32};
use crate::effects::{
    as_real, bytes_fault, change_in_bytes, is_changed_in_bytes, is_kernel, is_ready_on_bytes,
    is_supplied_on_bytes, make_kernel, Supply,
};
use crate::error::{fault_text, op_text, show_op, AtxError, Fault};
use crate::linear::{
    byte_light, ensure_space, lit, pad_to_linear, pad_to_srgb, unpremultiplied_pixel, unpremultiply,
    LinearImage, Space, Tables,
};
use crate::number::ZERO;
use crate::ops::auto_levels::is_leveled;
use crate::ops::blur::{kernel_radius, kernel_reach, Kernel};
use crate::ops::clone_heal::{
    apply_clone, apply_heal, centers_text, cloned_pixel, heal_radius, heal_sigma, healing_radius,
    is_healed, Discs,
};
use crate::ops::finish::{flip, grain, grained, vignette, vignetted};
use crate::ops::color::{ascending, curve_fault, curve_order_fault, points_of};
use crate::ops::fonts::texts;
use crate::ops::gradient::{all_prepared, mapped_colour};
use crate::ops::mask::{blend, blended};
use crate::ops::perspective::{
    correction, not_invertible, padded_part, padding, padding_text, padding_warning, plan,
    plan_fault, read_padding, Plan,
};
use crate::ops::pixelate::{is_pixelated, region_inside, region_text};
use crate::ops::svg::{
    finish_raster, is_raster, no_room_text, overlaid, plan_raster, raster_dims, raster_fault,
    raster_warnings, RasterPlan,
};
use crate::pixel_ops::{
    anchored, bounded_step, crop_rect, crop_view, cut, fit_aspect, fit_aspect_dims, fitted,
    fitted_from, laid_on, mirrored_horizontally, mirrored_vertically, orientation_affine,
    orientation_map, real_of, rect_fits, rect_text, resize_sizes, resize_targets, show_rect,
    show_size, size_text,
};
use crate::raster::{copy, is_mapped, Image, Rgba, Rgba32};
use crate::recipe::{
    aspect_ratio_value, crop_fault, layers_all_pass, mask_of, op_name, operation_fault,
    operation_name, operations_all_pass, parameters_fault, parse_aspect_ratio, recipe_fault, Anchor,
    BlendMode, CoordinateSpace, CropMode, FlipDirection, Operation, Quad, Rect, RotateCrop,
    StripScope, TransformRecipe,
};
use crate::resize::{check_sines, is_resized, resize_lanczos3, sines_fit, zero_text, Sines};
use crate::rotate::{
    is_turned, quarter_turns, quarters, rotate, shift_back, turn_step, turn_warning, warning_view,
    Swing, Turned,
};
use crate::text::{cat2, cat4, cat5, debug_text, quoted};
use crate::exact::{product_is_a_number, quotient_is_a_number, whole_is_finite};
use crate::transform::{
    ends_text, map_source_rect, mapped_rect_is_inside, show_ends, source_rect, Affine, MappedRect,
    Transform,
};

verus! {

// Working spaces.

/// The space that an operation works in; none where it does not matter.
pub open spec fn working_space(op: Operation) -> Option<Space> {
    match op {
        Operation::AutoOrient | Operation::Crop { .. } | Operation::Flip { .. }
        | Operation::StripMetadata { .. } | Operation::Encode { .. } => None,
        Operation::Rotate { .. } | Operation::Resize { .. } | Operation::Perspective { .. }
        | Operation::Blur { .. } | Operation::Median { .. } | Operation::UnsharpMask { .. }
        | Operation::Convolve { .. } | Operation::Clone { .. } | Operation::Heal { .. }
        | Operation::Vignette { .. } | Operation::Pixelate { .. }
        | Operation::WhiteBalance { .. } => Some(Space::Linear),
        Operation::Adjust { .. } | Operation::ColorMatrix { .. } | Operation::Curves { .. }
        | Operation::Levels { .. } | Operation::Lut { .. } | Operation::Hsl { .. }
        | Operation::SvgOverlay { .. } | Operation::Grain { .. } | Operation::GradientMap { .. }
        | Operation::AutoLevels { .. } => Some(Space::Srgb),
    }
}

/// The space that an operation works in; none where it does not matter.
pub fn op_space(op: &Operation) -> (r: Option<Space>)
    ensures
        r == working_space(*op),
{
    match op {
        Operation::AutoOrient | Operation::Crop { .. } | Operation::Flip { .. }
        | Operation::StripMetadata { .. } | Operation::Encode { .. } => None,
        Operation::Rotate { .. } | Operation::Resize { .. } | Operation::Perspective { .. }
        | Operation::Blur { .. } | Operation::Median { .. } | Operation::UnsharpMask { .. }
        | Operation::Convolve { .. } | Operation::Clone { .. } | Operation::Heal { .. }
        | Operation::Vignette { .. } | Operation::Pixelate { .. }
        | Operation::WhiteBalance { .. } => Some(Space::Linear),
        Operation::Adjust { .. } | Operation::ColorMatrix { .. } | Operation::Curves { .. }
        | Operation::Levels { .. } | Operation::Lut { .. } | Operation::Hsl { .. }
        | Operation::SvgOverlay { .. } | Operation::Grain { .. } | Operation::GradientMap { .. }
        | Operation::AutoLevels { .. } => Some(Space::Srgb),
    }
}

/// The space that the first operation that has one works in, from place `i` on.
pub open spec fn first_space(ops: Seq<Operation>, i: int) -> Option<Space>
    decreases ops.len() - i,
{
    if i < 0 || i >= ops.len() {
        None
    } else if working_space(ops[i]) is Some {
        working_space(ops[i])
    } else {
        first_space(ops, i + 1)
    }
}

/// The space that the first operation that has one works in.
pub fn find_space(ops: &Vec<Operation>) -> (r: Option<Space>)
    ensures
        r == first_space(ops@, 0),
{
    let mut i: usize = 0;
    while i < ops.len()
        invariant
            i <= ops@.len(),
            first_space(ops@, 0) == first_space(ops@, i as int),
        decreases ops.len() - i,
    {
        let space: Option<Space> = op_space(&ops[i]);
        if space.is_some() {
            return space;
        }
        i = i + 1;
    }
    None
}

/// The same image.
pub open spec fn is_same(img: LinearImage, out: LinearImage) -> bool {
    out.width == img.width && out.height == img.height && out.data@ == img.data@
}

/// An image moved from one space to another; where they are the same it stays as it is.
pub open spec fn is_moved(
    img: LinearImage,
    from: Space,
    to: Space,
    tables: Tables,
    out: LinearImage,
) -> bool {
    match (from, to) {
        (Space::Linear, Space::Srgb) => is_mapped(img, out, |p: Rgba32| lit(tables.oetf@, p)),
        (Space::Srgb, Space::Linear) => is_mapped(img, out, |p: Rgba32| lit(tables.eotf@, p)),
        _ => is_same(img, out),
    }
}

// What an operation makes.

/// What an operation makes of an image in its working space.
pub struct Made {
    pub img: LinearImage,
    /// What it does to coordinates, step by step.
    pub steps: Vec<Affine>,
    pub warnings: Vec<String>,
    /// Whether it may bring in opacity.
    pub alpha: bool,
}

/// Nothing but the image has changed.
pub open spec fn only_pixels(m: Made) -> bool {
    m.steps@.len() == 0 && m.warnings@.len() == 0 && !m.alpha
}

fn plain(img: LinearImage) -> (m: Made)
    ensures
        m.img == img,
        only_pixels(m),
{
    Made { img, steps: Vec::new(), warnings: Vec::new(), alpha: false }
}

/// A padding colour in a space.
pub open spec fn pad_in(space: Space, tables: Tables, pad: Rgba) -> Rgba32 {
    match space {
        Space::Linear => byte_light(tables.eotf_u8@, pad),
        Space::Srgb => pad_to_srgb(pad),
    }
}

fn to_pad(space: Space, tables: &Tables, pad: Rgba) -> (r: Rgba32)
    requires
        tables.well_formed(),
    ensures
        r == pad_in(space, *tables, pad),
{
    match space {
        Space::Linear => pad_to_linear(tables, pad),
        Space::Srgb => pad_to_srgb(pad),
    }
}

// Crops.

/// What a crop does.
pub enum CropPlan {
    /// It brings the image to an aspect ratio.
    Aspect { ratio: (u32, u32) },
    /// It cuts out a rectangle.
    Cut { rect: Rect, warning: Option<String> },
    /// Nothing is asked for.
    Leave,
}

/// What a crop does, with its text as a character sequence.
pub enum CropView {
    Aspect { ratio: (u32, u32) },
    Cut { rect: Rect, warning: Option<Seq<char>> },
    Leave,
}

impl View for CropPlan {
    type V = CropView;

    open spec fn view(&self) -> CropView {
        match self {
            CropPlan::Aspect { ratio } => CropView::Aspect { ratio: *ratio },
            CropPlan::Cut { rect, warning } => CropView::Cut {
                rect: *rect,
                warning: warning_view(*warning),
            },
            CropPlan::Leave => CropView::Leave,
        }
    }
}

/// What is said of a rectangle of the source that does not lie wholly in the image.
pub open spec fn clamp_text(index: int, rect: Rect, mapped: MappedRect, w: u32, h: u32) -> Seq<char> {
    op_text(
        index,
        "crop"@,
        "source-space rect "@ + rect_text(rect) + " mapped to "@ + ends_text(mapped.raw)
            + " and was clamped to "@ + (rect_text(mapped.rect) + " inside the current "@
            + size_text(w, h) + " image"@),
    )
}

/// What a crop does to an image of `w` by `h`, or what stops it.
pub open spec fn crop_planned(
    index: int,
    aspect_ratio: Option<String>,
    rect: Option<Rect>,
    space: CoordinateSpace,
    xf: Affine,
    w: u32,
    h: u32,
) -> Result<CropView, Seq<char>> {
    match (aspect_ratio, rect) {
        (Some(t), _) => match aspect_ratio_value(t@) {
            Some(ratio) => Ok(CropView::Aspect { ratio }),
            None => Err("invalid aspect_ratio "@ + debug_text(t@)),
        },
        (None, Some(r)) => match space {
            CoordinateSpace::Current => Ok(CropView::Cut { rect: r, warning: None }),
            CoordinateSpace::Source => match source_rect(xf, r, w, h) {
                Err(m) => Err(m),
                Ok(m) => Ok(
                    CropView::Cut {
                        rect: m.rect,
                        warning: if m.clamped {
                            Some(clamp_text(index, r, m, w, h))
                        } else {
                            None
                        },
                    },
                ),
            },
        },
        (None, None) => Ok(CropView::Leave),
    }
}

fn show_clamp(index: usize, rect: Rect, mapped: MappedRect, w: u32, h: u32) -> (r: String)
    ensures
        r@ == clamp_text(index as int, rect, mapped, w, h),
{
    let asked: String = show_rect(rect);
    let ends: String = show_ends(mapped.raw);
    let got: String = show_rect(mapped.rect);
    let size: String = show_size(w, h);
    let head: String = cat5(
        "source-space rect ",
        asked.as_str(),
        " mapped to ",
        ends.as_str(),
        " and was clamped to ",
    );
    let tail: String = cat4(got.as_str(), " inside the current ", size.as_str(), " image");
    let message: String = cat2(head.as_str(), tail.as_str());
    show_op(index, "crop", message.as_str())
}

/// Finds out what a crop does.
pub fn plan_crop(
    index: usize,
    aspect_ratio: &Option<String>,
    rect: &Option<Rect>,
    space: CoordinateSpace,
    xf: Affine,
    w: u32,
    h: u32,
) -> (r: Result<CropPlan, String>)
    ensures
        match r {
            Ok(p) => crop_planned(index as int, *aspect_ratio, *rect, space, xf, w, h) == Ok::<
                CropView,
                Seq<char>,
            >(p@),
            Err(m) => crop_planned(index as int, *aspect_ratio, *rect, space, xf, w, h) == Err::<
                CropView,
                Seq<char>,
            >(m@),
        },
{
    if let Some(t) = aspect_ratio {
        return match parse_aspect_ratio(t.as_str()) {
            Some(ratio) => Ok(CropPlan::Aspect { ratio }),
            None => {
                let shown: String = quoted(t.as_str());
                Err(cat2("invalid aspect_ratio ", shown.as_str()))
            },
        };
    }
    match rect {
        None => Ok(CropPlan::Leave),
        Some(r) => {
            match space {
                CoordinateSpace::Current => Ok(CropPlan::Cut { rect: *r, warning: None }),
                CoordinateSpace::Source => match map_source_rect(xf, *r, w, h) {
                    Err(m) => Err(m),
                    Ok(m) => {
                        let warning: Option<String> = if m.clamped {
                            Some(show_clamp(index, *r, m, w, h))
                        } else {
                            None
                        };
                        Ok(CropPlan::Cut { rect: m.rect, warning })
                    },
                },
            }
        },
    }
}

/// What is said of a rectangle that does not lie in the image.
pub open spec fn bounds_text(rect: Rect, w: u32, h: u32) -> Seq<char> {
    "crop rect "@ + rect_text(rect) + " is out of bounds for image "@ + size_text(w, h)
}

/// What stops a crop.
pub open spec fn cropping_fault(
    index: int,
    aspect_ratio: Option<String>,
    rect: Option<Rect>,
    pad_color: Option<String>,
    space: CoordinateSpace,
    xf: Affine,
    w: u32,
    h: u32,
) -> Option<Seq<char>> {
    if padding(pad_color) is None {
        Some("invalid pad_color "@ + debug_text(pad_color->0@))
    } else {
        match crop_planned(index, aspect_ratio, rect, space, xf, w, h) {
            Err(m) => Some(m),
            Ok(CropView::Cut { rect, .. }) => if rect_fits(rect, w, h) {
                None
            } else {
                Some(bounds_text(rect, w, h))
            },
            Ok(_) => None,
        }
    }
}

/// The shift of a crop or a pad that puts the old origin at an offset.
#[verifier::allow_in_spec]
pub fn shift_to(mode: CropMode, x: u32, y: u32) -> Affine
    returns
        (match mode {
            CropMode::Crop => shift_back(x, y),
            CropMode::Pad => Transform::translate(
                Real::nearest_to(x as int),
                Real::nearest_to(y as int),
            ),
        }),
{
    match mode {
        CropMode::Crop => shift_back(x, y),
        CropMode::Pad => Transform::translate(
            Real::from_integer(x as i64),
            Real::from_integer(y as i64),
        ),
    }
}

/// An image brought to an aspect ratio, and the shift of its origin.
pub open spec fn is_fitted(
    img: LinearImage,
    ratio: (u32, u32),
    anchor: Anchor,
    mode: CropMode,
    pad: Rgba32,
    out: LinearImage,
    step: Affine,
) -> bool {
    &&& (out.width, out.height) == fitted(img.width, img.height, ratio, mode)
    &&& match mode {
        CropMode::Crop => {
            let x = anchored(img.width, out.width, anchor, true);
            let y = anchored(img.height, out.height, anchor, false);
            cut(img, x as int, y as int, out) && step == shift_to(mode, x, y)
        },
        CropMode::Pad => {
            let x = anchored(out.width, img.width, anchor, true);
            let y = anchored(out.height, img.height, anchor, false);
            laid_on(img, x as int, y as int, pad, out) && step == shift_to(mode, x, y)
        },
    }
}

/// What a crop makes.
pub open spec fn is_cropped(
    plan: CropView,
    anchor: Anchor,
    mode: CropMode,
    pad: Rgba,
    space: Space,
    tables: Tables,
    img: LinearImage,
    m: Made,
) -> bool {
    match plan {
        CropView::Aspect { ratio } => {
            &&& m.steps@.len() == 1
            &&& is_fitted(
                img,
                ratio,
                anchor,
                mode,
                pad_in(space, tables, pad),
                m.img,
                m.steps@[0],
            )
            &&& m.warnings@.len() == 0
            &&& m.alpha == (mode == CropMode::Pad && pad.a < 255)
        },
        CropView::Cut { rect, warning } => {
            &&& m.img.width == rect.width
            &&& m.img.height == rect.height
            &&& cut(img, rect.x as int, rect.y as int, m.img)
            &&& m.steps@ == seq![shift_back(rect.x, rect.y)]
            &&& texts(m.warnings@) == (match warning {
                Some(t) => seq![t],
                None => seq![],
            })
            &&& !m.alpha
        },
        CropView::Leave => is_same(img, m.img) && only_pixels(m),
    }
}

fn make_crop(
    plan: CropPlan,
    anchor: Anchor,
    mode: CropMode,
    pad: Rgba,
    space: Space,
    tables: &Tables,
    img: &LinearImage,
) -> (r: Result<Made, String>)
    requires
        img.well_formed(),
        tables.well_formed(),
        plan matches CropPlan::Aspect { ratio } ==> ({
            let size = fitted(img.width, img.height, ratio, mode);
            size.0 * size.1 <= usize::MAX
        }),
    ensures
        match r {
            Ok(m) => {
                &&& m.img.well_formed()
                &&& plan@ matches CropView::Cut { rect, .. } ==> rect_fits(
                    rect,
                    img.width,
                    img.height,
                )
                &&& is_cropped(plan@, anchor, mode, pad, space, *tables, *img, m)
            },
            Err(t) => {
                &&& plan@ matches CropView::Cut { rect, .. }
                &&& !rect_fits(rect, img.width, img.height)
                &&& t@ == bounds_text(rect, img.width, img.height)
            },
        },
{
    match plan {
        CropPlan::Leave => Ok(plain(copy(img))),
        CropPlan::Aspect { ratio } => {
            let (out, offset): (LinearImage, (i64, i64)) = fit_aspect(
                img,
                ratio,
                anchor,
                mode,
                to_pad(space, tables, pad),
            );
            let (x, y): (u32, u32) = match mode {
                CropMode::Crop => ((-offset.0) as u32, (-offset.1) as u32),
                CropMode::Pad => (offset.0 as u32, offset.1 as u32),
            };
            let mut steps: Vec<Affine> = Vec::new();
            steps.push(shift_to(mode, x, y));
            Ok(
                Made {
                    img: out,
                    steps,
                    warnings: Vec::new(),
                    alpha: mode == CropMode::Pad && pad.a < 255,
                },
            )
        },
        CropPlan::Cut { rect, warning } => {
            let out: LinearImage = match crop_rect(img, rect) {
                Ok(out) => out,
                Err(m) => {
                    return Err(m);
                },
            };
            let mut steps: Vec<Affine> = Vec::new();
            steps.push(shift_back(rect.x, rect.y));
            let mut warnings: Vec<String> = Vec::new();
            let ghost said = warning_view(warning);
            match warning {
                Some(t) => {
                    warnings.push(t);
                },
                None => {},
            }
            assert(texts(warnings@) =~= (match said {
                Some(t) => seq![t],
                None => seq![],
            }));
            assert(steps@ =~= seq![shift_back(rect.x, rect.y)]);
            Ok(Made { img: out, steps, warnings, alpha: false })
        },
    }
}

// Changes of size.

/// What a change of size does to coordinates.
pub open spec fn resize_steps(iw: u32, ih: u32, sizes: ((u32, u32), (u32, u32))) -> Seq<Affine> {
    let scale = scale_between(iw, ih, sizes.0.0, sizes.0.1);
    if sizes.1 != sizes.0 {
        seq![
            scale,
            shift_back(
                ((sizes.0.0 - sizes.1.0) / 2) as u32,
                ((sizes.0.1 - sizes.1.1) / 2) as u32,
            ),
        ]
    } else {
        seq![scale]
    }
}

/// The change of scale from one size to another.
#[verifier::allow_in_spec]
pub fn scale_between(iw: u32, ih: u32, sw: u32, sh: u32) -> Affine
    returns
        Transform::scale(
            Real::nearest_to(sw as int).over(Real::nearest_to(iw as int)),
            Real::nearest_to(sh as int).over(Real::nearest_to(ih as int)),
        ),
{
    Transform::scale(
        Real::from_integer(sw as i64).over(Real::from_integer(iw as i64)),
        Real::from_integer(sh as i64).over(Real::from_integer(ih as i64)),
    )
}

/// An image scaled to one size and cut to another in its middle.
pub open spec fn is_scaled(
    img: LinearImage,
    sizes: ((u32, u32), (u32, u32)),
    across: Seq<Vec<Sines>>,
    down: Seq<Vec<Sines>>,
    out: LinearImage,
) -> bool {
    exists|mid: LinearImage| #[trigger]
        is_resized(img, across, down, mid) && (mid.width, mid.height) == sizes.0 && (out.width,
        out.height) == sizes.1 && (if sizes.1 != sizes.0 {
            cut(
                mid,
                (sizes.0.0 - sizes.1.0) / 2,
                (sizes.0.1 - sizes.1.1) / 2,
                out,
            )
        } else {
            is_same(mid, out)
        })
}

fn make_resize(
    img: &LinearImage,
    sizes: ((u32, u32), (u32, u32)),
    across: &Vec<Vec<Sines>>,
    down: &Vec<Vec<Sines>>,
) -> (r: Result<Made, String>)
    requires
        img.well_formed(),
        img.width > 0,
        img.height > 0,
        sizes.1.0 <= sizes.0.0,
        sizes.1.1 <= sizes.0.1,
        sizes.0.0 * img.height <= usize::MAX,
        sizes.0.0 * sizes.0.1 <= usize::MAX,
        sizes.0 != (img.width, img.height) && sizes.0.0 > 0 && sizes.0.1 > 0 ==> sines_fit(
            img.width,
            sizes.0.0,
            across@,
        ) && sines_fit(img.height, sizes.0.1, down@),
    ensures
        match r {
            Ok(m) => {
                &&& sizes.0.0 > 0 && sizes.0.1 > 0
                &&& m.img.well_formed()
                &&& is_scaled(*img, sizes, across@, down@, m.img)
                &&& m.steps@ == resize_steps(img.width, img.height, sizes)
                &&& m.warnings@.len() == 0
                &&& !m.alpha
            },
            Err(t) => (sizes.0.0 == 0 || sizes.0.1 == 0) && t@ == zero_text(
                img.width,
                img.height,
                sizes.0.0,
                sizes.0.1,
            ),
        },
{
    let (sw, sh): (u32, u32) = sizes.0;
    let (cw, ch): (u32, u32) = sizes.1;
    let mid: LinearImage = match resize_lanczos3(img, sw, sh, across, down) {
        Ok(mid) => mid,
        Err(m) => {
            return Err(m);
        },
    };
    let mut steps: Vec<Affine> = Vec::new();
    steps.push(scale_between(img.width, img.height, sw, sh));
    let ghost made = mid;
    let out: LinearImage = if cw != sw || ch != sh {
        let x: u32 = (sw - cw) / 2;
        let y: u32 = (sh - ch) / 2;
        steps.push(shift_back(x, y));
        crop_view(&mid, x, y, cw, ch)
    } else {
        mid
    };
    assert(is_resized(*img, across@, down@, made));
    assert(steps@ =~= resize_steps(img.width, img.height, sizes));
    Ok(Made { img: out, steps, warnings: Vec::new(), alpha: false })
}

// Perspective.

/// What stops a perspective correction.
pub open spec fn perspective_stop(
    op_quad: Option<Quad>,
    pad_color: Option<String>,
    tan_v: Real,
    tan_h: Real,
    warped: Option<LinearImage>,
    w: u32,
    h: u32,
) -> Option<Seq<char>> {
    match plan_fault(w, h, op_quad, tan_v, tan_h, pad_color) {
        Some(f) => Some(fault_text(f)),
        None => if warped is None {
            Some(
                fault_text(Fault::InvalidRecipe("perspective: the transform is not invertible"@)),
            )
        } else {
            None
        },
    }
}

/// What is said of a perspective correction.
pub open spec fn perspective_warnings(index: int, plan: Plan, w: u32, h: u32) -> Seq<Seq<char>> {
    let part = padded_part(plan, w, h);
    if (Real { bits: ZERO }).below(part) {
        seq![op_text(index, "perspective"@, padding_text(part, plan.out_w, plan.out_h))]
    } else {
        seq![]
    }
}

/// What a perspective correction makes.
pub open spec fn is_corrected(
    index: int,
    plan: Plan,
    warped: LinearImage,
    img: LinearImage,
    m: Made,
) -> bool {
    &&& is_mapped(warped, m.img, |p: Rgba32| unpremultiplied_pixel(p))
    &&& m.steps@ == seq![plan.step]
    &&& texts(m.warnings@) == perspective_warnings(index, plan, img.width, img.height)
    &&& !m.alpha
}

/// A plan is that of a correction.
pub open spec fn is_plan(
    quad: Option<Quad>,
    pad_color: Option<String>,
    tan_v: Real,
    tan_h: Real,
    w: u32,
    h: u32,
    plan: Plan,
) -> bool {
    &&& (plan.step, (plan.out_w, plan.out_h)) == correction(quad, tan_v, tan_h, w, h)
    &&& Some(plan.inverse) == plan.step.inverted()
    &&& Some(plan.pad) == padding(pad_color)
}

fn make_perspective(
    index: usize,
    quad: &Option<Quad>,
    pad_color: &Option<String>,
    tan_v: Real,
    tan_h: Real,
    warped: &Option<LinearImage>,
    img: &LinearImage,
) -> (r: Result<Made, String>)
    requires
        img.well_formed(),
        warped matches Some(out) ==> out.well_formed(),
    ensures
        match r {
            Ok(m) => {
                &&& perspective_stop(
                    *quad,
                    *pad_color,
                    tan_v,
                    tan_h,
                    *warped,
                    img.width,
                    img.height,
                ) is None
                &&& m.img.well_formed()
                &&& exists|p: Plan| #[trigger]
                    is_plan(*quad, *pad_color, tan_v, tan_h, img.width, img.height, p)
                        && is_corrected(index as int, p, warped->0, *img, m)
            },
            Err(t) => perspective_stop(
                *quad,
                *pad_color,
                tan_v,
                tan_h,
                *warped,
                img.width,
                img.height,
            ) == Some(t@),
        },
{
    let p: Plan = match plan(img.width, img.height, quad, tan_v, tan_h, pad_color) {
        Ok(p) => p,
        Err(e) => {
            return Err(e.message());
        },
    };
    let out: &LinearImage = match warped {
        Some(out) => out,
        None => {
            return Err(not_invertible().message());
        },
    };
    let mut steps: Vec<Affine> = Vec::new();
    steps.push(p.step);
    let mut warnings: Vec<String> = Vec::new();
    match padding_warning(p, img.width, img.height) {
        Some(t) => {
            warnings.push(show_op(index, "perspective", t.as_str()));
        },
        None => {},
    }
    assert(texts(warnings@) =~= perspective_warnings(index as int, p, img.width, img.height));
    assert(steps@ =~= seq![p.step]);
    let m: Made = Made { img: unpremultiply(out), steps, warnings, alpha: false };
    assert(is_plan(*quad, *pad_color, tan_v, tan_h, img.width, img.height, p));
    assert(is_corrected(index as int, p, *out, *img, m));
    Ok(m)
}

// Drawings.

/// What stops a drawing.
pub open spec fn drawing_fault(
    asset: Result<Vec<u8>, AtxError>,
    fonts: Result<Option<Vec<Vec<u8>>>, AtxError>,
    rendered: Option<Vec<u8>>,
    width: Option<u32>,
    height: Option<u32>,
) -> Option<Seq<char>> {
    match (asset, fonts) {
        (Err(e), _) => Some(fault_text(e@)),
        (Ok(_), Err(e)) => Some(fault_text(e@)),
        (Ok(bytes), Ok(f)) => match raster_fault(bytes@, width, height, f) {
            Some(m) => Some(m),
            None => if rendered is None {
                let size = raster_dims(bytes@, width, height, f);
                Some(no_room_text(size.0, size.1))
            } else {
                None
            },
        },
    }
}

/// Texts under the name of an operation.
pub open spec fn under_op(index: int, op: Seq<char>, list: Seq<Seq<char>>) -> Seq<Seq<char>> {
    Seq::new(list.len(), |i: int| op_text(index, op, list[i]))
}

/// What a drawing makes.
pub open spec fn is_drawn(
    index: int,
    bytes: Seq<u8>,
    fonts: Option<Vec<Vec<u8>>>,
    rendered: Seq<u8>,
    width: Option<u32>,
    height: Option<u32>,
    x: i64,
    y: i64,
    opacity: Real32,
    mode: BlendMode,
    img: LinearImage,
    m: Made,
) -> bool {
    &&& m.img.width == img.width
    &&& m.img.height == img.height
    &&& exists|raster: LinearImage| #[trigger]
        is_raster(rendered, raster) && (raster.width, raster.height) == raster_dims(
            bytes,
            width,
            height,
            fonts,
        ) && forall|i: int, j: int|
            0 <= i < img.width && 0 <= j < img.height ==> #[trigger] m.img.pixel(i, j) == overlaid(
                img,
                raster,
                x,
                y,
                mode,
                opacity,
                i,
                j,
            )
    &&& m.steps@.len() == 0
    &&& texts(m.warnings@) == under_op(index, "svg_overlay"@, raster_warnings(bytes, fonts))
    &&& !m.alpha
}

fn put_under(index: usize, op: &str, list: &Vec<String>) -> (r: Vec<String>)
    ensures
        texts(r@) == under_op(index as int, op@, texts(list@)),
{
    let mut r: Vec<String> = Vec::new();
    let mut i: usize = 0;
    while i < list.len()
        invariant
            i <= list@.len(),
            texts(r@) == under_op(index as int, op@, texts(list@)).take(i as int),
        decreases list.len() - i,
    {
        let ghost before = texts(r@);
        let t: String = show_op(index, op, list[i].as_str());
        let ghost said = t@;
        r.push(t);
        assert(texts(r@) =~= before.push(said));
        i = i + 1;
        assert(texts(r@) =~= under_op(index as int, op@, texts(list@)).take(i as int));
    }
    assert(texts(r@) =~= under_op(index as int, op@, texts(list@)));
    r
}

/// What was rendered has four bytes for each pixel of the raster.
pub open spec fn fills_raster(
    asset: Result<Vec<u8>, AtxError>,
    fonts: Result<Option<Vec<Vec<u8>>>, AtxError>,
    rendered: Option<Vec<u8>>,
    width: Option<u32>,
    height: Option<u32>,
) -> bool {
    match (asset, fonts, rendered) {
        (Ok(bytes), Ok(f), Some(b)) => {
            let size = raster_dims(bytes@, width, height, f);
            raster_fault(bytes@, width, height, f) is None ==> b@.len() == 4 * (size.0 * size.1)
        },
        _ => true,
    }
}

fn make_drawing(
    index: usize,
    asset: &Result<Vec<u8>, AtxError>,
    fonts: &Result<Option<Vec<Vec<u8>>>, AtxError>,
    rendered: &Option<Vec<u8>>,
    width: Option<u32>,
    height: Option<u32>,
    x: i64,
    y: i64,
    opacity: Real32,
    mode: BlendMode,
    img: &LinearImage,
) -> (r: Result<Made, String>)
    requires
        img.well_formed(),
        fills_raster(*asset, *fonts, *rendered, width, height),
    ensures
        match r {
            Ok(m) => {
                &&& drawing_fault(*asset, *fonts, *rendered, width, height) is None
                &&& m.img.well_formed()
                &&& is_drawn(
                    index as int,
                    asset->Ok_0@,
                    fonts->Ok_0,
                    rendered->0@,
                    width,
                    height,
                    x,
                    y,
                    opacity,
                    mode,
                    *img,
                    m,
                )
            },
            Err(t) => drawing_fault(*asset, *fonts, *rendered, width, height) == Some(t@),
        },
{
    let bytes: &Vec<u8> = match asset {
        Ok(b) => b,
        Err(e) => {
            return Err(e.message());
        },
    };
    let loaded: &Option<Vec<Vec<u8>>> = match fonts {
        Ok(f) => f,
        Err(e) => {
            return Err(e.message());
        },
    };
    let p: RasterPlan = match plan_raster(bytes.as_slice(), width, height, loaded) {
        Ok(p) => p,
        Err(m) => {
            return Err(m);
        },
    };
    let raster: LinearImage = match finish_raster(p.width, p.height, rendered) {
        Ok(raster) => raster,
        Err(m) => {
            return Err(m);
        },
    };
    let out: LinearImage = crate::ops::svg::apply(img, &raster, x, y, mode, opacity);
    assert(is_raster(rendered->0@, raster));
    let warnings: Vec<String> = put_under(index, "svg_overlay", &p.warnings);
    Ok(Made { img: out, steps: Vec::new(), warnings, alpha: false })
}

// Healing.

/// What healing makes, with a kernel from the exponentials that were given.
pub open spec fn is_mended(
    img: LinearImage,
    at: Discs,
    radius: u32,
    feather_px: Real,
    raw: Seq<Real>,
    out: LinearImage,
) -> bool {
    let r = healing_radius(img.width, img.height, radius);
    exists|k: Kernel| #[trigger]
        is_kernel(heal_sigma(r), raw, k) && is_healed(img, at, r, feather_px, k, out)
}

// All operations.

/// The places of a copy.
#[verifier::allow_in_spec]
pub fn discs(src_x: u32, src_y: u32, dest_x: u32, dest_y: u32) -> Discs
    returns
        (Discs { src_x, src_y, dest_x, dest_y }),
{
    Discs { src_x, src_y, dest_x, dest_y }
}

/// The parameters of an operation are such as its check lets through.
pub open spec fn is_ready(op: Operation) -> bool {
    match op {
        Operation::Heal { radius, .. } => radius < 0x8000,
        _ => is_ready_on_bytes(op),
    }
}

/// The images that an operation makes have no more pixels than can be counted.
pub open spec fn has_room(op: Operation, w: u32, h: u32) -> bool {
    match op {
        Operation::Crop { aspect_ratio: Some(t), mode, .. } => match aspect_ratio_value(t@) {
            Some(ratio) => {
                let size = fitted(w, h, ratio, mode);
                size.0 * size.1 <= usize::MAX
            },
            None => true,
        },
        Operation::Resize { width, height, fit, without_enlargement } => {
            let size = resize_sizes(w, h, width, height, fit, without_enlargement).0;
            size.0 * h <= usize::MAX && size.0 * size.1 <= usize::MAX
        },
        _ => true,
    }
}

/// Whether the images that an operation makes have no more pixels than can be counted.
pub fn check_room(op: &Operation, w: u32, h: u32) -> (r: bool)
    ensures
        r == has_room(*op, w, h),
{
    match op {
        Operation::Crop { aspect_ratio, mode, .. } => {
            if let Some(t) = aspect_ratio {
                if let Some(ratio) = parse_aspect_ratio(t.as_str()) {
                    let (a, b): (u32, u32) = fit_aspect_dims(w, h, ratio, *mode);
                    return can_count(a, b);
                }
            }
            true
        },
        Operation::Resize { width, height, fit, without_enlargement } => {
            let (a, b): (u32, u32) = resize_targets(
                w,
                h,
                *width,
                *height,
                *fit,
                *without_enlargement,
            ).0;
            can_count(a, h) && can_count(a, b)
        },
        _ => true,
    }
}

fn can_count(a: u32, b: u32) -> (r: bool)
    ensures
        r == (a * b <= usize::MAX),
{
    assert(0 <= a * b <= 0xFFFF_FFFF * 0xFFFF_FFFF) by (nonlinear_arith)
        requires
            0 <= a <= 0xFFFF_FFFF,
            0 <= b <= 0xFFFF_FFFF,
    ;
    a as u128 * b as u128 <= usize::MAX as u128
}

/// An operation has been given what it needs for an image of `w` by `h`.
pub open spec fn is_supplied(op: Operation, supply: Supply, w: u32, h: u32) -> bool {
    match op {
        Operation::Rotate { angle_degrees, crop } => {
            &&& supply matches Supply::Rotation { warped, .. }
            &&& quarters(as_real(&angle_degrees)) is None ==> warped.well_formed()
            &&& quarters(as_real(&angle_degrees)) is None && crop
                == RotateCrop::LargestInscribedRect ==> warped.width == w && warped.height == h
        },
        Operation::Resize { width, height, fit, without_enlargement } => {
            let size = resize_sizes(w, h, width, height, fit, without_enlargement).0;
            &&& supply matches Supply::Sines { across, down }
            &&& size != (w, h) && size.0 > 0 && size.1 > 0 ==> sines_fit(w, size.0, across@)
                && sines_fit(h, size.1, down@)
        },
        Operation::Perspective { .. } => supply matches Supply::Perspective { warped, .. } && (
        warped matches Some(out) ==> out.well_formed()),
        Operation::Heal { radius, .. } => supply matches Supply::Exponentials(raw) && raw@.len()
            == 2 * kernel_reach(heal_sigma(healing_radius(w, h, radius))) + 1,
        Operation::SvgOverlay { width, height, .. } => {
            &&& supply matches Supply::Drawing { asset, fonts, rendered }
            &&& fills_raster(asset, fonts, rendered, width, height)
        },
        _ => is_supplied_on_bytes(op, supply),
    }
}

/// Whether what was rendered has four bytes for each pixel of the raster.
fn check_raster(
    asset: &Result<Vec<u8>, AtxError>,
    fonts: &Result<Option<Vec<Vec<u8>>>, AtxError>,
    rendered: &Option<Vec<u8>>,
    width: Option<u32>,
    height: Option<u32>,
) -> (r: bool)
    ensures
        r == fills_raster(*asset, *fonts, *rendered, width, height),
{
    match (asset, fonts, rendered) {
        (Ok(bytes), Ok(f), Some(b)) => {
            match plan_raster(bytes.as_slice(), width, height, f) {
                Ok(p) => b.len() as u128 == 4 * (p.width as u128 * p.height as u128),
                Err(_) => true,
            }
        },
        _ => true,
    }
}

/// Whether there are the exponentials of a kernel.
fn check_exponentials(supply: &Supply, sigma: Real) -> (r: bool)
    ensures
        r == (supply matches Supply::Exponentials(raw) && raw@.len() == 2 * kernel_reach(sigma)
            + 1),
{
    match supply {
        Supply::Exponentials(raw) => raw.len() as u64 == 2 * kernel_radius(sigma) as u64 + 1,
        _ => false,
    }
}

/// Whether an operation has been given what it needs for an image.
pub fn check_supply(op: &Operation, supply: &Supply, img: &LinearImage) -> (r: bool)
    ensures
        r == is_supplied(*op, *supply, img.width, img.height),
{
    match op {
        Operation::Rotate { angle_degrees, crop } => match supply {
            Supply::Rotation { warped, .. } => {
                quarter_turns(as_real(angle_degrees)).is_some() || (warped.is_complete() && (*crop
                    != RotateCrop::LargestInscribedRect || (warped.width == img.width
                    && warped.height == img.height)))
            },
            _ => false,
        },
        Operation::Resize { width, height, fit, without_enlargement } => match supply {
            Supply::Sines { across, down } => {
                let (w, h): (u32, u32) = (img.width, img.height);
                let (a, b): (u32, u32) = resize_targets(
                    w,
                    h,
                    *width,
                    *height,
                    *fit,
                    *without_enlargement,
                ).0;
                (a == w && b == h) || a == 0 || b == 0 || (check_sines(w, a, across)
                    && check_sines(h, b, down))
            },
            _ => false,
        },
        Operation::Perspective { .. } => match supply {
            Supply::Perspective { warped, .. } => match warped {
                Some(out) => out.is_complete(),
                None => true,
            },
            _ => false,
        },
        Operation::Heal { radius, .. } => check_exponentials(
            supply,
            heal_sigma(heal_radius(img, *radius)),
        ),
        Operation::SvgOverlay { width, height, .. } => match supply {
            Supply::Drawing { asset, fonts, rendered } => check_raster(
                asset,
                fonts,
                rendered,
                *width,
                *height,
            ),
            _ => false,
        },
        Operation::Levels { .. } => match supply {
            Supply::Powers(p) => p.len() == 256,
            _ => false,
        },
        Operation::Blur { sigma, .. } => check_exponentials(supply, as_real(sigma)),
        Operation::UnsharpMask { radius, .. } => check_exponentials(supply, as_real(radius)),
        Operation::Lut { .. } => matches!(supply, Supply::Cube { .. }),
        _ => true,
    }
}

/// Why an operation fails on an image of `w` by `h`.
pub open spec fn make_fault(op: Operation, index: int, supply: Supply, xf: Affine, w: u32, h: u32) -> Option<
    Seq<char>,
> {
    match (op, supply) {
        (
            Operation::Crop { aspect_ratio, rect, pad_color, coordinate_space, .. },
            _,
        ) => cropping_fault(index, aspect_ratio, rect, pad_color, coordinate_space, xf, w, h),
        (Operation::Resize { width, height, fit, without_enlargement }, _) => {
            let size = resize_sizes(w, h, width, height, fit, without_enlargement).0;
            if size.0 == 0 || size.1 == 0 {
                Some(zero_text(w, h, size.0, size.1))
            } else {
                None
            }
        },
        (
            Operation::Perspective { quad, pad_color, .. },
            Supply::Perspective { tan_v, tan_h, warped },
        ) => perspective_stop(quad, pad_color, tan_v, tan_h, warped, w, h),
        (
            Operation::SvgOverlay { width, height, .. },
            Supply::Drawing { asset, fonts, rendered },
        ) => drawing_fault(asset, fonts, rendered, width, height),
        _ => repaint_fault(op, supply, w, h),
    }
}

/// What an operation makes of an image in its working space.
pub open spec fn is_made(
    op: Operation,
    index: int,
    supply: Supply,
    space: Space,
    tables: Tables,
    xf: Affine,
    img: LinearImage,
    m: Made,
) -> bool {
    let w = img.width;
    let h = img.height;
    match (op, supply) {
        (
            Operation::Rotate { angle_degrees, crop },
            Supply::Rotation { swing, warped },
        ) => {
            let degrees = as_real(&angle_degrees);
            &&& is_turned(img, degrees, crop, warped, swing, m.img)
            &&& m.steps@ == seq![
                turn_step(w, h, degrees, crop, swing, m.img.width, m.img.height),
            ]
            &&& texts(m.warnings@) == (match turn_warning(w, h, degrees, crop, swing) {
                Some(t) => seq![t],
                None => seq![],
            })
            &&& !m.alpha
        },
        (
            Operation::Crop { aspect_ratio, rect, anchor, mode, pad_color, coordinate_space },
            _,
        ) => {
            &&& crop_planned(index, aspect_ratio, rect, coordinate_space, xf, w, h) matches Ok(plan)
            &&& padding(pad_color) matches Some(pad)
            &&& is_cropped(plan, anchor, mode, pad, space, tables, img, m)
        },
        (
            Operation::Resize { width, height, fit, without_enlargement },
            Supply::Sines { across, down },
        ) => {
            let sizes = resize_sizes(w, h, width, height, fit, without_enlargement);
            &&& is_scaled(img, sizes, across@, down@, m.img)
            &&& m.steps@ == resize_steps(w, h, sizes)
            &&& m.warnings@.len() == 0
            &&& !m.alpha
        },
        (
            Operation::Perspective { quad, pad_color, .. },
            Supply::Perspective { tan_v, tan_h, warped },
        ) => exists|p: Plan| #[trigger]
            is_plan(quad, pad_color, tan_v, tan_h, w, h, p) && is_corrected(
                index,
                p,
                warped->0,
                img,
                m,
            ),
        (Operation::Flip { direction }, _) => {
            &&& match direction {
                FlipDirection::Horizontal => mirrored_horizontally(img, m.img),
                FlipDirection::Vertical => mirrored_vertically(img, m.img),
            }
            &&& m.steps@ == seq![orientation_map(w, h, mirror_of(direction))]
            &&& m.warnings@.len() == 0
            &&& !m.alpha
        },
        (
            Operation::SvgOverlay { x, y, width, height, opacity, blend_mode, .. },
            Supply::Drawing { asset, fonts, rendered },
        ) => is_drawn(
            index,
            asset->Ok_0@,
            fonts->Ok_0,
            rendered->0@,
            width,
            height,
            x,
            y,
            as_real(&opacity).narrowed(),
            blend_mode,
            img,
            m,
        ),
        _ => only_pixels(m) && is_repainted(op, supply, space, tables, img, m.img),
    }
}

/// The orientation that mirrors in a direction.
#[verifier::allow_in_spec]
pub fn mirror_of(direction: FlipDirection) -> u16
    returns
        (match direction {
            FlipDirection::Horizontal => 2u16,
            FlipDirection::Vertical => 4u16,
        }),
{
    match direction {
        FlipDirection::Horizontal => 2,
        FlipDirection::Vertical => 4,
    }
}

/// What an operation that leaves the size as it is does to the pixels.
pub open spec fn is_repainted(
    op: Operation,
    supply: Supply,
    space: Space,
    tables: Tables,
    img: LinearImage,
    out: LinearImage,
) -> bool {
    match (op, supply) {
        (Operation::AutoOrient, _) | (Operation::StripMetadata { .. }, _) | (
            Operation::Encode { .. },
            _,
        ) => is_same(img, out),
        (
            Operation::Adjust { brightness, contrast, saturation, sharpness, .. },
            _,
        ) => is_adjusted(
            img,
            tone_of(as_real(&brightness), as_real(&contrast), as_real(&saturation)),
            as_real(&sharpness),
            out,
        ),
        (Operation::Vignette { strength, radius, feather }, _) => {
            &&& out.width == img.width && out.height == img.height
            &&& forall|x: int, y: int|
                0 <= x < img.width && 0 <= y < img.height ==> #[trigger] out.pixel(x, y)
                    == vignetted(
                    img,
                    as_real(&strength),
                    as_real(&radius),
                    as_real(&feather),
                    x,
                    y,
                )
        },
        (Operation::Grain { amount, size, monochrome, seed, .. }, _) => {
            &&& out.width == img.width && out.height == img.height
            &&& forall|x: int, y: int|
                0 <= x < img.width && 0 <= y < img.height ==> #[trigger] out.pixel(x, y) == grained(
                    img.pixel(x, y),
                    as_real(&amount),
                    size,
                    monochrome,
                    seed,
                    x,
                    y,
                )
        },
        (Operation::GradientMap { stops, .. }, _) => is_mapped(
            img,
            out,
            |p: Rgba32| mapped_colour(all_prepared(stops@), p),
        ),
        (Operation::AutoLevels { clip_percent, per_channel, .. }, _) => is_leveled(
            img,
            as_real(&clip_percent),
            per_channel,
            out,
        ),
        (Operation::Pixelate { block_size, region }, _) => is_pixelated(
            img,
            region_inside(region, img.width, img.height)->0,
            if block_size == 0 {
                1
            } else {
                block_size as int
            },
            out,
        ),
        (
            Operation::Clone { src_x, src_y, dest_x, dest_y, radius, feather_px },
            _,
        ) => {
            &&& out.width == img.width && out.height == img.height
            &&& forall|x: int, y: int|
                0 <= x < img.width && 0 <= y < img.height ==> #[trigger] out.pixel(x, y)
                    == cloned_pixel(
                    img,
                    discs(src_x, src_y, dest_x, dest_y),
                    radius,
                    as_real(&feather_px),
                    x,
                    y,
                )
        },
        (
            Operation::Heal { src_x, src_y, dest_x, dest_y, radius, feather_px },
            Supply::Exponentials(raw),
        ) => is_mended(
            img,
            discs(src_x, src_y, dest_x, dest_y),
            radius,
            as_real(&feather_px),
            raw@,
            out,
        ),
        _ => is_changed_in_bytes(op, supply, space, tables, img, out),
    }
}

/// Why an operation that leaves the size as it is fails.
pub open spec fn repaint_fault(op: Operation, supply: Supply, w: u32, h: u32) -> Option<Seq<char>> {
    match (op, supply) {
        (Operation::Pixelate { region, .. }, _) => if region_inside(region, w, h) is None {
            Some(region_text(region->0, w, h))
        } else {
            None
        },
        (Operation::Clone { src_x, src_y, dest_x, dest_y, .. }, _) => centers_text(
            "clone"@,
            w,
            h,
            discs(src_x, src_y, dest_x, dest_y),
        ),
        (Operation::Heal { src_x, src_y, dest_x, dest_y, .. }, _) => centers_text(
            "heal"@,
            w,
            h,
            discs(src_x, src_y, dest_x, dest_y),
        ),
        _ => bytes_fault(op, supply),
    }
}

/// An operation that only repaints an image.
pub open spec fn is_repainting(op: Operation) -> bool {
    match op {
        Operation::Rotate { .. } | Operation::Crop { .. } | Operation::Resize { .. }
        | Operation::Perspective { .. } | Operation::Flip { .. }
        | Operation::SvgOverlay { .. } => false,
        _ => true,
    }
}

/// Applies an operation that only repaints an image.
#[verifier::rlimit(60)]
fn repaint(op: &Operation, supply: &Supply, space: Space, tables: &Tables, img: &LinearImage) -> (r:
    Result<LinearImage, String>)
    requires
        img.well_formed(),
        img.width > 0,
        img.height > 0,
        tables.well_formed(),
        is_repainting(*op),
        is_ready(*op),
        is_supplied(*op, *supply, img.width, img.height),
    ensures
        match r {
            Ok(out) => {
                &&& repaint_fault(*op, *supply, img.width, img.height) is None
                &&& out.well_formed()
                &&& is_repainted(*op, *supply, space, *tables, *img, out)
            },
            Err(t) => repaint_fault(*op, *supply, img.width, img.height) == Some(t@),
        },
{
    match op {
        Operation::AutoOrient | Operation::StripMetadata { .. } | Operation::Encode { .. } => Ok(
            copy(img),
        ),
        Operation::Adjust { brightness, contrast, saturation, sharpness, .. } => Ok(
            adjust(
                img,
                as_real(brightness),
                as_real(contrast),
                as_real(saturation),
                as_real(sharpness),
            ),
        ),
        Operation::Vignette { strength, radius, feather } => Ok(
            vignette(img, as_real(strength), as_real(radius), as_real(feather)),
        ),
        Operation::Grain { amount, size, monochrome, seed, .. } => Ok(
            grain(img, as_real(amount), *size, *monochrome, *seed),
        ),
        Operation::GradientMap { stops, .. } => Ok(crate::ops::gradient::apply(img, stops)),
        Operation::AutoLevels { clip_percent, per_channel, .. } => Ok(
            crate::ops::auto_levels::apply(img, as_real(clip_percent), *per_channel),
        ),
        Operation::Pixelate { block_size, region } => crate::ops::pixelate::apply(
            img,
            *block_size,
            region,
        ),
        Operation::Clone { src_x, src_y, dest_x, dest_y, radius, feather_px } => apply_clone(
            img,
            discs(*src_x, *src_y, *dest_x, *dest_y),
            *radius,
            as_real(feather_px),
        ),
        Operation::Heal { src_x, src_y, dest_x, dest_y, radius, feather_px } => {
            match supply {
                Supply::Exponentials(raw) => {
                    let reach: u32 = heal_radius(img, *radius);
                    let kernel: Kernel = make_kernel(heal_sigma(reach), raw);
                    apply_heal(
                        img,
                        discs(*src_x, *src_y, *dest_x, *dest_y),
                        *radius,
                        as_real(feather_px),
                        &kernel,
                    )
                },
                _ => Err(String::new()),
            }
        },
        Operation::Rotate { .. } | Operation::Crop { .. } | Operation::Resize { .. }
        | Operation::Perspective { .. } | Operation::Flip { .. }
        | Operation::SvgOverlay { .. } => Err(String::new()),
        _ => change_in_bytes(op, supply, space, tables, img),
    }
}

fn make_rotation(
    degrees: Real,
    crop: RotateCrop,
    swing: Swing,
    warped: &LinearImage,
    img: &LinearImage,
) -> (m: Made)
    requires
        img.well_formed(),
        img.width > 0,
        img.height > 0,
        quarters(degrees) is None ==> warped.well_formed(),
        quarters(degrees) is None && crop == RotateCrop::LargestInscribedRect ==> warped.width
            == img.width && warped.height == img.height,
    ensures
        m.img.well_formed(),
        is_turned(*img, degrees, crop, *warped, swing, m.img),
        m.steps@ == seq![
            turn_step(
                img.width,
                img.height,
                degrees,
                crop,
                swing,
                m.img.width,
                m.img.height,
            ),
        ],
        texts(m.warnings@) == (match turn_warning(img.width, img.height, degrees, crop, swing) {
            Some(t) => seq![t],
            None => seq![],
        }),
        !m.alpha,
{
    let turned: Turned = rotate(img, degrees, crop, warped, swing);
    let mut steps: Vec<Affine> = Vec::new();
    steps.push(turned.transform);
    let mut warnings: Vec<String> = Vec::new();
    let ghost said = warning_view(turned.warning);
    match turned.warning {
        Some(t) => {
            warnings.push(t);
        },
        None => {},
    }
    assert(texts(warnings@) =~= (match said {
        Some(t) => seq![t],
        None => seq![],
    }));
    let ghost step = turned.transform;
    assert(steps@ =~= seq![step]);
    Made { img: turned.image, steps, warnings, alpha: false }
}

/// Applies an operation to an image in its working space.
#[verifier::rlimit(60)]
pub fn make(
    op: &Operation,
    index: usize,
    supply: &Supply,
    space: Space,
    tables: &Tables,
    xf: Affine,
    img: &LinearImage,
) -> (r: Result<Made, String>)
    requires
        img.well_formed(),
        img.width > 0,
        img.height > 0,
        tables.well_formed(),
        is_ready(*op),
        has_room(*op, img.width, img.height),
        is_supplied(*op, *supply, img.width, img.height),
    ensures
        match r {
            Ok(m) => {
                &&& make_fault(*op, index as int, *supply, xf, img.width, img.height) is None
                &&& m.img.well_formed()
                &&& is_made(*op, index as int, *supply, space, *tables, xf, *img, m)
            },
            Err(t) => make_fault(*op, index as int, *supply, xf, img.width, img.height) == Some(t@),
        },
{
    match (op, supply) {
        (
            Operation::Rotate { angle_degrees, crop },
            Supply::Rotation { swing, warped },
        ) => Ok(make_rotation(as_real(angle_degrees), *crop, *swing, warped, img)),
        (
            Operation::Crop { aspect_ratio, rect, anchor, mode, pad_color, coordinate_space },
            _,
        ) => {
            let pad: Rgba = match read_padding(pad_color) {
                Some(p) => p,
                None => {
                    let shown: String = match pad_color {
                        Some(c) => quoted(c.as_str()),
                        None => String::new(),
                    };
                    return Err(cat2("invalid pad_color ", shown.as_str()));
                },
            };
            let plan: CropPlan = match plan_crop(
                index,
                aspect_ratio,
                rect,
                *coordinate_space,
                xf,
                img.width,
                img.height,
            ) {
                Ok(p) => p,
                Err(m) => {
                    return Err(m);
                },
            };
            make_crop(plan, *anchor, *mode, pad, space, tables, img)
        },
        (
            Operation::Resize { width, height, fit, without_enlargement },
            Supply::Sines { across, down },
        ) => {
            let sizes: ((u32, u32), (u32, u32)) = resize_targets(
                img.width,
                img.height,
                *width,
                *height,
                *fit,
                *without_enlargement,
            );
            make_resize(img, sizes, across, down)
        },
        (
            Operation::Perspective { quad, pad_color, .. },
            Supply::Perspective { tan_v, tan_h, warped },
        ) => make_perspective(index, quad, pad_color, *tan_v, *tan_h, warped, img),
        (Operation::Flip { direction }, _) => {
            let mut steps: Vec<Affine> = Vec::new();
            steps.push(orientation_affine(img.width, img.height, mirror_of(*direction)));
            assert(steps@ =~= seq![
                orientation_map(img.width, img.height, mirror_of(*direction)),
            ]);
            Ok(Made { img: flip(img, *direction), steps, warnings: Vec::new(), alpha: false })
        },
        (
            Operation::SvgOverlay { x, y, width, height, opacity, blend_mode, .. },
            Supply::Drawing { asset, fonts, rendered },
        ) => make_drawing(
            index,
            asset,
            fonts,
            rendered,
            *width,
            *height,
            *x,
            *y,
            as_real(opacity).narrowed(),
            *blend_mode,
            img,
        ),
        _ => match repaint(op, supply, space, tables, img) {
            Ok(out) => Ok(plain(out)),
            Err(t) => Err(t),
        },
    }
}

// The pipeline.

/// The state of a pipeline.
pub struct Pipeline {
    pub img: LinearImage,
    pub space: Space,
    /// From the coordinates of the source to those of the image.
    pub xf: Affine,
    pub warnings: Vec<String>,
    pub strip: Option<StripScope>,
    pub has_alpha: bool,
}

/// A mapping and steps after it.
pub open spec fn carried(xf: Affine, steps: Seq<Affine>) -> Affine
    decreases steps.len(),
{
    if steps.len() == 0 {
        xf
    } else {
        carried(xf, steps.drop_last()).followed_by(steps.last())
    }
}

fn carry(xf: Affine, steps: &Vec<Affine>) -> (r: Affine)
    ensures
        r == carried(xf, steps@),
{
    let mut r: Affine = xf;
    let mut i: usize = 0;
    assert(steps@.take(0) =~= Seq::empty());
    while i < steps.len()
        invariant
            i <= steps@.len(),
            r == carried(xf, steps@.take(i as int)),
        decreases steps.len() - i,
    {
        r = r.followed_by(steps[i]);
        i = i + 1;
        assert(steps@.take(i as int).drop_last() =~= steps@.take(i - 1));
    }
    assert(steps@.take(i as int) =~= steps@);
    r
}

/// The space that a pipeline is in after an operation.
pub open spec fn space_after(op: Operation, space: Space) -> Space {
    match working_space(op) {
        Some(s) => s,
        None => space,
    }
}

/// An error of an operation.
pub open spec fn failed(index: int, op: Operation, message: Seq<char>) -> Fault {
    Fault::Operation { index, op: operation_name(op), message }
}

fn fail(index: usize, op: &Operation, message: String) -> (r: AtxError)
    ensures
        r@ == failed(index as int, *op, message@),
{
    AtxError::Operation { index, op: op_name(op).to_owned(), message }
}

/// What is said of a mask on an operation that changes the size.
pub open spec fn mask_size_text() -> Seq<char> {
    "mask is only supported for ops that preserve the image dimensions"@
}

/// What is wrong with the weights of an operation's mask: too large an asset is reported as
/// it is, everything else as a failure of the operation.
pub open spec fn weights_fault(index: int, op: Operation, cause: Fault) -> Fault {
    match cause {
        Fault::LimitExceeded(_) => cause,
        _ => failed(index, op, fault_text(cause)),
    }
}

/// Puts what is wrong with a mask down to its operation.
pub fn weights_error(index: usize, op: &Operation, cause: AtxError) -> (r: AtxError)
    ensures
        r@ == weights_fault(index as int, *op, cause@),
{
    match cause {
        AtxError::LimitExceeded(m) => AtxError::LimitExceeded(m),
        other => {
            let text: String = other.message();
            fail(index, op, text)
        },
    }
}

/// What a mask lets through of a change.
pub open spec fn is_blended(
    before: LinearImage,
    after: LinearImage,
    weights: Option<Image<Real32>>,
    out: LinearImage,
) -> bool {
    match weights {
        None => out == after,
        Some(w) => {
            &&& out.width == after.width && out.height == after.height
            &&& forall|i: int|
                0 <= i < out.data@.len() ==> #[trigger] out.data@[i] == blended(
                    before.data@[i],
                    after.data@[i],
                    w.data@[i],
                )
        },
    }
}

/// A pipeline after an operation without a fault. `before` is its image in the working space
/// and `m` what the operation made of it.
pub open spec fn is_next(
    st: Pipeline,
    op: Operation,
    before: LinearImage,
    m: Made,
    weights: Option<Image<Real32>>,
    next: Pipeline,
) -> bool {
    &&& is_blended(before, m.img, weights, next.img)
    &&& next.space == space_after(op, st.space)
    &&& next.xf == carried(st.xf, m.steps@)
    &&& texts(next.warnings@) == texts(st.warnings@) + texts(m.warnings@)
    &&& next.strip == (match op {
        Operation::StripMetadata { scope } => Some(scope),
        _ => st.strip,
    })
    &&& next.has_alpha == (st.has_alpha || m.alpha)
}

/// The weights that a mask gave.
pub open spec fn weights_of(weights: Option<Result<Image<Real32>, AtxError>>) -> Option<
    Image<Real32>,
> {
    match weights {
        Some(Ok(w)) => Some(w),
        _ => None,
    }
}

fn join(a: Vec<String>, b: Vec<String>) -> (r: Vec<String>)
    ensures
        r@ == a@ + b@,
{
    let mut r: Vec<String> = a;
    let mut rest: Vec<String> = b;
    r.append(&mut rest);
    r
}

/// What comes of what an operation made under a mask: an error, or the pipeline after it.
pub open spec fn is_end(
    st: Pipeline,
    index: int,
    op: Operation,
    weights: Option<Result<Image<Real32>, AtxError>>,
    before: LinearImage,
    m: Made,
    r: Result<Pipeline, AtxError>,
) -> bool {
    if weights is Some && (m.img.width != before.width || m.img.height != before.height) {
        r matches Err(e) && e@ == failed(index, op, mask_size_text())
    } else {
        match weights {
            Some(Err(cause)) => r matches Err(e) && e@ == weights_fault(index, op, cause@),
            _ => r matches Ok(next) && is_next(st, op, before, m, weights_of(weights), next),
        }
    }
}

/// What comes of an operation on an image in its working space.
pub open spec fn is_run_from(
    st: Pipeline,
    index: int,
    op: Operation,
    supply: Supply,
    weights: Option<Result<Image<Real32>, AtxError>>,
    tables: Tables,
    before: LinearImage,
    r: Result<Pipeline, AtxError>,
) -> bool {
    match make_fault(op, index, supply, st.xf, before.width, before.height) {
        Some(t) => r matches Err(e) && e@ == failed(index, op, t),
        None => exists|m: Made| #[trigger]
            is_made(
                op,
                index,
                supply,
                space_after(op, st.space),
                tables,
                st.xf,
                before,
                m,
            ) && m.img.well_formed() && is_end(st, index, op, weights, before, m, r),
    }
}

/// What an operation and its mask report, or the pipeline after it.
pub open spec fn is_run(
    st: Pipeline,
    index: int,
    op: Operation,
    supply: Supply,
    weights: Option<Result<Image<Real32>, AtxError>>,
    tables: Tables,
    r: Result<Pipeline, AtxError>,
) -> bool {
    exists|before: LinearImage| #[trigger]
        is_moved(st.img, st.space, space_after(op, st.space), tables, before) && is_run_from(
            st,
            index,
            op,
            supply,
            weights,
            tables,
            before,
            r,
        )
}

/// Runs one operation of a pipeline. `weights` are what its mask gave, where it has one.
pub fn run_op(
    st: Pipeline,
    index: usize,
    op: &Operation,
    supply: &Supply,
    weights: Option<Result<Image<Real32>, AtxError>>,
    tables: &Tables,
) -> (r: Result<Pipeline, AtxError>)
    requires
        st.img.well_formed(),
        st.img.width > 0,
        st.img.height > 0,
        tables.well_formed(),
        is_ready(*op),
        has_room(*op, st.img.width, st.img.height),
        is_supplied(*op, *supply, st.img.width, st.img.height),
        weights is Some == mask_of(*op) is Some,
        weights matches Some(Ok(w)) ==> w.data@.len() == st.img.data@.len(),
    ensures
        is_run(st, index as int, *op, *supply, weights, *tables, r),
        r matches Ok(next) ==> next.img.well_formed(),
{
    let target: Space = match op_space(op) {
        Some(s) => s,
        None => st.space,
    };
    let ghost was = st;
    let ghost given = weights;
    let before: LinearImage = ensure_space(st.img, st.space, target, tables);
    assert(is_moved(was.img, was.space, target, *tables, before));
    let m: Made = match make(op, index, supply, target, tables, st.xf, &before) {
        Ok(m) => m,
        Err(t) => {
            return Err(fail(index, op, t));
        },
    };
    let ghost made = m;
    assert(is_made(*op, index as int, *supply, target, *tables, was.xf, before, made));
    let out: LinearImage = match weights {
        None => m.img,
        Some(given) => {
            if m.img.width != before.width || m.img.height != before.height {
                return Err(
                    fail(
                        index,
                        op,
                        "mask is only supported for ops that preserve the image dimensions".to_owned(),
                    ),
                );
            }
            match given {
                Ok(w) => blend(&before, &m.img, &w.data),
                Err(e) => {
                    return Err(weights_error(index, op, e));
                },
            }
        },
    };
    let strip: Option<StripScope> = match op {
        Operation::StripMetadata { scope } => Some(*scope),
        _ => st.strip,
    };
    let next: Pipeline = Pipeline {
        img: out,
        space: target,
        xf: carry(st.xf, &m.steps),
        warnings: join(st.warnings, m.warnings),
        strip,
        has_alpha: st.has_alpha || m.alpha,
    };
    proof {
        assert(texts(next.warnings@) =~= texts(was.warnings@) + texts(made.warnings@));
        assert(is_next(was, *op, before, made, weights_of(given), next));
    }
    Ok(next)
}

// What the check of a recipe lets through is ready to run.

proof fn curve_ascends(index: int, name: Seq<char>, points: Seq<[u8; 2]>, from: int, i: int, j: int)
    requires
        0 <= from <= i < j < points.len(),
        curve_order_fault(index, name, points, from) is None,
    ensures
        points[i][0] < points[j][0],
    decreases points.len() - from, j - i,
{
    if from < i {
        curve_ascends(index, name, points, from + 1, i, j);
    } else if i + 1 < j {
        curve_ascends(index, name, points, from + 1, i + 1, j);
    }
}

proof fn checked_curve_ascends(index: int, name: Seq<char>, channel: Option<Vec<[u8; 2]>>)
    requires
        curve_fault(index, name, channel) is None,
    ensures
        ascending(points_of(channel)),
{
    if let Some(v) = channel {
        assert forall|i: int, j: int| 0 <= i < j < v@.len() implies v@[i][0] < v@[j][0] by {
            curve_ascends(index, name, v@, 0, i, j);
        }
    }
}

/// An operation that the check of a recipe lets through is ready to run.
pub proof fn checked_is_ready(index: int, count: int, op: Operation)
    requires
        operation_fault(index, count, op) is None,
    ensures
        is_ready(op),
{
    match op {
        Operation::Curves { master, red, green, blue, .. } => {
            checked_curve_ascends(index, "master"@, master);
            checked_curve_ascends(index, "red"@, red);
            checked_curve_ascends(index, "green"@, green);
            checked_curve_ascends(index, "blue"@, blue);
        },
        _ => {},
    }
}

/// Every operation of a recipe that passes its check is ready to run.
pub proof fn recipe_is_ready(recipe: TransformRecipe, i: int)
    requires
        recipe_fault(recipe) is None,
        0 <= i < recipe.operations@.len(),
    ensures
        is_ready(recipe.operations@[i]),
{
    operations_all_pass(recipe.operations@, 0, i);
    checked_is_ready(i, recipe.operations@.len() as int, recipe.operations@[i]);
}

/// Every operation of a layer of a recipe that passes its check is ready to run.
pub proof fn layers_are_ready(recipe: TransformRecipe, i: int, j: int)
    requires
        recipe_fault(recipe) is None,
        recipe.layers is Some,
        0 <= i < recipe.layers->0@.len(),
        0 <= j < recipe.layers->0@[i].ops@.len(),
    ensures
        is_ready(recipe.layers->0@[i].ops@[j]),
{
    let ops = recipe.layers->0@[i].ops@;
    layers_all_pass(recipe.layers->0@, 0, i);
    operations_all_pass(ops, 0, j);
    checked_is_ready(j, ops.len() as int, ops[j]);
}

/// The images that were supplied to an operation have pixels.
pub open spec fn supplies_pixels(supply: Supply) -> bool {
    match supply {
        Supply::Rotation { warped, .. } => warped.width > 0 && warped.height > 0,
        Supply::Perspective { warped: Some(out), .. } => out.width > 0 && out.height > 0,
        _ => true,
    }
}

/// A length over a number, and times one, are numbers.
proof fn quotients_are_numbers(n: u32, v: Real)
    requires
        n > 0,
        !v.is_nan(),
    ensures
        !real_of(n).over(v).is_nan(),
        !real_of(n).times(v).is_nan(),
        !real_of(n).is_nan(),
{
    reveal(Real::nearest_to);
    reveal(Real::spec_over);
    reveal(Real::spec_times);
    whole_is_finite(n);
    let a = real_of(n).bits;
    quotient_is_a_number(a, v.bits);
    product_is_a_number(a, v.bits);
}

proof fn fitted_has_pixels(
    w: u32,
    h: u32,
    from: (u32, u32),
    target: Real,
    mode: CropMode,
    n: nat,
)
    requires
        w > 0,
        h > 0,
        from.0 > 0,
        from.1 > 0,
        !target.is_nan(),
    ensures
        fitted_from(w, h, from, target, mode, n).0 > 0,
        fitted_from(w, h, from, target, mode, n).1 > 0,
    decreases n,
{
    if n > 0 {
        quotients_are_numbers(from.0, target);
        quotients_are_numbers(from.1, target);
        fitted_has_pixels(
            w,
            h,
            bounded_step(w, h, from, target, mode),
            target,
            mode,
            (n - 1) as nat,
        );
    }
}

proof fn cropped_has_pixels(
    index: int,
    aspect_ratio: Option<String>,
    rect: Option<Rect>,
    anchor: Anchor,
    mode: CropMode,
    pad: Rgba,
    coordinate_space: CoordinateSpace,
    space: Space,
    tables: Tables,
    xf: Affine,
    img: LinearImage,
    m: Made,
)
    requires
        img.width > 0,
        img.height > 0,
        crop_fault(index, aspect_ratio, rect, coordinate_space) is None,
        crop_planned(
            index,
            aspect_ratio,
            rect,
            coordinate_space,
            xf,
            img.width,
            img.height,
        ) matches Ok(plan) && is_cropped(plan, anchor, mode, pad, space, tables, img, m),
    ensures
        m.img.width > 0,
        m.img.height > 0,
{
    let (w, h) = (img.width, img.height);
    match (aspect_ratio, rect) {
        (Some(t), _) => {
            let ratio = aspect_ratio_value(t@)->0;
            let target = real_of(ratio.0).over(real_of(ratio.1));
            assert(!real_of(ratio.1).is_nan()) by {
                reveal(Real::nearest_to);
                whole_is_finite(ratio.1);
            }
            quotients_are_numbers(ratio.0, real_of(ratio.1));
            fitted_has_pixels(w, h, (w, h), target, mode, 8);
        },
        (None, Some(rect)) => {
            if coordinate_space == CoordinateSpace::Source {
                mapped_rect_is_inside(xf, rect, w, h, source_rect(xf, rect, w, h)->Ok_0);
            }
        },
        _ => {},
    }
}

proof fn made_has_pixels(
    op: Operation,
    index: int,
    count: int,
    supply: Supply,
    space: Space,
    tables: Tables,
    xf: Affine,
    img: LinearImage,
    m: Made,
)
    requires
        img.width > 0,
        img.height > 0,
        parameters_fault(index, count, op) is None,
        is_supplied(op, supply, img.width, img.height),
        supplies_pixels(supply),
        make_fault(op, index, supply, xf, img.width, img.height) is None,
        is_made(op, index, supply, space, tables, xf, img, m),
    ensures
        m.img.width > 0,
        m.img.height > 0,
{
    match op {
        Operation::Crop { aspect_ratio, rect, anchor, mode, pad_color, coordinate_space } => {
            cropped_has_pixels(
                index,
                aspect_ratio,
                rect,
                anchor,
                mode,
                padding(pad_color)->0,
                coordinate_space,
                space,
                tables,
                xf,
                img,
                m,
            );
        },
        Operation::Rotate { .. } => {},
        Operation::Resize { .. } => {},
        Operation::Perspective { .. } => {},
        Operation::Flip { .. } => {},
        Operation::SvgOverlay { .. } => {},
        _ => {
            repainted_keeps_size(op, supply, space, tables, img, m.img);
        },
    }
}

/// An operation that only repaints an image leaves its size as it is.
pub proof fn repainted_keeps_size(
    op: Operation,
    supply: Supply,
    space: Space,
    tables: Tables,
    img: LinearImage,
    out: LinearImage,
)
    requires
        is_repainted(op, supply, space, tables, img, out),
    ensures
        out.width == img.width,
        out.height == img.height,
{
}

/// An operation that passed its check leaves no image without pixels.
pub proof fn images_keep_pixels(
    st: Pipeline,
    index: int,
    count: int,
    op: Operation,
    supply: Supply,
    weights: Option<Result<Image<Real32>, AtxError>>,
    tables: Tables,
    next: Pipeline,
)
    requires
        st.img.width > 0,
        st.img.height > 0,
        operation_fault(index, count, op) is None,
        is_supplied(op, supply, st.img.width, st.img.height),
        supplies_pixels(supply),
        is_run(st, index, op, supply, weights, tables, Ok::<Pipeline, AtxError>(next)),
    ensures
        next.img.width > 0,
        next.img.height > 0,
{
    let space = space_after(op, st.space);
    let r = Ok::<Pipeline, AtxError>(next);
    let before = choose|before: LinearImage| #[trigger]
        is_moved(st.img, st.space, space, tables, before) && is_run_from(
            st,
            index,
            op,
            supply,
            weights,
            tables,
            before,
            r,
        );
    let m = choose|m: Made| #[trigger]
        is_made(op, index, supply, space, tables, st.xf, before, m) && m.img.well_formed()
            && is_end(st, index, op, weights, before, m, r);
    made_has_pixels(op, index, count, supply, space, tables, st.xf, before, m);
}

} // verus!
