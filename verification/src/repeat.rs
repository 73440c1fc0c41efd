//! Running a recipe again: the same input under the same recipe gives the same result.
//!
//! Two runs hold their pixels, texts and tables in places of their own, so that what they
//! share is what these places hold.
use vstd::prelude::*;

use crate::adjust::{is_adjusted, is_toned, neighbours, sharpened, tone_of, Tone};
use crate::binary::{Four, Real, Real32};
use crate::effects::{
    as_real, from_byte_pixel, is_blurred, is_byte_effect, is_changed_in_bytes, is_cube, is_filtered,
    is_kernel, is_sharpened, reals, to_byte_pixel, Supply,
};
use crate::codec::{byte_pixels, encoded, word_pixels};
use crate::engine::{
    holds_pixels, is_composited, is_decoded, is_finished, is_layer, is_written, layer_weight,
    output_choice, profile_left, turn_of, DecodedInput, EncodedOutput,
};
use crate::error::AtxError;
use crate::input::{bytes_view, exif_decoded, memory_for, pixels_decoded, FormatView};
use crate::linear::{in_bytes, pad_to_srgb, LinearImage, Space, Tables};
use crate::number::ZERO;
use crate::ops::auto_levels::{are_bounds, bounds_of, is_leveled, is_tally, Measure};
use crate::ops::blur::{around, blur_pixel, column_blur, median_is_unique, row_blur, Kernel};
use crate::ops::clone_heal::{
    heal_sigma, healed_pixel, healing_radius, is_healed, is_patch, is_tone, Discs,
};
use crate::ops::color::is_curve;
use crate::ops::convolve::kernel_sum;
use crate::ops::lut::{lut_pixel, CubeLut};
use crate::ops::mask::{
    are_weights, column_mean, columns_blurred, coverages, fitted, holds, is_mask_image, mask_weight,
    row_mean, rows_blurred, softened, turned,
};
use crate::ops::pixelate::{
    block_end, block_light, block_start, is_pixelated, region_inside, row_light, Region,
};
use crate::ops::fonts::{font_bytes, font_faces, glyph_known, some_font_knows, texts, unknown_to};
use crate::ops::svg::{
    fonts_used, is_raster, overlaid, raster_dims, raster_warnings, svg_text, text_chars,
    xml_parsed, XmlNodeView,
};
use crate::pipeline::{
    discs, is_end, is_made, is_moved, is_repainted, is_run, is_run_from, is_same, is_scaled,
    is_supplied, make_fault, space_after, Made, Pipeline,
};
use crate::pixel_ops::{cut, orientation_map, oriented, resize_sizes};
use crate::raster::{
    alike_by_pixels, alike_when_mapped, are_alike, channel, inside, is_mapped, Image, Rgba, Rgba32,
};
use crate::recipe::{BlendMode, Fit, MaskRef, Operation, OutputFormat, RotateCrop};
use crate::resize::{along_column, along_row, is_resized, part_at, resized_pixel, Sines};
use crate::rotate::{is_turned, quarters, Swing};
use crate::transform::{Affine, Transform};
use crate::Limits;

verus! {

/// Two kernels have the same weights.
pub open spec fn same_kernel(k: Kernel, l: Kernel) -> bool {
    k.radius == l.radius && k.weights@ == l.weights@
}

proof fn row_blurs_agree(a: Image<Rgba>, k: Kernel, b: Image<Rgba>, l: Kernel, x: int, y: int, n: nat)
    requires
        are_alike(a, b),
        same_kernel(k, l),
    ensures
        row_blur(a, k, x, y, n) == row_blur(b, l, x, y, n),
    decreases n,
{
    if n > 0 {
        row_blurs_agree(a, k, b, l, x, y, (n - 1) as nat);
    }
}

proof fn column_blurs_agree(
    a: Image<Rgba>,
    k: Kernel,
    b: Image<Rgba>,
    l: Kernel,
    x: int,
    y: int,
    n: nat,
)
    requires
        are_alike(a, b),
        same_kernel(k, l),
    ensures
        column_blur(a, k, x, y, n) == column_blur(b, l, x, y, n),
    decreases n,
{
    if n > 0 {
        column_blurs_agree(a, k, b, l, x, y, (n - 1) as nat);
        let at = inside(y + (n - 1 - k.radius), a.height as int);
        row_blurs_agree(a, k, b, l, x, at, k.weights@.len());
    }
}

/// Alike images are blurred alike.
pub proof fn blurs_agree(a: Image<Rgba>, k: Kernel, b: Image<Rgba>, l: Kernel, x: int, y: int)
    requires
        are_alike(a, b),
        same_kernel(k, l),
    ensures
        blur_pixel(a, k, x, y) == blur_pixel(b, l, x, y),
{
    column_blurs_agree(a, k, b, l, x, y, k.weights@.len());
}

proof fn kernel_sums_agree(
    a: Image<Rgba>,
    b: Image<Rgba>,
    kernel: Seq<Real>,
    size: int,
    x: int,
    y: int,
    n: nat,
)
    requires
        are_alike(a, b),
    ensures
        kernel_sum(a, kernel, size, x, y, n) == kernel_sum(b, kernel, size, x, y, n),
    decreases n,
{
    if n > 0 {
        kernel_sums_agree(a, b, kernel, size, x, y, (n - 1) as nat);
    }
}

proof fn neighbours_agree(a: LinearImage, b: LinearImage, x: int, y: int, n: nat)
    requires
        are_alike(a, b),
    ensures
        neighbours(a, x, y, n) == neighbours(b, x, y, n),
    decreases n,
{
    if n > 0 {
        neighbours_agree(a, b, x, y, (n - 1) as nat);
    }
}

proof fn rows_of_light_agree(
    a: LinearImage,
    b: LinearImage,
    x: int,
    y: int,
    n: nat,
    acc: Four,
)
    requires
        are_alike(a, b),
    ensures
        row_light(a, x, y, n, acc) == row_light(b, x, y, n, acc),
    decreases n,
{
    if n > 0 {
        rows_of_light_agree(a, b, x, y, (n - 1) as nat, acc);
    }
}

proof fn blocks_of_light_agree(a: LinearImage, b: LinearImage, x0: int, x1: int, y: int, n: nat)
    requires
        are_alike(a, b),
    ensures
        block_light(a, x0, x1, y, n) == block_light(b, x0, x1, y, n),
    decreases n,
{
    if n > 0 {
        blocks_of_light_agree(a, b, x0, x1, y, (n - 1) as nat);
        rows_of_light_agree(
            a,
            b,
            x0,
            y + n - 1,
            (x1 - x0) as nat,
            block_light(a, x0, x1, y, (n - 1) as nat),
        );
    }
}

proof fn rows_of_parts_agree(
    a: LinearImage,
    b: LinearImage,
    start: int,
    weights: Seq<Real32>,
    y: int,
    n: nat,
)
    requires
        are_alike(a, b),
    ensures
        along_row(a, start, weights, y, n) == along_row(b, start, weights, y, n),
    decreases n,
{
    if n > 0 {
        rows_of_parts_agree(a, b, start, weights, y, (n - 1) as nat);
    }
}

proof fn columns_of_parts_agree(
    a: LinearImage,
    b: LinearImage,
    across: (int, Seq<Real32>),
    start: int,
    weights: Seq<Real32>,
    n: nat,
)
    requires
        are_alike(a, b),
    ensures
        along_column(a, across, start, weights, n) == along_column(b, across, start, weights, n),
    decreases n,
{
    if n > 0 {
        columns_of_parts_agree(a, b, across, start, weights, (n - 1) as nat);
        let at = inside(start + n - 1, a.height as int);
        rows_of_parts_agree(a, b, across.0, across.1, at, across.1.len());
    }
}

// What is supplied to an operation.

/// Two results hold the same bytes, or the same error.
pub open spec fn same_bytes(a: Result<Vec<u8>, AtxError>, b: Result<Vec<u8>, AtxError>) -> bool {
    match (a, b) {
        (Ok(x), Ok(y)) => x@ == y@,
        (Err(x), Err(y)) => x@ == y@,
        _ => false,
    }
}

/// Two lists of fonts hold the same bytes.
pub open spec fn same_fonts(a: Seq<Vec<u8>>, b: Seq<Vec<u8>>) -> bool {
    a.len() == b.len() && forall|i: int| 0 <= i < a.len() ==> #[trigger] a[i]@ == b[i]@
}

/// Two results hold the same fonts, or the same error.
pub open spec fn same_font_choice(
    a: Result<Option<Vec<Vec<u8>>>, AtxError>,
    b: Result<Option<Vec<Vec<u8>>>, AtxError>,
) -> bool {
    match (a, b) {
        (Ok(Some(x)), Ok(Some(y))) => same_fonts(x@, y@),
        (Ok(None), Ok(None)) => true,
        (Err(x), Err(y)) => x@ == y@,
        _ => false,
    }
}

/// Two lists hold the same sines.
pub open spec fn same_sines(a: Seq<Vec<Sines>>, b: Seq<Vec<Sines>>) -> bool {
    a.len() == b.len() && forall|i: int| 0 <= i < a.len() ==> #[trigger] a[i]@ == b[i]@
}

/// Two runs were given the same.
pub open spec fn same_supply(s: Supply, t: Supply) -> bool {
    match (s, t) {
        (Supply::Nothing, Supply::Nothing) => true,
        (
            Supply::Rotation { swing, warped },
            Supply::Rotation { swing: swing2, warped: warped2 },
        ) => swing == swing2 && are_alike(warped, warped2),
        (
            Supply::Sines { across, down },
            Supply::Sines { across: across2, down: down2 },
        ) => same_sines(across@, across2@) && same_sines(down@, down2@),
        (
            Supply::Perspective { tan_v, tan_h, warped },
            Supply::Perspective { tan_v: tan_v2, tan_h: tan_h2, warped: warped2 },
        ) => tan_v == tan_v2 && tan_h == tan_h2 && match (warped, warped2) {
            (Some(a), Some(b)) => are_alike(a, b),
            (None, None) => true,
            _ => false,
        },
        (Supply::Exponentials(a), Supply::Exponentials(b)) => a@ == b@,
        (Supply::Powers(a), Supply::Powers(b)) => a@ == b@,
        (
            Supply::Cube { asset, first, second },
            Supply::Cube { asset: asset2, first: first2, second: second2 },
        ) => same_bytes(asset, asset2) && first@ == first2@ && second@ == second2@,
        (
            Supply::Drawing { asset, fonts, rendered },
            Supply::Drawing { asset: asset2, fonts: fonts2, rendered: rendered2 },
        ) => same_bytes(asset, asset2) && same_font_choice(fonts, fonts2) && match (
            rendered,
            rendered2,
        ) {
            (Some(a), Some(b)) => a@ == b@,
            (None, None) => true,
            _ => false,
        },
        _ => false,
    }
}

// Operations on bytes.

proof fn medians_agree(a: Image<Rgba>, b: Image<Rgba>, radius: u32, c: Image<Rgba>, d: Image<Rgba>)
    requires
        are_alike(a, b),
        is_filtered(a, radius, c),
        is_filtered(b, radius, d),
    ensures
        are_alike(c, d),
{
    assert forall|x: int, y: int| 0 <= x < c.width && 0 <= y < c.height implies #[trigger] c.pixel(
        x,
        y,
    ) == d.pixel(x, y) by {
        assert forall|k: u8| k < 4 implies #[trigger] channel(c.pixel(x, y), k) == channel(
            d.pixel(x, y),
            k,
        ) by {
            assert(around(a, k, x, y) =~= around(b, k, x, y));
            median_is_unique(
                around(a, k, x, y),
                radius as int,
                channel(c.pixel(x, y), k) as int,
                channel(d.pixel(x, y), k) as int,
            );
        }
        assert(channel(c.pixel(x, y), 0) == channel(d.pixel(x, y), 0));
        assert(channel(c.pixel(x, y), 1) == channel(d.pixel(x, y), 1));
        assert(channel(c.pixel(x, y), 2) == channel(d.pixel(x, y), 2));
        assert(channel(c.pixel(x, y), 3) == channel(d.pixel(x, y), 3));
    }
    alike_by_pixels(c, d);
}

proof fn curves_agree(points: Seq<[u8; 2]>, l: Seq<u8>, m: Seq<u8>)
    requires
        is_curve(points, l),
        is_curve(points, m),
    ensures
        l == m,
{
    assert(l =~= m);
}

proof fn luts_agree(asset: Result<Vec<u8>, AtxError>, again: Result<Vec<u8>, AtxError>, l: CubeLut, m: CubeLut, strength: Real, p: Rgba)
    requires
        same_bytes(asset, again),
        is_cube(asset, l),
        is_cube(again, m),
    ensures
        lut_pixel(l, strength, p) == lut_pixel(m, strength, p),
{
}

/// An operation on bytes makes alike images of alike images.
#[verifier::rlimit(60)]
pub proof fn byte_effects_agree(
    op: Operation,
    s: Supply,
    t: Supply,
    a: Image<Rgba>,
    b: Image<Rgba>,
    c: Image<Rgba>,
    d: Image<Rgba>,
)
    requires
        a.well_formed(),
        are_alike(a, b),
        same_supply(s, t),
        is_byte_effect(op, s, a, c),
        is_byte_effect(op, t, b, d),
    ensures
        are_alike(c, d),
{
    match (op, s, t) {
        (Operation::Blur { sigma, .. }, Supply::Exponentials(raw), Supply::Exponentials(raw2)) => {
            let k = choose|k: Kernel| #[trigger]
                is_kernel(as_real(&sigma), raw@, k) && is_blurred(a, k, c);
            let l = choose|k: Kernel| #[trigger]
                is_kernel(as_real(&sigma), raw2@, k) && is_blurred(b, k, d);
            assert forall|x: int, y: int|
                0 <= x < c.width && 0 <= y < c.height implies #[trigger] c.pixel(x, y) == d.pixel(
                x,
                y,
            ) by {
                blurs_agree(a, k, b, l, x, y);
            }
            alike_by_pixels(c, d);
        },
        (Operation::Median { radius, .. }, _, _) => {
            medians_agree(a, b, radius, c, d);
        },
        (
            Operation::UnsharpMask { amount, radius, threshold, .. },
            Supply::Exponentials(raw),
            Supply::Exponentials(raw2),
        ) => {
            let k = choose|k: Kernel| #[trigger]
                is_kernel(as_real(&radius), raw@, k) && is_sharpened(
                    a,
                    k,
                    as_real(&amount),
                    threshold,
                    c,
                );
            let l = choose|k: Kernel| #[trigger]
                is_kernel(as_real(&radius), raw2@, k) && is_sharpened(
                    b,
                    k,
                    as_real(&amount),
                    threshold,
                    d,
                );
            assert forall|x: int, y: int|
                0 <= x < c.width && 0 <= y < c.height implies #[trigger] c.pixel(x, y) == d.pixel(
                x,
                y,
            ) by {
                blurs_agree(a, k, b, l, x, y);
            }
            alike_by_pixels(c, d);
        },
        (Operation::Lut { strength, .. }, Supply::Cube { asset, .. }, Supply::Cube { asset: again, .. }) => {
            let l = choose|lut: CubeLut| #[trigger]
                is_cube(asset, lut) && is_mapped(
                    a,
                    c,
                    |p: Rgba| lut_pixel(lut, as_real(&strength), p),
                );
            let m = choose|lut: CubeLut| #[trigger]
                is_cube(again, lut) && is_mapped(
                    b,
                    d,
                    |p: Rgba| lut_pixel(lut, as_real(&strength), p),
                );
            assert forall|i: int| 0 <= i < a.data@.len() implies c.data@[i] == d.data@[i] by {
                luts_agree(asset, again, l, m, as_real(&strength), a.data@[i]);
            }
            assert(c.data@ =~= d.data@);
        },
        (Operation::Convolve { kernel, size, divisor, offset, .. }, _, _) => {
            let row = reals(kernel@);
            assert forall|x: int, y: int|
                0 <= x < c.width && 0 <= y < c.height implies #[trigger] c.pixel(x, y) == d.pixel(
                x,
                y,
            ) by {
                kernel_sums_agree(a, b, row, size as int, x, y, row.len());
            }
            alike_by_pixels(c, d);
        },
        (Operation::Curves { master, red, green, blue, .. }, _, _) => {
            assert forall|i: int| 0 <= i < a.data@.len() implies c.data@[i] == d.data@[i] by {
                assert(forall|points: Seq<[u8; 2]>, l: Seq<u8>, m: Seq<u8>|
                    #![trigger is_curve(points, l), is_curve(points, m)]
                    is_curve(points, l) && is_curve(points, m) ==> l == m) by {
                    assert forall|points: Seq<[u8; 2]>, l: Seq<u8>, m: Seq<u8>|
                        #![trigger is_curve(points, l), is_curve(points, m)]
                        is_curve(points, l) && is_curve(points, m) implies l == m by {
                        curves_agree(points, l, m);
                    }
                }
            }
            assert(c.data@ =~= d.data@);
        },
        _ => {
            assert(c.data@ =~= d.data@);
        },
    }
}

/// An operation that is defined on bytes makes alike images of alike images.
proof fn changes_in_bytes_agree(
    op: Operation,
    s: Supply,
    t: Supply,
    space: Space,
    tables: Tables,
    a: LinearImage,
    b: LinearImage,
    c: LinearImage,
    d: LinearImage,
)
    requires
        a.well_formed(),
        are_alike(a, b),
        same_supply(s, t),
        is_changed_in_bytes(op, s, space, tables, a, c),
        is_changed_in_bytes(op, t, space, tables, b, d),
    ensures
        are_alike(c, d),
{
    let into = |p: Rgba32| to_byte_pixel(space, tables, p);
    let out = |p: Rgba| from_byte_pixel(space, tables, p);
    let (a1, c1) = choose|a1: Image<Rgba>, c1: Image<Rgba>| #[trigger]
        is_byte_effect(op, s, a1, c1) && is_mapped(a, a1, into) && is_mapped(c1, c, out);
    let (b1, d1) = choose|b1: Image<Rgba>, d1: Image<Rgba>| #[trigger]
        is_byte_effect(op, t, b1, d1) && is_mapped(b, b1, into) && is_mapped(d1, d, out);
    alike_when_mapped(a, b, into, a1, b1);
    byte_effects_agree(op, s, t, a1, b1, c1, d1);
    byte_effects_are_whole(op, s, a1, c1);
    alike_when_mapped(c1, d1, out, c, d);
}

/// What an operation on bytes makes is a whole image.
proof fn byte_effects_are_whole(op: Operation, s: Supply, a: Image<Rgba>, c: Image<Rgba>)
    requires
        is_byte_effect(op, s, a, c),
    ensures
        c.well_formed(),
{
}

// Operations on colours.

proof fn adjustments_agree(
    a: LinearImage,
    b: LinearImage,
    tone: Option<Tone>,
    sharpness: Real,
    c: LinearImage,
    d: LinearImage,
)
    requires
        a.well_formed(),
        c.well_formed(),
        d.well_formed(),
        are_alike(a, b),
        is_adjusted(a, tone, sharpness, c),
        is_adjusted(b, tone, sharpness, d),
    ensures
        are_alike(c, d),
{
    if (Real { bits: ZERO }).below(sharpness) {
        let amount = sharpness.narrowed();
        let m = choose|mid: LinearImage|
            #![trigger is_toned(a, tone, mid)]
            {
                &&& is_toned(a, tone, mid)
                &&& forall|x: int, y: int|
                    0 <= x < a.width && 0 <= y < a.height ==> #[trigger] c.pixel(x, y) == sharpened(
                        mid,
                        amount,
                        x,
                        y,
                    )
            };
        let n = choose|mid: LinearImage|
            #![trigger is_toned(b, tone, mid)]
            {
                &&& is_toned(b, tone, mid)
                &&& forall|x: int, y: int|
                    0 <= x < b.width && 0 <= y < b.height ==> #[trigger] d.pixel(x, y) == sharpened(
                        mid,
                        amount,
                        x,
                        y,
                    )
            };
        assert(m.data@ =~= n.data@);
        assert forall|x: int, y: int|
            0 <= x < c.width && 0 <= y < c.height implies #[trigger] c.pixel(x, y) == d.pixel(
            x,
            y,
        ) by {
            neighbours_agree(m, n, x, y, 9);
        }
        alike_by_pixels(c, d);
    } else {
        assert(c.data@ =~= d.data@);
    }
}

proof fn blocks_agree(
    a: LinearImage,
    b: LinearImage,
    region: Region,
    side: int,
    c: LinearImage,
    d: LinearImage,
)
    requires
        are_alike(a, b),
        is_pixelated(a, region, side, c),
        is_pixelated(b, region, side, d),
    ensures
        are_alike(c, d),
{
    assert forall|x: int, y: int| 0 <= x < c.width && 0 <= y < c.height implies #[trigger] c.pixel(
        x,
        y,
    ) == d.pixel(x, y) by {
        let (i, j) = ((x - region.x0) / side, (y - region.y0) / side);
        let (x0, x1) = (
            block_start(region.x0 as int, side, i),
            block_end(region.x0 as int, region.x1 as int, side, i),
        );
        let (y0, y1) = (
            block_start(region.y0 as int, side, j),
            block_end(region.y0 as int, region.y1 as int, side, j),
        );
        blocks_of_light_agree(a, b, x0, x1, y0, (y1 - y0) as nat);
    }
    alike_by_pixels(c, d);
}

proof fn tallies_agree(data: Seq<Rgba32>, m: Measure, g: Seq<u64>, h: Seq<u64>)
    requires
        is_tally(data, m, g),
        is_tally(data, m, h),
    ensures
        g == h,
{
    assert(g =~= h);
}

proof fn stretches_agree(
    a: LinearImage,
    b: LinearImage,
    clip_percent: Real,
    per_channel: bool,
    c: LinearImage,
    d: LinearImage,
)
    requires
        a.well_formed(),
        are_alike(a, b),
        is_leveled(a, clip_percent, per_channel, c),
        is_leveled(b, clip_percent, per_channel, d),
    ensures
        are_alike(c, d),
{
    assert forall|m: Measure, v: (Real32, Real32), w: (Real32, Real32)|
        #![trigger are_bounds(a, m, clip_percent, v), are_bounds(b, m, clip_percent, w)]
        are_bounds(a, m, clip_percent, v) && are_bounds(b, m, clip_percent, w) implies v == w by {
        let g = choose|hist: Seq<u64>| #[trigger]
            is_tally(a.data@, m, hist) && v == bounds_of(hist, clip_percent);
        let h = choose|hist: Seq<u64>| #[trigger]
            is_tally(b.data@, m, hist) && w == bounds_of(hist, clip_percent);
        tallies_agree(a.data@, m, g, h);
    }
    assert(c.data@ =~= d.data@);
}

proof fn patches_agree(
    a: LinearImage,
    b: LinearImage,
    cx: u32,
    cy: u32,
    radius: u32,
    p: LinearImage,
    q: LinearImage,
)
    requires
        are_alike(a, b),
        is_patch(a, cx, cy, radius, p),
        is_patch(b, cx, cy, radius, q),
    ensures
        are_alike(p, q),
{
    alike_by_pixels(p, q);
}

proof fn tones_agree(
    p: LinearImage,
    q: LinearImage,
    k: Kernel,
    l: Kernel,
    c: LinearImage,
    d: LinearImage,
)
    requires
        p.well_formed(),
        are_alike(p, q),
        same_kernel(k, l),
        is_tone(p, k, c),
        is_tone(q, l, d),
    ensures
        are_alike(c, d),
{
    let m = choose|bytes: Image<Rgba>|
        bytes.well_formed() && #[trigger] in_bytes(p, bytes) && forall|x: int, y: int|
            0 <= x < p.width && 0 <= y < p.height ==> #[trigger] c.pixel(x, y) == pad_to_srgb(
                blur_pixel(bytes, k, x, y),
            );
    let n = choose|bytes: Image<Rgba>|
        bytes.well_formed() && #[trigger] in_bytes(q, bytes) && forall|x: int, y: int|
            0 <= x < q.width && 0 <= y < q.height ==> #[trigger] d.pixel(x, y) == pad_to_srgb(
                blur_pixel(bytes, l, x, y),
            );
    assert(m.data@ =~= n.data@);
    assert forall|x: int, y: int| 0 <= x < c.width && 0 <= y < c.height implies #[trigger] c.pixel(
        x,
        y,
    ) == d.pixel(x, y) by {
        blurs_agree(m, k, n, l, x, y);
    }
    alike_by_pixels(c, d);
}

proof fn healings_agree(
    a: LinearImage,
    b: LinearImage,
    at: Discs,
    radius: u32,
    feather_px: Real,
    k: Kernel,
    l: Kernel,
    c: LinearImage,
    d: LinearImage,
)
    requires
        are_alike(a, b),
        same_kernel(k, l),
        is_healed(a, at, radius, feather_px, k, c),
        is_healed(b, at, radius, feather_px, l, d),
    ensures
        are_alike(c, d),
{
    let (s, e, sl, el) = choose|s: LinearImage, e: LinearImage, sl: LinearImage, el: LinearImage|
        {
            &&& #[trigger] is_patch(a, at.src_x, at.src_y, radius, s)
            &&& #[trigger] is_patch(a, at.dest_x, at.dest_y, radius, e)
            &&& #[trigger] is_tone(s, k, sl)
            &&& #[trigger] is_tone(e, k, el)
            &&& forall|x: int, y: int|
                0 <= x < a.width && 0 <= y < a.height ==> #[trigger] c.pixel(x, y) == healed_pixel(
                    a,
                    at,
                    radius,
                    feather_px,
                    s,
                    sl,
                    el,
                    x,
                    y,
                )
        };
    let (t, f, tl, fl) = choose|t: LinearImage, f: LinearImage, tl: LinearImage, fl: LinearImage|
        {
            &&& #[trigger] is_patch(b, at.src_x, at.src_y, radius, t)
            &&& #[trigger] is_patch(b, at.dest_x, at.dest_y, radius, f)
            &&& #[trigger] is_tone(t, l, tl)
            &&& #[trigger] is_tone(f, l, fl)
            &&& forall|x: int, y: int|
                0 <= x < b.width && 0 <= y < b.height ==> #[trigger] d.pixel(x, y) == healed_pixel(
                    b,
                    at,
                    radius,
                    feather_px,
                    t,
                    tl,
                    fl,
                    x,
                    y,
                )
        };
    patches_agree(a, b, at.src_x, at.src_y, radius, s, t);
    patches_agree(a, b, at.dest_x, at.dest_y, radius, e, f);
    tones_agree(s, t, k, l, sl, tl);
    tones_agree(e, f, k, l, el, fl);
    assert forall|x: int, y: int| 0 <= x < c.width && 0 <= y < c.height implies #[trigger] c.pixel(
        x,
        y,
    ) == d.pixel(x, y) by {
        assert(c.pixel(x, y) == healed_pixel(a, at, radius, feather_px, s, sl, el, x, y));
        assert(d.pixel(x, y) == healed_pixel(b, at, radius, feather_px, t, tl, fl, x, y));
    }
    alike_by_pixels(c, d);
}

/// An operation that leaves the size as it is makes alike images of alike images.
#[verifier::rlimit(60)]
pub proof fn repaints_agree(
    op: Operation,
    s: Supply,
    t: Supply,
    space: Space,
    tables: Tables,
    a: LinearImage,
    b: LinearImage,
    c: LinearImage,
    d: LinearImage,
)
    requires
        a.well_formed(),
        c.well_formed(),
        d.well_formed(),
        are_alike(a, b),
        same_supply(s, t),
        is_repainted(op, s, space, tables, a, c),
        is_repainted(op, t, space, tables, b, d),
    ensures
        are_alike(c, d),
{
    match (op, s, t) {
        (Operation::AutoOrient, _, _) | (Operation::StripMetadata { .. }, _, _) | (
            Operation::Encode { .. },
            _,
            _,
        ) => {},
        (Operation::Adjust { brightness, contrast, saturation, sharpness, .. }, _, _) => {
            adjustments_agree(
                a,
                b,
                tone_of(as_real(&brightness), as_real(&contrast), as_real(&saturation)),
                as_real(&sharpness),
                c,
                d,
            );
        },
        (Operation::Vignette { .. }, _, _) | (Operation::Grain { .. }, _, _) | (
            Operation::Clone { .. },
            _,
            _,
        ) => {
            alike_by_pixels(c, d);
        },
        (Operation::GradientMap { .. }, _, _) => {
            assert(c.data@ =~= d.data@);
        },
        (Operation::AutoLevels { clip_percent, per_channel, .. }, _, _) => {
            stretches_agree(a, b, as_real(&clip_percent), per_channel, c, d);
        },
        (Operation::Pixelate { block_size, region }, _, _) => {
            let side = if block_size == 0 {
                1
            } else {
                block_size as int
            };
            blocks_agree(a, b, region_inside(region, a.width, a.height)->0, side, c, d);
        },
        (
            Operation::Heal { src_x, src_y, dest_x, dest_y, radius, feather_px },
            Supply::Exponentials(raw),
            Supply::Exponentials(raw2),
        ) => {
            let r = healing_radius(a.width, a.height, radius);
            let at = discs(src_x, src_y, dest_x, dest_y);
            let k = choose|k: Kernel| #[trigger]
                is_kernel(heal_sigma(r), raw@, k) && is_healed(
                    a,
                    at,
                    r,
                    as_real(&feather_px),
                    k,
                    c,
                );
            let l = choose|k: Kernel| #[trigger]
                is_kernel(heal_sigma(r), raw2@, k) && is_healed(
                    b,
                    at,
                    r,
                    as_real(&feather_px),
                    k,
                    d,
                );
            healings_agree(a, b, at, r, as_real(&feather_px), k, l, c, d);
        },
        _ => {
            changes_in_bytes_agree(op, s, t, space, tables, a, b, c, d);
        },
    }
}

// Operations of every kind.

proof fn unknowns_agree(f: Seq<Vec<u8>>, g: Seq<Vec<u8>>, chars: Seq<char>)
    requires
        same_fonts(f, g),
    ensures
        unknown_to(f, chars) == unknown_to(g, chars),
    decreases chars.len(),
{
    if chars.len() > 0 {
        unknowns_agree(f, g, chars.drop_last());
        let c = chars.last();
        if some_font_knows(f, c) {
            let i = choose|i: int|
                0 <= i < f.len() && font_faces(#[trigger] f[i]@).len() > 0 && glyph_known(f[i]@, c);
            assert(font_faces(g[i]@).len() > 0);
        }
        if some_font_knows(g, c) {
            let i = choose|i: int|
                0 <= i < g.len() && font_faces(#[trigger] g[i]@).len() > 0 && glyph_known(g[i]@, c);
            assert(font_faces(f[i]@).len() > 0);
        }
    }
}

/// The same fonts draw the same text, and the same is said of it.
proof fn drawings_agree(bytes: Seq<u8>, f: Option<Vec<Vec<u8>>>, g: Option<Vec<Vec<u8>>>)
    requires
        match (f, g) {
            (Some(x), Some(y)) => same_fonts(x@, y@),
            (None, None) => true,
            _ => false,
        },
    ensures
        raster_warnings(bytes, f) == raster_warnings(bytes, g),
        forall|nodes: Seq<XmlNodeView>| #[trigger] fonts_used(nodes, f) == fonts_used(nodes, g),
{
    let nodes = xml_parsed(svg_text(bytes)->0)->Ok_0;
    match (f, g) {
        (Some(x), Some(y)) => {
            assert(font_bytes(x@) =~= font_bytes(y@));
            unknowns_agree(x@, y@, text_chars(nodes, nodes.len()));
        },
        _ => {},
    }
}

/// Two runs of an operation made the same.
pub open spec fn same_made(m: Made, n: Made) -> bool {
    &&& are_alike(m.img, n.img)
    &&& m.steps@ == n.steps@
    &&& texts(m.warnings@) == texts(n.warnings@)
    &&& m.alpha == n.alpha
}

proof fn turns_agree(
    a: LinearImage,
    b: LinearImage,
    degrees: Real,
    crop: RotateCrop,
    v: LinearImage,
    w: LinearImage,
    swing: Swing,
    c: LinearImage,
    d: LinearImage,
)
    requires
        c.well_formed(),
        d.well_formed(),
        are_alike(a, b),
        are_alike(v, w),
        quarters(degrees) is None ==> v.well_formed(),
        is_turned(a, degrees, crop, v, swing, c),
        is_turned(b, degrees, crop, w, swing, d),
    ensures
        are_alike(c, d),
{
    if quarters(degrees) is None && crop == RotateCrop::Full {
        assert(c.data@ =~= d.data@);
    } else {
        assert(c.width == d.width && c.height == d.height);
        assert forall|x: int, y: int|
            0 <= x < c.width && 0 <= y < c.height implies #[trigger] c.pixel(x, y) == d.pixel(
            x,
            y,
        ) by {
            assert(d.pixel(x, y) == d.pixel(x, y));
        }
        alike_by_pixels(c, d);
    }
}

proof fn scalings_agree(
    a: LinearImage,
    b: LinearImage,
    sizes: ((u32, u32), (u32, u32)),
    across: Seq<Vec<Sines>>,
    down: Seq<Vec<Sines>>,
    across2: Seq<Vec<Sines>>,
    down2: Seq<Vec<Sines>>,
    c: LinearImage,
    d: LinearImage,
)
    requires
        c.well_formed(),
        d.well_formed(),
        are_alike(a, b),
        same_sines(across, across2),
        same_sines(down, down2),
        sizes.0 != (a.width, a.height) ==> across.len() >= sizes.0.0 && down.len() >= sizes.0.1,
        sizes.1.0 <= sizes.0.0 && sizes.1.1 <= sizes.0.1,
        is_scaled(a, sizes, across, down, c),
        is_scaled(b, sizes, across2, down2, d),
    ensures
        are_alike(c, d),
{
    let m = choose|mid: LinearImage| #[trigger]
        is_resized(a, across, down, mid) && (mid.width, mid.height) == sizes.0 && (
        c.width,
        c.height) == sizes.1 && (if sizes.1 != sizes.0 {
            cut(mid, (sizes.0.0 - sizes.1.0) / 2, (sizes.0.1 - sizes.1.1) / 2, c)
        } else {
            is_same(mid, c)
        });
    let n = choose|mid: LinearImage| #[trigger]
        is_resized(b, across2, down2, mid) && (mid.width, mid.height) == sizes.0 && (
        d.width,
        d.height) == sizes.1 && (if sizes.1 != sizes.0 {
            cut(mid, (sizes.0.0 - sizes.1.0) / 2, (sizes.0.1 - sizes.1.1) / 2, d)
        } else {
            is_same(mid, d)
        });
    assert forall|x: int, y: int| 0 <= x < m.width && 0 <= y < m.height implies #[trigger] m.pixel(
        x,
        y,
    ) == n.pixel(x, y) by {
        if (m.width, m.height) != (a.width, a.height) {
            let right = part_at(a.width, m.width, across, x);
            let below = part_at(a.height, m.height, down, y);
            assert(across[x]@ == across2[x]@);
            assert(down[y]@ == down2[y]@);
            assert(n.pixel(x, y) == resized_pixel(b, right, below));
            columns_of_parts_agree(a, b, right, below.0, below.1, below.1.len());
        }
    }
    let (left, top) = ((sizes.0.0 - sizes.1.0) / 2, (sizes.0.1 - sizes.1.1) / 2);
    assert forall|x: int, y: int| 0 <= x < c.width && 0 <= y < c.height implies #[trigger] c.pixel(
        x,
        y,
    ) == d.pixel(x, y) by {
        if sizes.1 != sizes.0 {
            assert(d.pixel(x, y) == n.pixel(left + x, top + y));
            assert(m.pixel(left + x, top + y) == n.pixel(left + x, top + y));
        } else {
            assert(m.pixel(x, y) == n.pixel(x, y));
        }
    }
    alike_by_pixels(c, d);
}

proof fn overlays_agree(
    a: LinearImage,
    b: LinearImage,
    rendered: Seq<u8>,
    size: (u32, u32),
    x: i64,
    y: i64,
    mode: BlendMode,
    opacity: Real32,
    r: LinearImage,
    q: LinearImage,
    i: int,
    j: int,
)
    requires
        are_alike(a, b),
        is_raster(rendered, r),
        is_raster(rendered, q),
        (r.width, r.height) == size,
        (q.width, q.height) == size,
    ensures
        overlaid(a, r, x, y, mode, opacity, i, j) == overlaid(b, q, x, y, mode, opacity, i, j),
{
    assert(r.data@ =~= q.data@);
}

/// An operation makes the same of alike images.
#[verifier::rlimit(100)]
#[verifier::spinoff_prover]
pub proof fn makings_agree(
    op: Operation,
    index: int,
    s: Supply,
    t: Supply,
    space: Space,
    tables: Tables,
    xf: Affine,
    a: LinearImage,
    b: LinearImage,
    m: Made,
    n: Made,
)
    requires
        a.well_formed(),
        m.img.well_formed(),
        n.img.well_formed(),
        are_alike(a, b),
        same_supply(s, t),
        is_supplied(op, s, a.width, a.height),
        make_fault(op, index, s, xf, a.width, a.height) is None,
        is_made(op, index, s, space, tables, xf, a, m),
        is_made(op, index, t, space, tables, xf, b, n),
    ensures
        same_made(m, n),
{
    match (op, s, t) {
        (
            Operation::Rotate { angle_degrees, crop },
            Supply::Rotation { swing, warped },
            Supply::Rotation { warped: warped2, .. },
        ) => {
            turns_agree(a, b, as_real(&angle_degrees), crop, warped, warped2, swing, m.img, n.img);
        },
        (Operation::Crop { .. }, _, _) => {
            assert(m.img.width == n.img.width && m.img.height == n.img.height);
            assert forall|x: int, y: int|
                0 <= x < m.img.width && 0 <= y < m.img.height implies #[trigger] m.img.pixel(x, y)
                == n.img.pixel(x, y) by {
                assert(n.img.pixel(x, y) == n.img.pixel(x, y));
            }
            alike_by_pixels(m.img, n.img);
            assert(m.steps@ =~= n.steps@);
            assert(texts(m.warnings@) =~= texts(n.warnings@));
        },
        (
            Operation::Resize { width, height, fit, without_enlargement },
            Supply::Sines { across, down },
            Supply::Sines { across: across2, down: down2 },
        ) => {
            let sizes = resize_sizes(a.width, a.height, width, height, fit, without_enlargement);
            resized_is_cut(a.width, a.height, width, height, fit, without_enlargement);
            scalings_agree(
                a,
                b,
                sizes,
                across@,
                down@,
                across2@,
                down2@,
                m.img,
                n.img,
            );
            assert(texts(m.warnings@) =~= texts(n.warnings@));
        },
        (
            Operation::Perspective { .. },
            Supply::Perspective { warped, .. },
            Supply::Perspective { warped: warped2, .. },
        ) => {
            assert(m.img.data@ =~= n.img.data@);
        },
        (Operation::Flip { .. }, _, _) => {
            alike_by_pixels(m.img, n.img);
            assert(texts(m.warnings@) =~= texts(n.warnings@));
        },
        (
            Operation::SvgOverlay { x, y, width, height, opacity, blend_mode, .. },
            Supply::Drawing { asset, fonts, rendered },
            Supply::Drawing { asset: asset2, fonts: fonts2, rendered: rendered2 },
        ) => {
            drawings_agree(asset->Ok_0@, fonts->Ok_0, fonts2->Ok_0);
            let size = raster_dims(asset->Ok_0@, width, height, fonts->Ok_0);
            let o = as_real(&opacity).narrowed();
            let r = choose|raster: LinearImage| #[trigger]
                is_raster(rendered->0@, raster) && (raster.width, raster.height) == size
                    && forall|i: int, j: int|
                    0 <= i < a.width && 0 <= j < a.height ==> #[trigger] m.img.pixel(i, j)
                        == overlaid(a, raster, x, y, blend_mode, o, i, j);
            let q = choose|raster: LinearImage| #[trigger]
                is_raster(rendered2->0@, raster) && (raster.width, raster.height) == size
                    && forall|i: int, j: int|
                    0 <= i < b.width && 0 <= j < b.height ==> #[trigger] n.img.pixel(i, j)
                        == overlaid(b, raster, x, y, blend_mode, o, i, j);
            assert forall|i: int, j: int|
                0 <= i < m.img.width && 0 <= j < m.img.height implies #[trigger] m.img.pixel(i, j)
                == n.img.pixel(i, j) by {
                overlays_agree(a, b, rendered->0@, size, x, y, blend_mode, o, r, q, i, j);
            }
            alike_by_pixels(m.img, n.img);
            assert(m.steps@ =~= n.steps@);
        },
        _ => {
            repaints_agree(op, s, t, space, tables, a, b, m.img, n.img);
            assert(m.steps@ =~= n.steps@);
            assert(texts(m.warnings@) =~= texts(n.warnings@));
        },
    }
}

proof fn resized_is_cut(
    iw: u32,
    ih: u32,
    width: Option<u32>,
    height: Option<u32>,
    fit: Fit,
    without_enlargement: bool,
)
    ensures
        ({
            let sizes = resize_sizes(iw, ih, width, height, fit, without_enlargement);
            sizes.1.0 <= sizes.0.0 && sizes.1.1 <= sizes.0.1
        }),
{
}

// Pipelines.

/// Two pipelines are in the same state.
pub open spec fn same_state(a: Pipeline, b: Pipeline) -> bool {
    &&& are_alike(a.img, b.img)
    &&& a.space == b.space
    &&& a.xf == b.xf
    &&& texts(a.warnings@) == texts(b.warnings@)
    &&& a.strip == b.strip
    &&& a.has_alpha == b.has_alpha
}

/// Two runs gave the same pipeline, or the same error.
pub open spec fn same_outcome(a: Result<Pipeline, AtxError>, b: Result<Pipeline, AtxError>) -> bool {
    match (a, b) {
        (Ok(x), Ok(y)) => same_state(x, y),
        (Err(x), Err(y)) => x@ == y@,
        _ => false,
    }
}

/// The type of what a mask gives: none where there is no mask.
pub type Weights = Option<Result<Image<Real32>, AtxError>>;

/// Two masks gave the same weights, or the same error.
pub open spec fn same_mask(v: Weights, w: Weights) -> bool {
    match (v, w) {
        (Some(Ok(x)), Some(Ok(y))) => are_alike(x, y),
        (Some(Err(x)), Some(Err(y))) => x@ == y@,
        (None, None) => true,
        _ => false,
    }
}

/// Moving the same pixels between the same spaces gives the same pixels.
pub proof fn moves_agree(
    a: LinearImage,
    b: LinearImage,
    from: Space,
    to: Space,
    tables: Tables,
    c: LinearImage,
    d: LinearImage,
)
    requires
        a.well_formed(),
        are_alike(a, b),
        is_moved(a, from, to, tables, c),
        is_moved(b, from, to, tables, d),
    ensures
        are_alike(c, d),
        c.well_formed(),
{
    assert(c.data@ =~= d.data@);
}

/// Where pipelines in the same state run the same operation with the same supply and mask,
/// they come to the same state, or fail with the same error.
#[verifier::rlimit(60)]
#[verifier::spinoff_prover]
pub proof fn runs_agree(
    a: Pipeline,
    b: Pipeline,
    index: int,
    op: Operation,
    s: Supply,
    t: Supply,
    v: Weights,
    w: Weights,
    tables: Tables,
    ra: Result<Pipeline, AtxError>,
    rb: Result<Pipeline, AtxError>,
)
    requires
        a.img.well_formed(),
        same_state(a, b),
        same_supply(s, t),
        same_mask(v, w),
        is_supplied(op, s, a.img.width, a.img.height),
        ra matches Ok(next) ==> next.img.well_formed(),
        rb matches Ok(next) ==> next.img.well_formed(),
        is_run(a, index, op, s, v, tables, ra),
        is_run(b, index, op, t, w, tables, rb),
    ensures
        same_outcome(ra, rb),
{
    let space = space_after(op, a.space);
    let c = choose|before: LinearImage| #[trigger]
        is_moved(a.img, a.space, space, tables, before) && is_run_from(
            a,
            index,
            op,
            s,
            v,
            tables,
            before,
            ra,
        );
    let d = choose|before: LinearImage| #[trigger]
        is_moved(b.img, b.space, space, tables, before) && is_run_from(
            b,
            index,
            op,
            t,
            w,
            tables,
            before,
            rb,
        );
    moves_agree(a.img, b.img, a.space, space, tables, c, d);
    faults_agree(op, index, s, t, a.xf, c.width, c.height);
    if make_fault(op, index, s, a.xf, c.width, c.height) is None {
        let m = choose|m: Made| #[trigger]
            is_made(op, index, s, space, tables, a.xf, c, m) && m.img.well_formed() && is_end(
                a,
                index,
                op,
                v,
                c,
                m,
                ra,
            );
        let n = choose|m: Made| #[trigger]
            is_made(op, index, t, space, tables, b.xf, d, m) && m.img.well_formed() && is_end(
                b,
                index,
                op,
                w,
                d,
                m,
                rb,
            );
        makings_agree(op, index, s, t, space, tables, a.xf, c, d, m, n);
        if let (Ok(x), Ok(y)) = (ra, rb) {
            assert(x.img.data@ =~= y.img.data@);
        }
    }
}

proof fn faults_agree(op: Operation, index: int, s: Supply, t: Supply, xf: Affine, w: u32, h: u32)
    requires
        same_supply(s, t),
    ensures
        make_fault(op, index, s, xf, w, h) == make_fault(op, index, t, xf, w, h),
{
    match (s, t) {
        (
            Supply::Drawing { asset: Ok(bytes), fonts: Ok(f), .. },
            Supply::Drawing { fonts: Ok(g), .. },
        ) => {
            drawings_agree(bytes@, f, g);
        },
        _ => {},
    }
}

/// One operation after another, each on what the one before it left.
pub open spec fn is_chain(
    ops: Seq<Operation>,
    supplies: Seq<Supply>,
    masks: Seq<Weights>,
    tables: Tables,
    states: Seq<Pipeline>,
) -> bool {
    &&& states.len() == ops.len() + 1
    &&& states[0].img.well_formed()
    &&& forall|i: int|
        #![trigger ops[i]]
        0 <= i < ops.len() ==> {
            &&& is_supplied(ops[i], supplies[i], states[i].img.width, states[i].img.height)
            &&& is_run(
                states[i],
                i,
                ops[i],
                supplies[i],
                masks[i],
                tables,
                Ok::<Pipeline, AtxError>(states[i + 1]),
            )
            &&& states[i + 1].img.well_formed()
        }
}

/// Pipelines that start in the same state and run the same operations, with the same
/// supplies and masks, are in the same state after each of them.
pub proof fn chains_agree(
    ops: Seq<Operation>,
    s: Seq<Supply>,
    t: Seq<Supply>,
    v: Seq<Weights>,
    w: Seq<Weights>,
    tables: Tables,
    a: Seq<Pipeline>,
    b: Seq<Pipeline>,
    n: nat,
)
    requires
        n <= ops.len(),
        is_chain(ops, s, v, tables, a),
        is_chain(ops, t, w, tables, b),
        same_state(a[0], b[0]),
        forall|i: int| 0 <= i < ops.len() ==> #[trigger] same_supply(s[i], t[i]),
        forall|i: int| 0 <= i < ops.len() ==> #[trigger] same_mask(v[i], w[i]),
    ensures
        same_state(a[n as int], b[n as int]),
        a[n as int].img.well_formed(),
    decreases n,
{
    if n > 0 {
        let i = n - 1;
        chains_agree(ops, s, t, v, w, tables, a, b, i as nat);
        let op = ops[i];
        assert(same_supply(s[i], t[i]));
        assert(same_mask(v[i], w[i]));
        runs_agree(
            a[i],
            b[i],
            i,
            op,
            s[i],
            t[i],
            v[i],
            w[i],
            tables,
            Ok(a[i + 1]),
            Ok(b[i + 1]),
        );
    }
}

// Masks.

proof fn row_means_agree(
    f: spec_fn(int, int) -> Real32,
    k: Kernel,
    l: Kernel,
    w: int,
    x: int,
    y: int,
    n: nat,
)
    requires
        same_kernel(k, l),
    ensures
        row_mean(f, k, w, x, y, n) == row_mean(f, l, w, x, y, n),
    decreases n,
{
    if n > 0 {
        row_means_agree(f, k, l, w, x, y, (n - 1) as nat);
    }
}

proof fn column_means_agree(
    f: spec_fn(int, int) -> Real32,
    k: Kernel,
    l: Kernel,
    h: int,
    x: int,
    y: int,
    n: nat,
)
    requires
        same_kernel(k, l),
    ensures
        column_mean(f, k, h, x, y, n) == column_mean(f, l, h, x, y, n),
    decreases n,
{
    if n > 0 {
        column_means_agree(f, k, l, h, x, y, (n - 1) as nat);
    }
}

proof fn softenings_agree(
    f: spec_fn(int, int) -> Real32,
    k: Option<Kernel>,
    l: Option<Kernel>,
    w: u32,
    h: u32,
)
    requires
        match (k, l) {
            (Some(x), Some(y)) => same_kernel(x, y),
            (None, None) => true,
            _ => false,
        },
    ensures
        softened(f, k, w, h) == softened(f, l, w, h),
{
    if let (Some(k), Some(l)) = (k, l) {
        let rows = rows_blurred(f, k, w as int);
        assert forall|x: int, y: int| #[trigger] rows(x, y) == rows_blurred(f, l, w as int)(x, y) by {
            row_means_agree(f, k, l, w as int, x, y, k.weights@.len());
        }
        assert(rows =~= rows_blurred(f, l, w as int));
        let columns = columns_blurred(rows, k, h as int);
        assert forall|x: int, y: int| #[trigger] columns(x, y) == columns_blurred(
            rows,
            l,
            h as int,
        )(x, y) by {
            column_means_agree(rows, k, l, h as int, x, y, k.weights@.len());
        }
        assert(columns =~= columns_blurred(rows, l, h as int));
    }
}

/// The same mask gives the same weights.
pub proof fn masks_agree(
    bytes: Seq<u8>,
    mask: MaskRef,
    width: u32,
    height: u32,
    limits: Limits,
    k: Option<Kernel>,
    l: Option<Kernel>,
    a: Image<Real32>,
    b: Image<Real32>,
)
    requires
        match (k, l) {
            (Some(x), Some(y)) => same_kernel(x, y),
            (None, None) => true,
            _ => false,
        },
        are_weights(bytes, mask, width, height, limits, k, a),
        are_weights(bytes, mask, width, height, limits, l, b),
    ensures
        are_alike(a, b),
{
    let c = choose|img: Image<Rgba>|
        {
            &&& #[trigger] is_mask_image(bytes, limits, img)
            &&& holds(&a, mask_weight(img, width, height, mask.invert, k))
        };
    let d = choose|img: Image<Rgba>|
        {
            &&& #[trigger] is_mask_image(bytes, limits, img)
            &&& holds(&b, mask_weight(img, width, height, mask.invert, l))
        };
    assert(c.data@ =~= d.data@);
    assert(coverages(c) =~= coverages(d));
    softenings_agree(turned(fitted(c, width, height), mask.invert), k, l, width, height);
    alike_by_pixels(a, b);
}

// The ends of a run.

/// Two inputs were read alike.
pub open spec fn same_input(a: DecodedInput, b: DecodedInput) -> bool {
    &&& are_alike(a.img, b.img)
    &&& a.xf == b.xf
    &&& a.has_alpha == b.has_alpha
    &&& bytes_view(a.icc) == bytes_view(b.icc)
    &&& a.format@ == b.format@
    &&& a.exif_has_any == b.exif_has_any
}

/// The same bytes are read alike.
pub proof fn inputs_agree(
    bytes: Seq<u8>,
    limits: Limits,
    space: Space,
    tables: Tables,
    a: DecodedInput,
    b: DecodedInput,
)
    requires
        a.img.well_formed(),
        b.img.well_formed(),
        is_decoded(bytes, limits, space, tables, a),
        is_decoded(bytes, limits, space, tables, b),
    ensures
        same_input(a, b),
{
    let p = pixels_decoded(bytes, memory_for(limits))->Ok_0;
    let turn = turn_of(exif_decoded(bytes));
    let c = choose|raw: LinearImage| #[trigger]
        holds_pixels(p, space, tables, raw) && match turn {
            Some(o) => oriented(raw, o, a.img) && a.xf == Transform::identity().followed_by(
                orientation_map(raw.width, raw.height, o),
            ),
            None => is_same(raw, a.img) && a.xf == Transform::identity(),
        };
    let d = choose|raw: LinearImage| #[trigger]
        holds_pixels(p, space, tables, raw) && match turn {
            Some(o) => oriented(raw, o, b.img) && b.xf == Transform::identity().followed_by(
                orientation_map(raw.width, raw.height, o),
            ),
            None => is_same(raw, b.img) && b.xf == Transform::identity(),
        };
    assert(c.data@ =~= d.data@);
    assert(a.img.width == b.img.width && a.img.height == b.img.height);
    assert forall|x: int, y: int|
        0 <= x < a.img.width && 0 <= y < a.img.height implies #[trigger] a.img.pixel(x, y)
        == b.img.pixel(x, y) by {
        assert(b.img.pixel(x, y) == b.img.pixel(x, y));
    }
    alike_by_pixels(a.img, b.img);
}

/// Layers in the same state are finished alike.
pub proof fn layers_agree(a: Pipeline, b: Pipeline, i: int, tables: Tables, c: Pipeline, d: Pipeline)
    requires
        a.img.well_formed(),
        same_state(a, b),
        is_layer(a, i, tables, c),
        is_layer(b, i, tables, d),
    ensures
        same_state(c, d),
{
    moves_agree(a.img, b.img, a.space, Space::Srgb, tables, c.img, d.img);
}

/// Layers in the same state are laid alike on canvases in the same state.
pub proof fn composites_agree(
    a: Pipeline,
    b: Pipeline,
    l: Pipeline,
    m: Pipeline,
    i: int,
    mode: BlendMode,
    opacity: Real32,
    v: Weights,
    w: Weights,
    ra: Result<Pipeline, AtxError>,
    rb: Result<Pipeline, AtxError>,
)
    requires
        a.img.well_formed(),
        same_state(a, b),
        same_state(l, m),
        same_mask(v, w),
        ra matches Ok(next) ==> next.img.well_formed(),
        rb matches Ok(next) ==> next.img.well_formed(),
        is_composited(a, l, i, mode, opacity, v, ra),
        is_composited(b, m, i, mode, opacity, w, rb),
    ensures
        same_outcome(ra, rb),
{
    if let (Ok(x), Ok(y)) = (ra, rb) {
        assert forall|k: int| 0 <= k < x.img.data@.len() implies x.img.data@[k] == y.img.data@[k] by {
            assert(layer_weight(v, k) == layer_weight(w, k));
        }
        assert(x.img.data@ =~= y.img.data@);
    }
}

/// Two outputs are the same, or two errors.
pub open spec fn same_output(
    a: Result<EncodedOutput, AtxError>,
    b: Result<EncodedOutput, AtxError>,
) -> bool {
    match (a, b) {
        (Ok(x), Ok(y)) => {
            &&& x.bytes@ == y.bytes@
            &&& x.mime_type@ == y.mime_type@
            &&& x.width == y.width
            &&& x.height == y.height
            &&& texts(x.warnings@) == texts(y.warnings@)
        },
        (Err(x), Err(y)) => x@ == y@,
        _ => false,
    }
}

/// Pipelines in the same state are written as the same bytes.
pub proof fn outputs_agree(
    a: Pipeline,
    b: Pipeline,
    ops: Seq<Operation>,
    icc: Option<Vec<u8>>,
    again: Option<Vec<u8>>,
    format: FormatView,
    exif_has_any: bool,
    tables: Tables,
    ra: Result<EncodedOutput, AtxError>,
    rb: Result<EncodedOutput, AtxError>,
)
    requires
        a.img.well_formed(),
        same_state(a, b),
        bytes_view(icc) == bytes_view(again),
        is_finished(a, ops, icc, format, exif_has_any, tables, ra),
        is_finished(b, ops, again, format, exif_has_any, tables, rb),
    ensures
        same_output(ra, rb),
{
    let choice = output_choice(ops, format.kind);
    let c = choose|img: LinearImage| #[trigger]
        is_moved(a.img, a.space, Space::Srgb, tables, img) && is_written(
            a,
            ops,
            icc,
            format,
            exif_has_any,
            img,
            ra,
        );
    let d = choose|img: LinearImage| #[trigger]
        is_moved(b.img, b.space, Space::Srgb, tables, img) && is_written(
            b,
            ops,
            again,
            format,
            exif_has_any,
            img,
            rb,
        );
    moves_agree(a.img, b.img, a.space, Space::Srgb, tables, c, d);
    let p = profile_left(icc, a.strip, choice.format);
    let q = profile_left(again, b.strip, choice.format);
    let alpha = a.has_alpha && choice.format != OutputFormat::Jpeg;
    codings_agree(c, d, choice.format, choice.quality, alpha, p, q, choice.bit_depth == 16);
}

proof fn codings_agree(
    a: LinearImage,
    b: LinearImage,
    format: OutputFormat,
    quality: Option<u8>,
    has_alpha: bool,
    icc: Option<Vec<u8>>,
    again: Option<Vec<u8>>,
    deep: bool,
)
    requires
        are_alike(a, b),
        bytes_view(icc) == bytes_view(again),
    ensures
        encoded(a, format, quality, has_alpha, icc, deep) == encoded(
            b,
            format,
            quality,
            has_alpha,
            again,
            deep,
        ),
{
    assert(byte_pixels(a) =~= byte_pixels(b));
    assert(word_pixels(a) =~= word_pixels(b));
}

} // verus!
