//! A whole run of a recipe, from the bytes of the input to those of the result.
use vstd::prelude::*;

use crate::binary::Real32;
use crate::effects::{as_real, Supply};
use crate::engine::{
    fault_in_layer, is_composited, is_decoded, is_finished, is_layer, layer_source_fault,
    start_fault, starting_space, DecodedInput, EncodedOutput,
};
use crate::error::{AtxError, Fault};
use crate::linear::{Space, Tables};
use crate::ops::blur::Kernel;
use crate::ops::fonts::texts;
use crate::ops::mask::{has_feather, is_weighed};
use crate::pipeline::{is_run, is_supplied, Pipeline};
use crate::raster::{are_alike, Image, Rgba32};
use crate::recipe::{mask_of, Layer, LayerSource, MaskRef, Operation, TransformRecipe};
use crate::repeat::{
    composites_agree, inputs_agree, layers_agree, masks_agree, outputs_agree, runs_agree,
    same_input, same_kernel, same_mask, same_outcome, same_output, same_state,
    same_supply, Weights,
};
use crate::Limits;

verus! {

/// What a revision answers: its bytes, or an error.
pub type Answer = Result<Seq<u8>, Fault>;

/// What a run finds around it: what the revisions answer, and what is worked out elsewhere.
pub struct World {
    /// What each revision answers.
    pub answers: spec_fn(Seq<char>) -> Answer,
    /// What an operation is supplied with for an image in a space: its size and its pixels.
    pub supply: spec_fn(
        Operation,
        Space,
        (u32, u32),
        Seq<Rgba32>,
        spec_fn(Seq<char>) -> Answer,
    ) -> Supply,
    /// The kernel of a feather.
    pub kernel: spec_fn(u64) -> Kernel,
}

/// What a run goes by besides the recipe and the input.
pub struct Setting {
    pub limits: Limits,
    pub tables: Tables,
    pub world: World,
}

/// What a revision answered, as a sequence.
pub open spec fn answer_of(asset: Result<Vec<u8>, AtxError>) -> Answer {
    match asset {
        Ok(bytes) => Ok(bytes@),
        Err(e) => Err(e@),
    }
}

/// An operation was supplied with what the world has for it. Its asset is what the revision
/// answered that the operation names.
pub open spec fn is_offered(op: Operation, st: Pipeline, world: World, supply: Supply) -> bool {
    &&& same_supply(
        supply,
        (world.supply)(
            op,
            st.space,
            (st.img.width, st.img.height),
            st.img.data@,
            world.answers,
        ),
    )
    &&& is_supplied(op, supply, st.img.width, st.img.height)
    &&& match (op, supply) {
        (Operation::Lut { lut_revision_id, .. }, Supply::Cube { asset, .. }) => answer_of(asset)
            == (world.answers)(lut_revision_id@),
        (Operation::SvgOverlay { svg_revision_id, .. }, Supply::Drawing { asset, .. }) => answer_of(
            asset,
        ) == (world.answers)(svg_revision_id@),
        _ => true,
    }
}

/// The weights of a mask, or what stopped them, from what its revision answered.
pub open spec fn is_mask_found(
    mask: MaskRef,
    width: u32,
    height: u32,
    limits: Limits,
    world: World,
    r: Result<Image<Real32>, AtxError>,
) -> bool {
    exists|asset: Result<Vec<u8>, AtxError>, kernel: Option<Kernel>|
        {
            &&& #[trigger] is_weighed(asset, mask, width, height, limits, kernel, r)
            &&& answer_of(asset) == (world.answers)(mask.revision_id@)
            &&& kernel is Some == has_feather(mask)
            &&& kernel matches Some(k) ==> same_kernel(k, (world.kernel)(mask.feather_px.bits))
        }
}

/// The weights for an operation: those of its mask, where it has one.
pub open spec fn are_found(
    mask: Option<MaskRef>,
    width: u32,
    height: u32,
    limits: Limits,
    world: World,
    weights: Weights,
) -> bool {
    match mask {
        Some(m) => weights matches Some(r) && is_mask_found(m, width, height, limits, world, r),
        None => weights is None,
    }
}

/// A result fails with an error.
pub open spec fn fails<T>(r: Result<T, AtxError>, fault: Fault) -> bool {
    r matches Err(e) && e@ == fault
}

/// The operations of a list, from number `i` on, one after another; the first that fails ends
/// the run.
pub open spec fn is_ops_run(
    st: Pipeline,
    ops: Seq<Operation>,
    i: nat,
    by: Setting,
    r: Result<Pipeline, AtxError>,
) -> bool
    decreases ops.len() - i,
{
    if i >= ops.len() {
        r == Ok::<Pipeline, AtxError>(st)
    } else {
        exists|supply: Supply, weights: Weights, mid: Result<Pipeline, AtxError>|
            {
                &&& #[trigger] is_run(st, i as int, ops[i as int], supply, weights, by.tables, mid)
                &&& is_ready_for(st, ops[i as int], supply, weights, by)
                &&& match mid {
                    Err(e) => fails(r, e@),
                    Ok(next) => next.img.well_formed() && is_ops_run(next, ops, i + 1, by, r),
                }
            }
    }
}

/// An operation has what it needs: its supply, and the weights of its mask.
pub open spec fn is_ready_for(
    st: Pipeline,
    op: Operation,
    supply: Supply,
    weights: Weights,
    by: Setting,
) -> bool {
    &&& is_offered(op, st, by.world, supply)
    &&& are_found(mask_of(op), st.img.width, st.img.height, by.limits, by.world, weights)
}

/// A pipeline that starts with an image.
pub open spec fn is_begun(d: DecodedInput, space: Space, st: Pipeline) -> bool {
    &&& st.img.well_formed()
    &&& are_alike(st.img, d.img)
    &&& st.space == space
    &&& st.xf == d.xf
    &&& st.has_alpha == d.has_alpha
    &&& st.strip is None
    &&& st.warnings@.len() == 0
}

/// The pipeline that a layer starts in, or what is wrong with its source.
pub open spec fn is_layer_begun(
    layer: Layer,
    i: int,
    input: DecodedInput,
    by: Setting,
    r: Result<Pipeline, AtxError>,
) -> bool {
    match layer.source {
        LayerSource::Base(_) => r matches Ok(st) && is_begun(input, Space::Srgb, st),
        LayerSource::Revision { revision_id } => exists|asset: Result<Vec<u8>, AtxError>|
            {
                &&& #[trigger] answer_of(asset) == (by.world.answers)(revision_id@)
                &&& is_source_begun(i, revision_id@, asset, by, r)
            },
    }
}

/// The pipeline that starts with what a revision answered.
pub open spec fn is_source_begun(
    i: int,
    id: Seq<char>,
    asset: Result<Vec<u8>, AtxError>,
    by: Setting,
    r: Result<Pipeline, AtxError>,
) -> bool {
    match layer_source_fault(i, id, asset, by.limits) {
        Some(f) => fails(r, f),
        None => r matches Ok(st) && exists|d: DecodedInput|
            {
                &&& #[trigger] is_decoded(asset->Ok_0@, by.limits, Space::Srgb, by.tables, d)
                &&& d.img.well_formed()
                &&& is_begun(d, Space::Srgb, st)
            },
    }
}

/// A layer that is ready to be laid, or what stopped it.
pub open spec fn is_layer_made(
    layer: Layer,
    i: int,
    input: DecodedInput,
    by: Setting,
    r: Result<Pipeline, AtxError>,
) -> bool {
    exists|begun: Result<Pipeline, AtxError>| #[trigger]
        is_layer_begun(layer, i, input, by, begun) && match begun {
            Err(e) => fails(r, e@),
            Ok(st) => is_layer_run(layer, i, st, by, r),
        }
}

/// A layer after its operations.
pub open spec fn is_layer_run(
    layer: Layer,
    i: int,
    st: Pipeline,
    by: Setting,
    r: Result<Pipeline, AtxError>,
) -> bool {
    exists|done: Result<Pipeline, AtxError>| #[trigger]
        is_ops_run(st, layer.ops@, 0, by, done) && match done {
            Err(e) => fails(r, fault_in_layer(i, e@)),
            Ok(p) => r matches Ok(made) && made.img.well_formed() && is_layer(
                p,
                i,
                by.tables,
                made,
            ),
        }
}

/// The weights for a layer on what is below it: those of its mask, where it has one and both
/// have the same size.
pub open spec fn are_layer_weights(
    below: Pipeline,
    made: Pipeline,
    layer: Layer,
    by: Setting,
    weights: Weights,
) -> bool {
    let same = made.img.width == below.img.width && made.img.height == below.img.height;
    are_found(
        if same {
            layer.mask
        } else {
            None
        },
        below.img.width,
        below.img.height,
        by.limits,
        by.world,
        weights,
    )
}

/// The canvas with a layer on it: the first is the canvas itself.
pub open spec fn is_laid(
    canvas: Option<Pipeline>,
    layer: Layer,
    i: int,
    made: Pipeline,
    by: Setting,
    r: Result<Pipeline, AtxError>,
) -> bool {
    &&& r matches Ok(next) ==> next.img.well_formed()
    &&& match canvas {
        None => r == Ok::<Pipeline, AtxError>(made),
        Some(below) => exists|weights: Weights|
            {
                &&& #[trigger] are_layer_weights(below, made, layer, by, weights)
                &&& is_composited(
                    below,
                    made,
                    i,
                    layer.blend_mode,
                    as_real(&layer.opacity).narrowed(),
                    weights,
                    r,
                )
            },
    }
}

/// The layers of a recipe, from number `i` on, laid on a canvas.
pub open spec fn is_layers_run(
    layers: Seq<Layer>,
    i: nat,
    input: DecodedInput,
    by: Setting,
    canvas: Option<Pipeline>,
    r: Result<Pipeline, AtxError>,
) -> bool
    decreases layers.len() - i,
{
    if i >= layers.len() {
        match canvas {
            Some(st) => r == Ok::<Pipeline, AtxError>(st),
            None => fails(r, Fault::InvalidRecipe("layers must not be empty"@)),
        }
    } else {
        exists|made: Result<Pipeline, AtxError>, next: Result<Pipeline, AtxError>|
            {
                &&& #[trigger] is_layer_made(layers[i as int], i as int, input, by, made)
                &&& match made {
                    Err(e) => next == made && fails(r, e@),
                    Ok(p) => is_laid(canvas, layers[i as int], i as int, p, by, next)
                        && match next {
                        Err(e) => fails(r, e@),
                        Ok(st) => is_layers_run(layers, i + 1, input, by, Some(st), r),
                    },
                }
                &&& #[trigger] is_step(next)
            }
    }
}

/// Marks what came of a step.
pub open spec fn is_step(r: Result<Pipeline, AtxError>) -> bool {
    true
}

/// The pipeline that the operations on the whole start in.
pub open spec fn is_opened(
    recipe: TransformRecipe,
    input: DecodedInput,
    by: Setting,
    r: Result<Pipeline, AtxError>,
) -> bool {
    match recipe.layers {
        Some(layers) => is_layers_run(layers@, 0, input, by, None, r),
        None => r matches Ok(st) && is_begun(input, starting_space(recipe), st),
    }
}

/// What a recipe makes of an input that was read.
pub open spec fn is_carried_out(
    recipe: TransformRecipe,
    input: DecodedInput,
    by: Setting,
    r: Result<EncodedOutput, AtxError>,
) -> bool {
    exists|opened: Result<Pipeline, AtxError>, done: Result<Pipeline, AtxError>|
        {
            &&& #[trigger] is_opened(recipe, input, by, opened)
            &&& #[trigger] is_step(done)
            &&& match opened {
                Err(e) => fails(r, e@),
                Ok(st) => is_ops_run(st, recipe.operations@, 0, by, done) && match done {
                    Err(e) => fails(r, e@),
                    Ok(p) => is_finished(
                        p,
                        recipe.operations@,
                        input.icc,
                        input.format@,
                        input.exif_has_any,
                        by.tables,
                        r,
                    ),
                },
            }
        }
}

/// What a run of a recipe gives: the result, or what stopped it.
pub open spec fn is_whole_run(
    recipe: TransformRecipe,
    bytes: Seq<u8>,
    by: Setting,
    r: Result<EncodedOutput, AtxError>,
) -> bool {
    match start_fault(recipe, bytes, by.limits) {
        Some(f) => fails(r, f),
        None => exists|input: DecodedInput|
            {
                &&& #[trigger] is_decoded(
                    bytes,
                    by.limits,
                    starting_space(recipe),
                    by.tables,
                    input,
                )
                &&& input.img.well_formed()
                &&& is_carried_out(recipe, input, by, r)
            },
    }
}

/// What is supplied in the same state is the same.
proof fn offers_agree(op: Operation, a: Pipeline, b: Pipeline, world: World, s: Supply, t: Supply)
    requires
        same_state(a, b),
        is_offered(op, a, world, s),
        is_offered(op, b, world, t),
    ensures
        same_supply(s, t),
{
}

/// A mask gives the same weights wherever it is asked for in the same size, or the same error.
pub proof fn masks_are_found_alike(
    mask: Option<MaskRef>,
    width: u32,
    height: u32,
    limits: Limits,
    world: World,
    v: Weights,
    w: Weights,
)
    requires
        are_found(mask, width, height, limits, world, v),
        are_found(mask, width, height, limits, world, w),
    ensures
        same_mask(v, w),
{
    if let Some(m) = mask {
        let (x, y) = (v->0, w->0);
        let (a, k) = choose|asset: Result<Vec<u8>, AtxError>, kernel: Option<Kernel>|
            {
                &&& #[trigger] is_weighed(asset, m, width, height, limits, kernel, x)
                &&& answer_of(asset) == (world.answers)(m.revision_id@)
                &&& kernel is Some == has_feather(m)
                &&& kernel matches Some(k) ==> same_kernel(k, (world.kernel)(m.feather_px.bits))
            };
        let (b, l) = choose|asset: Result<Vec<u8>, AtxError>, kernel: Option<Kernel>|
            {
                &&& #[trigger] is_weighed(asset, m, width, height, limits, kernel, y)
                &&& answer_of(asset) == (world.answers)(m.revision_id@)
                &&& kernel is Some == has_feather(m)
                &&& kernel matches Some(k) ==> same_kernel(k, (world.kernel)(m.feather_px.bits))
            };
        if let (Ok(c), Ok(d)) = (x, y) {
            masks_agree(a->Ok_0@, m, width, height, limits, k, l, c, d);
        }
    }
}

/// Lists of operations agree.
proof fn ops_agree(
    a: Pipeline,
    b: Pipeline,
    ops: Seq<Operation>,
    i: nat,
    by: Setting,
    ra: Result<Pipeline, AtxError>,
    rb: Result<Pipeline, AtxError>,
)
    requires
        a.img.well_formed(),
        same_state(a, b),
        is_ops_run(a, ops, i, by, ra),
        is_ops_run(b, ops, i, by, rb),
    ensures
        same_outcome(ra, rb),
        ra matches Ok(p) ==> p.img.well_formed(),
    decreases ops.len() - i,
{
    if i < ops.len() {
        let k = i as int;
        let op = ops[k];
        let (s, v, c) = choose|supply: Supply, weights: Weights, mid: Result<Pipeline, AtxError>|
            {
                &&& #[trigger] is_run(a, k, op, supply, weights, by.tables, mid)
                &&& is_ready_for(a, op, supply, weights, by)
                &&& match mid {
                    Err(e) => fails(ra, e@),
                    Ok(next) => next.img.well_formed() && is_ops_run(next, ops, i + 1, by, ra),
                }
            };
        let (t, w, d) = choose|supply: Supply, weights: Weights, mid: Result<Pipeline, AtxError>|
            {
                &&& #[trigger] is_run(b, k, op, supply, weights, by.tables, mid)
                &&& is_ready_for(b, op, supply, weights, by)
                &&& match mid {
                    Err(e) => fails(rb, e@),
                    Ok(next) => next.img.well_formed() && is_ops_run(next, ops, i + 1, by, rb),
                }
            };
        offers_agree(op, a, b, by.world, s, t);
        masks_are_found_alike(
            mask_of(op),
            a.img.width,
            a.img.height,
            by.limits,
            by.world,
            v,
            w,
        );
        runs_agree(a, b, k, op, s, t, v, w, by.tables, c, d);
        if let (Ok(x), Ok(y)) = (c, d) {
            ops_agree(x, y, ops, i + 1, by, ra, rb);
        }
    }
}

/// Pipelines that start with inputs that were read alike are in the same state.
proof fn beginnings_agree(a: DecodedInput, b: DecodedInput, space: Space, p: Pipeline, q: Pipeline)
    requires
        same_input(a, b),
        is_begun(a, space, p),
        is_begun(b, space, q),
    ensures
        same_state(p, q),
{
    assert(texts(p.warnings@) =~= texts(q.warnings@));
}

proof fn sources_agree(
    i: int,
    id: Seq<char>,
    s: Result<Vec<u8>, AtxError>,
    t: Result<Vec<u8>, AtxError>,
    by: Setting,
    ra: Result<Pipeline, AtxError>,
    rb: Result<Pipeline, AtxError>,
)
    requires
        answer_of(s) == answer_of(t),
        is_source_begun(i, id, s, by, ra),
        is_source_begun(i, id, t, by, rb),
    ensures
        same_outcome(ra, rb),
        ra matches Ok(p) ==> p.img.well_formed(),
{
    assert(layer_source_fault(i, id, s, by.limits) == layer_source_fault(i, id, t, by.limits));
    if layer_source_fault(i, id, s, by.limits) is None {
        let (p, q) = (ra->Ok_0, rb->Ok_0);
        let c = choose|d: DecodedInput|
            {
                &&& #[trigger] is_decoded(s->Ok_0@, by.limits, Space::Srgb, by.tables, d)
                &&& d.img.well_formed()
                &&& is_begun(d, Space::Srgb, p)
            };
        let e = choose|d: DecodedInput|
            {
                &&& #[trigger] is_decoded(t->Ok_0@, by.limits, Space::Srgb, by.tables, d)
                &&& d.img.well_formed()
                &&& is_begun(d, Space::Srgb, q)
            };
        inputs_agree(s->Ok_0@, by.limits, Space::Srgb, by.tables, c, e);
        beginnings_agree(c, e, Space::Srgb, p, q);
    }
}

proof fn layer_beginnings_agree(
    layer: Layer,
    i: int,
    a: DecodedInput,
    b: DecodedInput,
    by: Setting,
    ra: Result<Pipeline, AtxError>,
    rb: Result<Pipeline, AtxError>,
)
    requires
        same_input(a, b),
        is_layer_begun(layer, i, a, by, ra),
        is_layer_begun(layer, i, b, by, rb),
    ensures
        same_outcome(ra, rb),
        ra matches Ok(p) ==> p.img.well_formed(),
{
    match layer.source {
        LayerSource::Base(_) => {
            beginnings_agree(a, b, Space::Srgb, ra->Ok_0, rb->Ok_0);
        },
        LayerSource::Revision { revision_id } => {
            let s = choose|asset: Result<Vec<u8>, AtxError>|
                {
                    &&& #[trigger] answer_of(asset) == (by.world.answers)(revision_id@)
                    &&& is_source_begun(i, revision_id@, asset, by, ra)
                };
            let t = choose|asset: Result<Vec<u8>, AtxError>|
                {
                    &&& #[trigger] answer_of(asset) == (by.world.answers)(revision_id@)
                    &&& is_source_begun(i, revision_id@, asset, by, rb)
                };
            sources_agree(i, revision_id@, s, t, by, ra, rb);
        },
    }
}

proof fn makings_of_layers_agree(
    layer: Layer,
    i: int,
    a: DecodedInput,
    b: DecodedInput,
    by: Setting,
    ra: Result<Pipeline, AtxError>,
    rb: Result<Pipeline, AtxError>,
)
    requires
        same_input(a, b),
        is_layer_made(layer, i, a, by, ra),
        is_layer_made(layer, i, b, by, rb),
    ensures
        same_outcome(ra, rb),
        ra matches Ok(p) ==> p.img.well_formed(),
{
    let c = choose|begun: Result<Pipeline, AtxError>| #[trigger]
        is_layer_begun(layer, i, a, by, begun) && match begun {
            Err(e) => fails(ra, e@),
            Ok(st) => is_layer_run(layer, i, st, by, ra),
        };
    let d = choose|begun: Result<Pipeline, AtxError>| #[trigger]
        is_layer_begun(layer, i, b, by, begun) && match begun {
            Err(e) => fails(rb, e@),
            Ok(st) => is_layer_run(layer, i, st, by, rb),
        };
    layer_beginnings_agree(layer, i, a, b, by, c, d);
    if let (Ok(x), Ok(y)) = (c, d) {
        let m = choose|done: Result<Pipeline, AtxError>| #[trigger]
            is_ops_run(x, layer.ops@, 0, by, done) && match done {
                Err(e) => fails(ra, fault_in_layer(i, e@)),
                Ok(p) => ra matches Ok(made) && made.img.well_formed() && is_layer(
                    p,
                    i,
                    by.tables,
                    made,
                ),
            };
        let n = choose|done: Result<Pipeline, AtxError>| #[trigger]
            is_ops_run(y, layer.ops@, 0, by, done) && match done {
                Err(e) => fails(rb, fault_in_layer(i, e@)),
                Ok(p) => rb matches Ok(made) && made.img.well_formed() && is_layer(
                    p,
                    i,
                    by.tables,
                    made,
                ),
            };
        ops_agree(x, y, layer.ops@, 0, by, m, n);
        if let (Ok(p), Ok(q)) = (m, n) {
            layers_agree(p, q, i, by.tables, ra->Ok_0, rb->Ok_0);
        }
    }
}

/// The same canvas, or none on either side.
spec fn same_canvas(a: Option<Pipeline>, b: Option<Pipeline>) -> bool {
    match (a, b) {
        (Some(x), Some(y)) => x.img.well_formed() && same_state(x, y),
        (None, None) => true,
        _ => false,
    }
}

/// A layer is laid alike on the same canvas.
proof fn layings_agree(
    ca: Option<Pipeline>,
    cb: Option<Pipeline>,
    layer: Layer,
    i: int,
    p: Pipeline,
    q: Pipeline,
    by: Setting,
    ra: Result<Pipeline, AtxError>,
    rb: Result<Pipeline, AtxError>,
)
    requires
        same_canvas(ca, cb),
        p.img.well_formed(),
        same_state(p, q),
        is_laid(ca, layer, i, p, by, ra),
        is_laid(cb, layer, i, q, by, rb),
    ensures
        same_outcome(ra, rb),
{
    if let (Some(x), Some(y)) = (ca, cb) {
        let opacity = as_real(&layer.opacity).narrowed();
        let v = choose|weights: Weights|
            {
                &&& #[trigger] are_layer_weights(x, p, layer, by, weights)
                &&& is_composited(x, p, i, layer.blend_mode, opacity, weights, ra)
            };
        let w = choose|weights: Weights|
            {
                &&& #[trigger] are_layer_weights(y, q, layer, by, weights)
                &&& is_composited(y, q, i, layer.blend_mode, opacity, weights, rb)
            };
        let same = p.img.width == x.img.width && p.img.height == x.img.height;
        masks_are_found_alike(
            if same {
                layer.mask
            } else {
                None
            },
            x.img.width,
            x.img.height,
            by.limits,
            by.world,
            v,
            w,
        );
        composites_agree(x, y, p, q, i, layer.blend_mode, opacity, v, w, ra, rb);
    }
}

proof fn layers_runs_agree(
    layers: Seq<Layer>,
    i: nat,
    a: DecodedInput,
    b: DecodedInput,
    by: Setting,
    ca: Option<Pipeline>,
    cb: Option<Pipeline>,
    ra: Result<Pipeline, AtxError>,
    rb: Result<Pipeline, AtxError>,
)
    requires
        same_input(a, b),
        same_canvas(ca, cb),
        is_layers_run(layers, i, a, by, ca, ra),
        is_layers_run(layers, i, b, by, cb, rb),
    ensures
        same_outcome(ra, rb),
        ra matches Ok(p) ==> p.img.well_formed(),
    decreases layers.len() - i,
{
    if i < layers.len() {
        let k = i as int;
        let layer = layers[k];
        let (c, m) = choose|made: Result<Pipeline, AtxError>, next: Result<Pipeline, AtxError>|
            {
                &&& #[trigger] is_layer_made(layer, k, a, by, made)
                &&& match made {
                    Err(e) => next == made && fails(ra, e@),
                    Ok(p) => is_laid(ca, layer, k, p, by, next) && match next {
                        Err(e) => fails(ra, e@),
                        Ok(st) => is_layers_run(layers, i + 1, a, by, Some(st), ra),
                    },
                }
                &&& #[trigger] is_step(next)
            };
        let (d, n) = choose|made: Result<Pipeline, AtxError>, next: Result<Pipeline, AtxError>|
            {
                &&& #[trigger] is_layer_made(layer, k, b, by, made)
                &&& match made {
                    Err(e) => next == made && fails(rb, e@),
                    Ok(p) => is_laid(cb, layer, k, p, by, next) && match next {
                        Err(e) => fails(rb, e@),
                        Ok(st) => is_layers_run(layers, i + 1, b, by, Some(st), rb),
                    },
                }
                &&& #[trigger] is_step(next)
            };
        makings_of_layers_agree(layer, k, a, b, by, c, d);
        if let (Ok(p), Ok(q)) = (c, d) {
            layings_agree(ca, cb, layer, k, p, q, by, m, n);
            if let (Ok(x), Ok(y)) = (m, n) {
                layers_runs_agree(layers, i + 1, a, b, by, Some(x), Some(y), ra, rb);
            }
        }
    }
}

proof fn openings_agree(
    recipe: TransformRecipe,
    a: DecodedInput,
    b: DecodedInput,
    by: Setting,
    ra: Result<Pipeline, AtxError>,
    rb: Result<Pipeline, AtxError>,
)
    requires
        same_input(a, b),
        is_opened(recipe, a, by, ra),
        is_opened(recipe, b, by, rb),
    ensures
        same_outcome(ra, rb),
        ra matches Ok(p) ==> p.img.well_formed(),
{
    match recipe.layers {
        Some(layers) => {
            layers_runs_agree(layers@, 0, a, b, by, None, None, ra, rb);
        },
        None => {
            beginnings_agree(a, b, starting_space(recipe), ra->Ok_0, rb->Ok_0);
        },
    }
}

proof fn carryings_out_agree(
    recipe: TransformRecipe,
    a: DecodedInput,
    b: DecodedInput,
    by: Setting,
    ra: Result<EncodedOutput, AtxError>,
    rb: Result<EncodedOutput, AtxError>,
)
    requires
        same_input(a, b),
        is_carried_out(recipe, a, by, ra),
        is_carried_out(recipe, b, by, rb),
    ensures
        same_output(ra, rb),
{
    let ops = recipe.operations@;
    let tables = by.tables;
    let (c, m) = choose|opened: Result<Pipeline, AtxError>, done: Result<Pipeline, AtxError>|
        {
            &&& #[trigger] is_opened(recipe, a, by, opened)
            &&& #[trigger] is_step(done)
            &&& match opened {
                Err(e) => fails(ra, e@),
                Ok(st) => is_ops_run(st, ops, 0, by, done) && match done {
                    Err(e) => fails(ra, e@),
                    Ok(p) => is_finished(p, ops, a.icc, a.format@, a.exif_has_any, tables, ra),
                },
            }
        };
    let (d, n) = choose|opened: Result<Pipeline, AtxError>, done: Result<Pipeline, AtxError>|
        {
            &&& #[trigger] is_opened(recipe, b, by, opened)
            &&& #[trigger] is_step(done)
            &&& match opened {
                Err(e) => fails(rb, e@),
                Ok(st) => is_ops_run(st, ops, 0, by, done) && match done {
                    Err(e) => fails(rb, e@),
                    Ok(p) => is_finished(p, ops, b.icc, b.format@, b.exif_has_any, tables, rb),
                },
            }
        };
    openings_agree(recipe, a, b, by, c, d);
    if let (Ok(x), Ok(y)) = (c, d) {
        ops_agree(x, y, ops, 0, by, m, n);
        if let (Ok(p), Ok(q)) = (m, n) {
            outputs_agree(p, q, ops, a.icc, b.icc, a.format@, a.exif_has_any, tables, ra, rb);
        }
    }
}

/// The same bytes under the same recipe, with the same limits and with revisions that answer
/// alike, come out as the same bytes with the same media type, size and warnings, or fail
/// with the same error. What is worked out elsewhere depends on what it is worked out from:
/// the operation, the image that it finds, and what the revisions answer.
pub proof fn whole_runs_agree(
    recipe: TransformRecipe,
    bytes: Seq<u8>,
    a: Setting,
    b: Setting,
    ra: Result<EncodedOutput, AtxError>,
    rb: Result<EncodedOutput, AtxError>,
)
    requires
        a.limits == b.limits,
        a.tables == b.tables,
        a.world.supply == b.world.supply,
        a.world.kernel == b.world.kernel,
        forall|id: Seq<char>| #[trigger] (a.world.answers)(id) == (b.world.answers)(id),
        is_whole_run(recipe, bytes, a, ra),
        is_whole_run(recipe, bytes, b, rb),
    ensures
        same_output(ra, rb),
{
    assert(a.world.answers =~= b.world.answers);
    assert(a == b);
    if start_fault(recipe, bytes, a.limits) is None {
        let space = starting_space(recipe);
        let x = choose|input: DecodedInput|
            {
                &&& #[trigger] is_decoded(bytes, a.limits, space, a.tables, input)
                &&& input.img.well_formed()
                &&& is_carried_out(recipe, input, a, ra)
            };
        let y = choose|input: DecodedInput|
            {
                &&& #[trigger] is_decoded(bytes, a.limits, space, a.tables, input)
                &&& input.img.well_formed()
                &&& is_carried_out(recipe, input, a, rb)
            };
        inputs_agree(bytes, a.limits, space, a.tables, x, y);
        carryings_out_agree(recipe, x, y, a, ra, rb);
    }
}

} // verus!
