//! From bytes to bytes: how an input enters a pipeline, how layers become one image, and how
//! the result leaves it.
use vstd::prelude::*;

use crate::binary::Real32;
use crate::codec::{encode, encoded, mime_text, mime_type, WEBP_MAX_SIDE};
use crate::effects::{as_real, from_byte_pixel};
use crate::error::{fault_text, AtxError, Fault};
use crate::input::{
    byte_colour, bytes_view, complete, decode_checked, exif_decoded, format_guessed, header_decoded,
    image_of_bytes, image_of_words, memory_for, orientation_of, pixels_decoded, pixels_fault,
    read_exif, word_colour, ExifFieldView, ExifInfo, FormatKind, FormatView, Header, InputFormat,
    Pixels, PixelsView,
};
use crate::linear::{
    ensure_space, from_rgba16, from_rgba16_srgb, from_rgba8, from_rgba8_srgb, word_light,
    word_to_srgb, LinearImage, Rgba16, Space, Tables,
};
use crate::number::{Number, SHORT_ONE};
use crate::ops::blend::{composite, composite_pixel, weight_at};
use crate::ops::fonts::texts;
use crate::pipeline::{find_space, first_space, is_moved, is_same, Pipeline};
use crate::pixel_ops::{
    apply_orientation, orientation_affine, orientation_map, oriented, show_size, size_text,
};
use crate::raster::{Image, Rgba, Rgba32};
use crate::recipe::{
    recipe_fault, validate, BlendMode, Operation, OutputFormat, StripScope, TransformRecipe,
};
use crate::text::{cat2, cat3, cat4, cat5, dec, decimal};
use crate::transform::{Affine, Transform};
use crate::Limits;

verus! {

/// The version of what the engine does. It changes whenever the bytes of a result would.
pub const ENGINE_VERSION: &'static str = "atx-core/2";

/// A finished result.
pub struct EncodedOutput {
    pub bytes: Vec<u8>,
    pub mime_type: String,
    pub width: u32,
    pub height: u32,
    pub warnings: Vec<String>,
}

// Input.

/// The space that a recipe starts in: that of its first operation that has one, and encoded
/// colours where there are layers or no such operation.
pub open spec fn starting_space(recipe: TransformRecipe) -> Space {
    if recipe.layers is Some {
        Space::Srgb
    } else {
        match first_space(recipe.operations@, 0) {
            Some(s) => s,
            None => Space::Srgb,
        }
    }
}

/// The space that a recipe starts in.
pub fn initial_space(recipe: &TransformRecipe) -> (r: Space)
    ensures
        r == starting_space(*recipe),
{
    if recipe.layers.is_some() {
        return Space::Srgb;
    }
    match find_space(&recipe.operations) {
        Some(s) => s,
        None => Space::Srgb,
    }
}

/// An input in its working form, the right way up.
pub struct DecodedInput {
    pub img: LinearImage,
    /// From the pixels of the source to those of the image.
    pub xf: Affine,
    pub has_alpha: bool,
    pub icc: Option<Vec<u8>>,
    pub format: InputFormat,
    pub exif_has_any: bool,
}

/// A 16-bit pixel in a working space.
pub open spec fn from_word_pixel(space: Space, tables: Tables, p: Rgba16) -> Rgba32 {
    match space {
        Space::Srgb => word_to_srgb(p),
        Space::Linear => word_light(tables.eotf_u16@, p),
    }
}

/// An image holds pixels that were read, in a working space.
pub open spec fn holds_pixels(p: PixelsView, space: Space, tables: Tables, img: LinearImage) -> bool {
    &&& img.well_formed()
    &&& match p {
        PixelsView::Bytes { width, height, data } => {
            &&& img.width == width && img.height == height
            &&& forall|i: int|
                0 <= i < img.data@.len() ==> #[trigger] img.data@[i] == from_byte_pixel(
                    space,
                    tables,
                    byte_colour(data, i),
                )
        },
        PixelsView::Words { width, height, data } => {
            &&& img.width == width && img.height == height
            &&& forall|i: int|
                0 <= i < img.data@.len() ==> #[trigger] img.data@[i] == from_word_pixel(
                    space,
                    tables,
                    word_colour(data, i),
                )
        },
    }
}

/// Puts pixels that were read into a working space.
pub fn take_in(p: &Pixels, space: Space, tables: &Tables) -> (r: LinearImage)
    requires
        complete(p@),
        tables.well_formed(),
    ensures
        holds_pixels(p@, space, *tables, r),
{
    match p {
        Pixels::Bytes { width, height, data } => {
            let bytes: Image<Rgba> = image_of_bytes(*width, *height, data);
            match space {
                Space::Linear => from_rgba8(&bytes, tables),
                Space::Srgb => from_rgba8_srgb(&bytes),
            }
        },
        Pixels::Words { width, height, data } => {
            let words: Image<Rgba16> = image_of_words(*width, *height, data);
            match space {
                Space::Linear => from_rgba16(&words, tables),
                Space::Srgb => from_rgba16_srgb(&words),
            }
        },
    }
}

/// The orientation that EXIF data ask for, where it is another than upright.
pub open spec fn turn_of(fields: Option<Seq<ExifFieldView>>) -> Option<u16> {
    match fields {
        Some(f) => match orientation_of(f) {
            Some(o) => if o != 1 {
                Some(o)
            } else {
                None
            },
            None => None,
        },
        None => None,
    }
}

/// A colour profile that is not empty.
pub open spec fn profile_of(icc: Option<Seq<u8>>) -> Option<Seq<u8>> {
    match icc {
        Some(p) => if p.len() > 0 {
            Some(p)
        } else {
            None
        },
        None => None,
    }
}

/// What an input gives.
pub open spec fn is_decoded(
    bytes: Seq<u8>,
    limits: Limits,
    space: Space,
    tables: Tables,
    d: DecodedInput,
) -> bool {
    &&& pixels_fault(bytes, limits) is None
    &&& format_guessed(bytes) == Some(d.format@)
    &&& header_decoded(bytes, memory_for(limits)) matches Ok(h)
    &&& d.has_alpha == h.has_alpha
    &&& bytes_view(d.icc) == profile_of(h.icc)
    &&& d.exif_has_any == (exif_decoded(bytes) matches Some(f) && f.len() > 0)
    &&& pixels_decoded(bytes, memory_for(limits)) matches Ok(p)
    &&& exists|raw: LinearImage| #[trigger]
        holds_pixels(p, space, tables, raw) && match turn_of(exif_decoded(bytes)) {
            Some(o) => oriented(raw, o, d.img) && d.xf == Transform::identity().followed_by(
                orientation_map(raw.width, raw.height, o),
            ),
            None => is_same(raw, d.img) && d.xf == Transform::identity(),
        }
}

/// Reads an input into a working space and turns it the right way up.
pub fn decode_normalized(bytes: &[u8], limits: &Limits, space: Space, tables: &Tables) -> (r: Result<
    DecodedInput,
    AtxError,
>)
    requires
        tables.well_formed(),
    ensures
        match r {
            Ok(d) => d.img.well_formed() && is_decoded(bytes@, *limits, space, *tables, d),
            Err(e) => pixels_fault(bytes@, *limits) == Some(e@),
        },
{
    let (format, header, pixels): (InputFormat, Header, Pixels) = match decode_checked(
        bytes,
        limits,
    ) {
        Ok(v) => v,
        Err(e) => {
            return Err(e);
        },
    };
    let raw: LinearImage = take_in(&pixels, space, tables);
    assert(holds_pixels(pixels@, space, *tables, raw));
    let exif: ExifInfo = read_exif(bytes);
    let icc: Option<Vec<u8>> = match header.icc {
        Some(p) => if p.len() > 0 {
            Some(p)
        } else {
            None
        },
        None => None,
    };
    let ghost before = raw;
    let upright: Transform = Transform::identity();
    let (img, xf): (LinearImage, Affine) = match exif.orientation {
        Some(o) => if o != 1 {
            let xf: Affine = upright.followed_by(orientation_affine(raw.width, raw.height, o));
            (apply_orientation(raw, o), xf)
        } else {
            (raw, upright)
        },
        None => (raw, upright),
    };
    Ok(
        DecodedInput {
            img,
            xf,
            has_alpha: header.has_alpha,
            icc,
            format,
            exif_has_any: exif.has_any,
        },
    )
}

/// What stops a recipe before its first operation.
pub open spec fn start_fault(recipe: TransformRecipe, bytes: Seq<u8>, limits: Limits) -> Option<Fault> {
    match recipe_fault(recipe) {
        Some(f) => Some(f),
        None => pixels_fault(bytes, limits),
    }
}

/// Checks a recipe and reads its input.
pub fn start(recipe: &TransformRecipe, bytes: &[u8], limits: &Limits, tables: &Tables) -> (r: Result<
    DecodedInput,
    AtxError,
>)
    requires
        tables.well_formed(),
    ensures
        match r {
            Ok(d) => {
                &&& start_fault(*recipe, bytes@, *limits) is None
                &&& d.img.well_formed()
                &&& is_decoded(bytes@, *limits, starting_space(*recipe), *tables, d)
            },
            Err(e) => start_fault(*recipe, bytes@, *limits) == Some(e@),
        },
{
    match validate(recipe) {
        Ok(_) => {},
        Err(e) => {
            return Err(e);
        },
    }
    decode_normalized(bytes, limits, initial_space(recipe), tables)
}

/// The pipeline that an image starts in.
pub fn begin(img: LinearImage, space: Space, xf: Affine, has_alpha: bool) -> (r: Pipeline)
    ensures
        r.img == img,
        r.space == space,
        r.xf == xf,
        r.has_alpha == has_alpha,
        r.strip is None,
        r.warnings@.len() == 0,
{
    Pipeline { img, space, xf, warnings: Vec::new(), strip: None, has_alpha }
}

// Layers.

/// A fault inside layer `i`.
pub open spec fn fault_in_layer(i: int, fault: Fault) -> Fault {
    match fault {
        Fault::Operation { index, op, message } => Fault::Operation {
            index,
            op,
            message: "in layers["@ + decimal(i as nat) + "]: "@ + message,
        },
        Fault::InvalidRecipe(m) => Fault::InvalidRecipe(
            "layers["@ + decimal(i as nat) + "]: "@ + m,
        ),
        _ => fault,
    }
}

/// Puts an error down to layer `i`.
pub fn layer_error(i: usize, e: AtxError) -> (r: AtxError)
    ensures
        r@ == fault_in_layer(i as int, e@),
{
    match e {
        AtxError::Operation { index, op, message } => {
            let number: String = dec(i as u64);
            AtxError::Operation {
                index,
                op,
                message: cat4("in layers[", number.as_str(), "]: ", message.as_str()),
            }
        },
        AtxError::InvalidRecipe(m) => {
            let number: String = dec(i as u64);
            AtxError::InvalidRecipe(cat4("layers[", number.as_str(), "]: ", m.as_str()))
        },
        other => other,
    }
}

/// What is said of a layer's source that fails: `what` is `read` or `decoded`.
pub open spec fn source_text(i: int, id: Seq<char>, what: Seq<char>, cause: Fault) -> Seq<char> {
    "layers["@ + decimal(i as nat) + "] (source): revision "@ + id + " could not be "@ + (what
        + ": "@ + fault_text(cause))
}

fn source_error(i: usize, id: &str, what: &str, cause: AtxError) -> (r: AtxError)
    ensures
        r@ == Fault::InvalidRecipe(source_text(i as int, id@, what@, cause@)),
{
    let number: String = dec(i as u64);
    let text: String = cause.message();
    let head: String = cat5(
        "layers[",
        number.as_str(),
        "] (source): revision ",
        id,
        " could not be ",
    );
    let tail: String = cat3(what, ": ", text.as_str());
    AtxError::InvalidRecipe(cat2(head.as_str(), tail.as_str()))
}

/// Why the source of layer `i` cannot be used.
pub open spec fn layer_source_fault(
    i: int,
    id: Seq<char>,
    asset: Result<Vec<u8>, AtxError>,
    limits: Limits,
) -> Option<Fault> {
    match asset {
        Err(e) => Some(Fault::InvalidRecipe(source_text(i, id, "read"@, e@))),
        Ok(bytes) => match pixels_fault(bytes@, limits) {
            Some(f) => Some(Fault::InvalidRecipe(source_text(i, id, "decoded"@, f))),
            None => None,
        },
    }
}

/// Reads the source of layer `i` from what its asset gave, in encoded colours.
pub fn layer_source(
    i: usize,
    id: &str,
    asset: Result<Vec<u8>, AtxError>,
    limits: &Limits,
    tables: &Tables,
) -> (r: Result<DecodedInput, AtxError>)
    requires
        tables.well_formed(),
    ensures
        match r {
            Ok(d) => {
                &&& layer_source_fault(i as int, id@, asset, *limits) is None
                &&& d.img.well_formed()
                &&& is_decoded(asset->Ok_0@, *limits, Space::Srgb, *tables, d)
            },
            Err(e) => layer_source_fault(i as int, id@, asset, *limits) == Some(e@),
        },
{
    let bytes: Vec<u8> = match asset {
        Ok(b) => b,
        Err(e) => {
            return Err(source_error(i, id, "read", e));
        },
    };
    match decode_normalized(bytes.as_slice(), limits, Space::Srgb, tables) {
        Ok(d) => Ok(d),
        Err(e) => Err(source_error(i, id, "decoded", e)),
    }
}

/// Texts under the number of a layer.
pub open spec fn under_layer(i: int, list: Seq<Seq<char>>) -> Seq<Seq<char>> {
    Seq::new(list.len(), |k: int| "layers["@ + decimal(i as nat) + "]: "@ + list[k])
}

fn put_under_layer(i: usize, list: &Vec<String>) -> (r: Vec<String>)
    ensures
        texts(r@) == under_layer(i as int, texts(list@)),
{
    let number: String = dec(i as u64);
    let mut r: Vec<String> = Vec::new();
    let mut k: usize = 0;
    while k < list.len()
        invariant
            k <= list@.len(),
            number@ == decimal(i as nat),
            texts(r@) == under_layer(i as int, texts(list@)).take(k as int),
        decreases list.len() - k,
    {
        let ghost before = texts(r@);
        let t: String = cat4("layers[", number.as_str(), "]: ", list[k].as_str());
        let ghost said = t@;
        r.push(t);
        assert(texts(r@) =~= before.push(said));
        k = k + 1;
        assert(texts(r@) =~= under_layer(i as int, texts(list@)).take(k as int));
    }
    assert(texts(r@) =~= under_layer(i as int, texts(list@)));
    r
}

/// A layer that is ready to be composited: its colours are encoded, and what was said of it
/// stands under its number.
pub open spec fn is_layer(st: Pipeline, i: int, tables: Tables, r: Pipeline) -> bool {
    &&& is_moved(st.img, st.space, Space::Srgb, tables, r.img)
    &&& r.space == Space::Srgb
    &&& r.xf == st.xf
    &&& r.strip == st.strip
    &&& r.has_alpha == st.has_alpha
    &&& texts(r.warnings@) == under_layer(i, texts(st.warnings@))
}

/// Makes a layer ready to be composited, once its operations have run.
pub fn finish_layer(st: Pipeline, i: usize, tables: &Tables) -> (r: Pipeline)
    requires
        st.img.well_formed(),
        tables.well_formed(),
    ensures
        r.img.well_formed(),
        is_layer(st, i as int, *tables, r),
{
    let warnings: Vec<String> = put_under_layer(i, &st.warnings);
    let img: LinearImage = ensure_space(st.img, st.space, Space::Srgb, tables);
    Pipeline {
        img,
        space: Space::Srgb,
        xf: st.xf,
        warnings,
        strip: st.strip,
        has_alpha: st.has_alpha,
    }
}

/// What is said of a layer whose size is not that of the backdrop.
pub open spec fn layer_size_text(i: int, lw: u32, lh: u32, bw: u32, bh: u32) -> Seq<char> {
    "layers["@ + decimal(i as nat) + "]: after its ops the layer is "@ + size_text(lw, lh)
        + " but the backdrop (layers[0]) is "@ + (size_text(bw, bh)
        + "; every layer must match the backdrop dimensions — add a resize or crop to layers["@
        + decimal(i as nat) + "].ops to bring it to "@ + size_text(bw, bh))
}

fn show_layer_size(i: usize, lw: u32, lh: u32, bw: u32, bh: u32) -> (r: String)
    ensures
        r@ == layer_size_text(i as int, lw, lh, bw, bh),
{
    let number: String = dec(i as u64);
    let layer: String = show_size(lw, lh);
    let backdrop: String = show_size(bw, bh);
    let head: String = cat5(
        "layers[",
        number.as_str(),
        "]: after its ops the layer is ",
        layer.as_str(),
        " but the backdrop (layers[0]) is ",
    );
    let tail: String = cat5(
        backdrop.as_str(),
        "; every layer must match the backdrop dimensions — add a resize or crop to layers[",
        number.as_str(),
        "].ops to bring it to ",
        backdrop.as_str(),
    );
    cat2(head.as_str(), tail.as_str())
}

/// What a layer reports, or the canvas with it.
pub open spec fn is_composited(
    canvas: Pipeline,
    layer: Pipeline,
    i: int,
    mode: BlendMode,
    opacity: Real32,
    weights: Option<Result<Image<Real32>, AtxError>>,
    r: Result<Pipeline, AtxError>,
) -> bool {
    if layer.img.width != canvas.img.width || layer.img.height != canvas.img.height {
        r matches Err(e) && e@ == Fault::InvalidRecipe(
            layer_size_text(
                i,
                layer.img.width,
                layer.img.height,
                canvas.img.width,
                canvas.img.height,
            ),
        )
    } else {
        match weights {
            Some(Err(cause)) => r matches Err(e) && e@ == fault_in_layer(i, cause@),
            _ => {
                &&& r matches Ok(next)
                &&& next.img.width == canvas.img.width
                &&& next.img.height == canvas.img.height
                &&& forall|k: int|
                    0 <= k < canvas.img.data@.len() ==> #[trigger] next.img.data@[k]
                        == composite_pixel(
                        mode,
                        opacity,
                        layer_weight(weights, k),
                        canvas.img.data@[k],
                        layer.img.data@[k],
                    )
                &&& next.space == canvas.space
                &&& next.xf == canvas.xf
                &&& next.strip == canvas.strip
                &&& next.has_alpha == (canvas.has_alpha || layer.has_alpha)
                &&& texts(next.warnings@) == texts(canvas.warnings@) + texts(layer.warnings@)
            },
        }
    }
}

/// The weight of a layer at a place; without a mask it is 1.
pub open spec fn layer_weight(weights: Option<Result<Image<Real32>, AtxError>>, k: int) -> Real32 {
    match weights {
        Some(Ok(w)) => w.data@[k],
        _ => Real32 { bits: SHORT_ONE },
    }
}

/// Composites layer `i` onto the canvas. `weights` are what its mask gave, where it has one.
pub fn add_layer(
    canvas: Pipeline,
    layer: Pipeline,
    i: usize,
    mode: BlendMode,
    opacity: &Number,
    weights: Option<Result<Image<Real32>, AtxError>>,
) -> (r: Result<Pipeline, AtxError>)
    requires
        canvas.img.well_formed(),
        layer.img.well_formed(),
        weights matches Some(Ok(w)) ==> w.data@.len() == layer.img.data@.len(),
    ensures
        is_composited(
            canvas,
            layer,
            i as int,
            mode,
            as_real(opacity).narrowed(),
            weights,
            r,
        ),
        r matches Ok(next) ==> next.img.well_formed(),
{
    if layer.img.width != canvas.img.width || layer.img.height != canvas.img.height {
        return Err(
            AtxError::InvalidRecipe(
                show_layer_size(
                    i,
                    layer.img.width,
                    layer.img.height,
                    canvas.img.width,
                    canvas.img.height,
                ),
            ),
        );
    }
    let ghost given = weights;
    let given_weights: Option<Vec<Real32>> = match weights {
        None => None,
        Some(Ok(w)) => Some(w.data),
        Some(Err(e)) => {
            return Err(layer_error(i, e));
        },
    };
    let ghost was = canvas;
    let mut img: LinearImage = canvas.img;
    composite(&mut img, &layer.img, mode, as_real(opacity).narrowed(), &given_weights);
    let mut warnings: Vec<String> = canvas.warnings;
    let mut more: Vec<String> = layer.warnings;
    warnings.append(&mut more);
    proof {
        assert(texts(warnings@) =~= texts(was.warnings@) + texts(layer.warnings@));
        assert forall|k: int| 0 <= k < was.img.data@.len() implies #[trigger] img.data@[k]
            == composite_pixel(
            mode,
            as_real(opacity).narrowed(),
            layer_weight(given, k),
            was.img.data@[k],
            layer.img.data@[k],
        ) by {
            assert(weight_at(given_weights, k) == layer_weight(given, k));
        }
    }
    Ok(
        Pipeline {
            img,
            space: canvas.space,
            xf: canvas.xf,
            warnings,
            strip: canvas.strip,
            has_alpha: canvas.has_alpha || layer.has_alpha,
        },
    )
}

/// The error of a recipe with an empty list of layers.
pub fn no_layers() -> (r: AtxError)
    ensures
        r@ == Fault::InvalidRecipe("layers must not be empty"@),
{
    AtxError::InvalidRecipe("layers must not be empty".to_owned())
}

// Output.

/// The format that an input can be written in again.
#[verifier::allow_in_spec]
pub fn output_format_of(kind: FormatKind) -> Option<OutputFormat>
    returns
        (match kind {
            FormatKind::Jpeg => Some(OutputFormat::Jpeg),
            FormatKind::Png => Some(OutputFormat::Png),
            FormatKind::WebP => Some(OutputFormat::Webp),
            FormatKind::Avif => Some(OutputFormat::Avif),
            FormatKind::Other => None,
        }),
{
    match kind {
        FormatKind::Jpeg => Some(OutputFormat::Jpeg),
        FormatKind::Png => Some(OutputFormat::Png),
        FormatKind::WebP => Some(OutputFormat::Webp),
        FormatKind::Avif => Some(OutputFormat::Avif),
        FormatKind::Other => None,
    }
}

/// What is written: format, quality and bits for each channel.
#[derive(Clone, Copy, Debug, PartialEq, Eq, Structural)]
pub struct OutputChoice {
    pub format: OutputFormat,
    pub quality: Option<u8>,
    pub bit_depth: u8,
}

/// What the first `encode` operation from place `i` on asks for.
pub open spec fn encoding_from(ops: Seq<Operation>, i: int) -> Option<OutputChoice>
    decreases ops.len() - i,
{
    if i < 0 || i >= ops.len() {
        None
    } else {
        match ops[i] {
            Operation::Encode { format, quality, bit_depth } => Some(
                OutputChoice {
                    format,
                    quality,
                    bit_depth: match bit_depth {
                        Some(d) => d,
                        None => 8,
                    },
                },
            ),
            _ => encoding_from(ops, i + 1),
        }
    }
}

fn find_encoding(ops: &Vec<Operation>) -> (r: Option<OutputChoice>)
    ensures
        r == encoding_from(ops@, 0),
{
    let mut i: usize = 0;
    while i < ops.len()
        invariant
            i <= ops@.len(),
            encoding_from(ops@, 0) == encoding_from(ops@, i as int),
        decreases ops.len() - i,
    {
        match &ops[i] {
            Operation::Encode { format, quality, bit_depth } => {
                return Some(
                    OutputChoice {
                        format: *format,
                        quality: *quality,
                        bit_depth: match bit_depth {
                            Some(d) => *d,
                            None => 8,
                        },
                    },
                );
            },
            _ => {},
        }
        i = i + 1;
    }
    None
}

/// What is written: what the recipe asks for, else the format of the input, else JPEG.
pub open spec fn output_choice(ops: Seq<Operation>, kind: FormatKind) -> OutputChoice {
    match encoding_from(ops, 0) {
        Some(c) => c,
        None => OutputChoice {
            format: match output_format_of(kind) {
                Some(f) => f,
                None => OutputFormat::Jpeg,
            },
            quality: None,
            bit_depth: 8,
        },
    }
}

/// Finds out what is written.
pub fn choose_output(ops: &Vec<Operation>, kind: FormatKind) -> (r: OutputChoice)
    ensures
        r == output_choice(ops@, kind),
{
    match find_encoding(ops) {
        Some(c) => c,
        None => OutputChoice {
            format: match output_format_of(kind) {
                Some(f) => f,
                None => OutputFormat::Jpeg,
            },
            quality: None,
            bit_depth: 8,
        },
    }
}

/// A format as messages show it.
pub open spec fn format_shown(format: OutputFormat) -> Seq<char> {
    match format {
        OutputFormat::Jpeg => "Jpeg"@,
        OutputFormat::Png => "Png"@,
        OutputFormat::Webp => "Webp"@,
        OutputFormat::Avif => "Avif"@,
    }
}

fn show_format(format: OutputFormat) -> (r: &'static str)
    ensures
        r@ == format_shown(format),
{
    match format {
        OutputFormat::Jpeg => "Jpeg",
        OutputFormat::Png => "Png",
        OutputFormat::Webp => "Webp",
        OutputFormat::Avif => "Avif",
    }
}

/// Zero or one text.
pub open spec fn if_so(so: bool, text: Seq<char>) -> Seq<Seq<char>> {
    if so {
        seq![text]
    } else {
        seq![]
    }
}

/// Adds a text where there is something to say.
fn say_if(list: &mut Vec<String>, so: bool, text: &str)
    ensures
        texts(final(list)@) == texts(old(list)@) + if_so(so, text@),
{
    let ghost before = texts(list@);
    if so {
        list.push(text.to_owned());
        assert(texts(list@) =~= before.push(text@));
    }
    assert(texts(list@) =~= before + if_so(so, text@));
}

/// The colour profile that is left for the file.
pub open spec fn profile_left(icc: Option<Vec<u8>>, strip: Option<StripScope>, format: OutputFormat) -> Option<
    Vec<u8>,
> {
    if strip == Some(StripScope::All) || format != OutputFormat::Jpeg {
        None
    } else {
        icc
    }
}

/// What is said before the file is written.
pub open spec fn output_warnings(
    ops: Seq<Operation>,
    format: FormatView,
    choice: OutputChoice,
    strip: Option<StripScope>,
    has_icc: bool,
    exif_has_any: bool,
) -> Seq<Seq<char>> {
    if_so(
        encoding_from(ops, 0) is None && output_format_of(format.kind) is None,
        "input format Some("@ + format.name + ") cannot be re-encoded; falling back to jpeg"@,
    ) + if_so(
        strip == Some(StripScope::All) && has_icc,
        "strip_metadata(all): ICC profile removed"@,
    ) + if_so(
        strip == Some(StripScope::Gps),
        "strip_metadata(gps): v1 drops the entire EXIF block (a superset of GPS)"@,
    ) + if_so(
        strip == Some(StripScope::Exif),
        "strip_metadata(exif): EXIF (including GPS) is guaranteed absent; the ICC profile is preserved"@,
    ) + if_so(
        exif_has_any,
        "EXIF metadata was dropped on re-encode; orientation is normalized into pixel data"@,
    ) + if_so(
        strip != Some(StripScope::All) && has_icc && choice.format != OutputFormat::Jpeg,
        "ICC profile dropped: embedding is only supported for jpeg output in v1 (output: "@
            + format_shown(choice.format) + ")"@,
    )
}

fn warn_of_output(
    list: &mut Vec<String>,
    ops: &Vec<Operation>,
    format: &InputFormat,
    choice: OutputChoice,
    strip: Option<StripScope>,
    has_icc: bool,
    exif_has_any: bool,
)
    ensures
        texts(final(list)@) == texts(old(list)@) + output_warnings(
            ops@,
            format@,
            choice,
            strip,
            has_icc,
            exif_has_any,
        ),
{
    let ghost before = texts(list@);
    let asked: bool = find_encoding(ops).is_some();
    let fallback: String = cat3(
        "input format Some(",
        format.name.as_str(),
        ") cannot be re-encoded; falling back to jpeg",
    );
    say_if(list, !asked && output_format_of(format.kind).is_none(), fallback.as_str());
    say_if(
        list,
        strip == Some(StripScope::All) && has_icc,
        "strip_metadata(all): ICC profile removed",
    );
    say_if(
        list,
        strip == Some(StripScope::Gps),
        "strip_metadata(gps): v1 drops the entire EXIF block (a superset of GPS)",
    );
    say_if(
        list,
        strip == Some(StripScope::Exif),
        "strip_metadata(exif): EXIF (including GPS) is guaranteed absent; the ICC profile is preserved",
    );
    say_if(
        list,
        exif_has_any,
        "EXIF metadata was dropped on re-encode; orientation is normalized into pixel data",
    );
    let dropped: String = cat3(
        "ICC profile dropped: embedding is only supported for jpeg output in v1 (output: ",
        show_format(choice.format),
        ")",
    );
    say_if(
        list,
        strip != Some(StripScope::All) && has_icc && choice.format != OutputFormat::Jpeg,
        dropped.as_str(),
    );
    assert(texts(list@) =~= before + output_warnings(
        ops@,
        format@,
        choice,
        strip,
        has_icc,
        exif_has_any,
    ));
}

/// How a pipeline that ended with an image is written.
pub open spec fn is_written(
    st: Pipeline,
    ops: Seq<Operation>,
    icc: Option<Vec<u8>>,
    format: FormatView,
    exif_has_any: bool,
    img: LinearImage,
    r: Result<EncodedOutput, AtxError>,
) -> bool {
    let choice = output_choice(ops, format.kind);
    let profile = profile_left(icc, st.strip, choice.format);
    match encoded(
        img,
        choice.format,
        choice.quality,
        st.has_alpha && choice.format != OutputFormat::Jpeg,
        profile,
        choice.bit_depth == 16,
    ) {
        Err(f) => r matches Err(e) && e@ == f,
        Ok((file, embedded)) => {
            &&& r matches Ok(out)
            &&& out.bytes@ == file
            &&& out.mime_type@ == mime_text(choice.format)
            &&& out.width == img.width
            &&& out.height == img.height
            &&& texts(out.warnings@) == texts(st.warnings@) + output_warnings(
                ops,
                format,
                choice,
                st.strip,
                icc is Some,
                exif_has_any,
            ) + if_so(
                profile is Some && !embedded,
                "ICC profile could not be embedded and was dropped"@,
            )
        },
    }
}

/// What comes out of a pipeline: the file and what is said of it, or what stopped it.
pub open spec fn is_finished(
    st: Pipeline,
    ops: Seq<Operation>,
    icc: Option<Vec<u8>>,
    format: FormatView,
    exif_has_any: bool,
    tables: Tables,
    r: Result<EncodedOutput, AtxError>,
) -> bool {
    exists|img: LinearImage| #[trigger]
        is_moved(st.img, st.space, Space::Srgb, tables, img) && is_written(
            st,
            ops,
            icc,
            format,
            exif_has_any,
            img,
            r,
        )
}

/// Writes the result of a pipeline.
pub fn finish(
    st: Pipeline,
    ops: &Vec<Operation>,
    icc: Option<Vec<u8>>,
    format: &InputFormat,
    exif_has_any: bool,
    tables: &Tables,
) -> (r: Result<EncodedOutput, AtxError>)
    requires
        st.img.well_formed(),
        tables.well_formed(),
        output_choice(ops@, format.kind).quality matches Some(q) ==> 1 <= q <= 100,
        output_choice(ops@, format.kind).format == OutputFormat::Webp ==> st.img.width
            <= WEBP_MAX_SIDE && st.img.height <= WEBP_MAX_SIDE,
    ensures
        is_finished(st, ops@, icc, format@, exif_has_any, *tables, r),
{
    let ghost was = st;
    let img: LinearImage = ensure_space(st.img, st.space, Space::Srgb, tables);
    assert(is_moved(was.img, was.space, Space::Srgb, *tables, img));
    let choice: OutputChoice = choose_output(ops, format.kind);
    let mut warnings: Vec<String> = st.warnings;
    warn_of_output(
        &mut warnings,
        ops,
        format,
        choice,
        st.strip,
        icc.is_some(),
        exif_has_any,
    );
    let profile: Option<Vec<u8>> = if st.strip == Some(StripScope::All) || choice.format
        != OutputFormat::Jpeg {
        None
    } else {
        icc
    };
    let with_profile: bool = profile.is_some();
    let has_alpha: bool = st.has_alpha && choice.format != OutputFormat::Jpeg;
    let (bytes, embedded): (Vec<u8>, bool) = match encode(
        &img,
        choice.format,
        choice.quality,
        has_alpha,
        profile,
        choice.bit_depth,
    ) {
        Ok(v) => v,
        Err(e) => {
            return Err(e);
        },
    };
    say_if(
        &mut warnings,
        with_profile && !embedded,
        "ICC profile could not be embedded and was dropped",
    );
    Ok(
        EncodedOutput {
            bytes,
            mime_type: mime_type(choice.format).to_owned(),
            width: img.width,
            height: img.height,
            warnings,
        },
    )
}

} // verus!
