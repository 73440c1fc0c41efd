//! The recipe: a list of operations, and optionally a stack of layers that is
//! composited before them.
use vstd::prelude::*;
use vstd::slice::*;

use crate::error::{first_fault, op_error, op_fault, verdict, AtxError, Fault};
use crate::number::{
    is_within, within, Number, FULL_TURN, MINUS_FULL_TURN, MINUS_ONE, ONE, ZERO,
};
use crate::ops::auto_levels::auto_levels_fault;
use crate::ops::blur::{
    blur_fault, median_fault, unsharp_fault, validate_blur, validate_median, validate_unsharp,
};
use crate::ops::clone_heal::disc_fault;
use crate::ops::color::{
    curves_fault, levels_fault, matrix_fault, validate_curves, validate_levels, validate_matrix,
};
use crate::ops::convolve::convolve_fault;
use crate::ops::finish::{grain_fault, validate_grain, validate_vignette, vignette_fault};
use crate::ops::gradient::{stops_fault, validate_stops};
use crate::ops::hsl::hsl_fault;
use crate::ops::lut::lut_fault;
use crate::ops::mask::mask_fault;
use crate::ops::perspective::perspective_fault;
use crate::ops::pixelate::pixelate_fault;
use crate::ops::svg::svg_overlay_fault;
use crate::ops::wb::white_balance_fault;
use crate::text::{
    begins, begins_with, cat2, cat3, cat4, chars_of, dec, decimal, debug_text, hex_digit, hex_value,
    parse_u32, quoted, u32_value,
};

verus! {

/// A recipe. The operations run in order; the last one may fix the encoding of the
/// result. Where there are layers, each runs its own operations on its own source, all
/// are composited onto the first, and the top-level operations finish the composite.
#[derive(Clone, Debug)]
pub struct TransformRecipe {
    pub operations: Vec<Operation>,
    pub layers: Option<Vec<Layer>>,
}

/// One step of a recipe.
#[derive(Clone, Debug)]
pub enum Operation {
    /// Turns the pixels upright by the EXIF orientation.
    AutoOrient,
    /// Rotates clockwise.
    Rotate { angle_degrees: Number, crop: RotateCrop },
    /// Cuts to, or pads to, an aspect ratio or a rectangle.
    Crop {
        aspect_ratio: Option<String>,
        rect: Option<Rect>,
        anchor: Anchor,
        mode: CropMode,
        pad_color: Option<String>,
        coordinate_space: CoordinateSpace,
    },
    /// Scales to a width, a height or both.
    Resize { width: Option<u32>, height: Option<u32>, fit: Fit, without_enlargement: bool },
    /// Brightness, contrast, saturation and sharpness.
    Adjust {
        brightness: Number,
        contrast: Number,
        saturation: Number,
        sharpness: Number,
        mask: Option<MaskRef>,
    },
    /// Straightens a quadrilateral, or corrects keystone by angles.
    Perspective {
        quad: Option<Quad>,
        vertical_degrees: Option<Number>,
        horizontal_degrees: Option<Number>,
        pad_color: Option<String>,
    },
    /// A 4 by 5 matrix on colour and alpha, row by row.
    ColorMatrix { matrix: Vec<Number>, mask: Option<MaskRef> },
    /// Tone curves through control points.
    Curves {
        master: Option<Vec<[u8; 2]>>,
        red: Option<Vec<[u8; 2]>>,
        green: Option<Vec<[u8; 2]>>,
        blue: Option<Vec<[u8; 2]>>,
        mask: Option<MaskRef>,
    },
    /// Input and output levels with a gamma between them.
    Levels {
        in_black: u8,
        in_white: u8,
        gamma: Number,
        out_black: u8,
        out_white: u8,
        mask: Option<MaskRef>,
    },
    /// Gaussian blur.
    Blur { sigma: Number, mask: Option<MaskRef> },
    /// Median filter.
    Median { radius: u32, mask: Option<MaskRef> },
    /// Unsharp masking.
    UnsharpMask { amount: Number, radius: Number, threshold: u8, mask: Option<MaskRef> },
    /// A lookup table from a `.cube` asset.
    Lut { lut_revision_id: String, strength: Number, mask: Option<MaskRef> },
    /// Colour temperature and tint.
    WhiteBalance { temperature: Number, tint: Number, mask: Option<MaskRef> },
    /// Hue, saturation and luminance by colour band.
    Hsl {
        red: Option<HslShift>,
        orange: Option<HslShift>,
        yellow: Option<HslShift>,
        green: Option<HslShift>,
        aqua: Option<HslShift>,
        blue: Option<HslShift>,
        purple: Option<HslShift>,
        magenta: Option<HslShift>,
        mask: Option<MaskRef>,
    },
    /// A convolution with a square kernel.
    Convolve {
        kernel: Vec<Number>,
        size: u32,
        divisor: Number,
        offset: Number,
        mask: Option<MaskRef>,
    },
    /// Mirrors the image.
    Flip { direction: FlipDirection },
    /// Darkens, or brightens, towards the corners.
    Vignette { strength: Number, radius: Number, feather: Number },
    /// Film grain from a seed.
    Grain { amount: Number, size: u32, monochrome: bool, seed: u64, mask: Option<MaskRef> },
    /// Maps luminance to a gradient of colours.
    GradientMap { stops: Vec<GradientStop>, mask: Option<MaskRef> },
    /// Averages square blocks.
    Pixelate { block_size: u32, region: Option<Rect> },
    /// Stretches the tonal range.
    AutoLevels { clip_percent: Number, per_channel: bool, mask: Option<MaskRef> },
    /// Copies a disc from one place to another.
    Clone {
        src_x: u32,
        src_y: u32,
        dest_x: u32,
        dest_y: u32,
        radius: u32,
        feather_px: Number,
    },
    /// Copies the detail of a disc onto the tone of another place.
    Heal {
        src_x: u32,
        src_y: u32,
        dest_x: u32,
        dest_y: u32,
        radius: u32,
        feather_px: Number,
    },
    /// Draws an SVG asset over the image.
    SvgOverlay {
        svg_revision_id: String,
        x: i64,
        y: i64,
        width: Option<u32>,
        height: Option<u32>,
        opacity: Number,
        blend_mode: BlendMode,
        render_text: bool,
        font_revision_ids: Vec<String>,
    },
    /// The output format.
    Encode { format: OutputFormat, quality: Option<u8>, bit_depth: Option<u8> },
    /// Removes metadata.
    StripMetadata { scope: StripScope },
}

/// A mask that limits an operation or a layer to a part of the image.
#[derive(Clone, Debug)]
pub struct MaskRef {
    pub revision_id: String,
    pub invert: bool,
    pub feather_px: Number,
}

/// A quadrilateral: top left, top right, bottom right, bottom left.
/// `text` is the list of corners as messages show it.
#[derive(Clone, Debug)]
pub struct Quad {
    pub corners: [[Number; 2]; 4],
    pub text: String,
}

/// One layer of a composite.
#[derive(Clone, Debug)]
pub struct Layer {
    pub source: LayerSource,
    pub ops: Vec<Operation>,
    pub mask: Option<MaskRef>,
    pub blend_mode: BlendMode,
    pub opacity: Number,
}

/// Where the pixels of a layer come from.
#[derive(Clone, Debug)]
pub enum LayerSource {
    /// The input image.
    Base(BaseKeyword),
    /// Another revision.
    Revision { revision_id: String },
}

impl LayerSource {
    /// The input image as a source.
    pub fn base() -> (r: Self)
        ensures
            r == LayerSource::Base(BaseKeyword::Base),
    {
        LayerSource::Base(BaseKeyword::Base)
    }

    /// Whether the source is the input image.
    pub fn is_base(&self) -> (r: bool)
        ensures
            r == (self is Base),
    {
        match self {
            LayerSource::Base(_) => true,
            LayerSource::Revision { .. } => false,
        }
    }

    /// The revision that the source names, if it names one.
    pub fn revision_id(&self) -> (r: Option<&str>)
        ensures
            match self {
                LayerSource::Revision { revision_id } => r is Some && r->0@ == revision_id@,
                LayerSource::Base(_) => r is None,
            },
    {
        match self {
            LayerSource::Revision { revision_id } => Some(revision_id.as_str()),
            LayerSource::Base(_) => None,
        }
    }
}

/// The word that stands for the input image.
#[derive(Clone, Copy, Debug, PartialEq, Eq, Structural)]
pub enum BaseKeyword {
    Base,
}

/// How a layer is mixed with what lies under it.
#[derive(Clone, Copy, Debug, PartialEq, Eq, Structural)]
pub enum BlendMode {
    Normal,
    Multiply,
    Screen,
    Overlay,
    Darken,
    Lighten,
    ColorDodge,
    ColorBurn,
    HardLight,
    SoftLight,
    Difference,
    Exclusion,
}

/// The shift of one colour band.
#[derive(Clone, Debug)]
pub struct HslShift {
    pub hue: Number,
    pub saturation: Number,
    pub luminance: Number,
}

/// A stop of a gradient.
#[derive(Clone, Debug)]
pub struct GradientStop {
    pub position: Number,
    pub color: String,
}

/// Which way an image is mirrored.
#[derive(Clone, Copy, Debug, PartialEq, Eq, Structural)]
pub enum FlipDirection {
    Horizontal,
    Vertical,
}

/// How a threshold is found.
#[derive(Clone, Copy, Debug, PartialEq, Eq, Structural)]
pub enum ThresholdMethod {
    Fixed,
    Otsu,
    Sauvola,
}

/// A rectangle in pixels.
#[derive(Clone, Copy, Debug, PartialEq, Eq, Structural)]
pub struct Rect {
    pub x: u32,
    pub y: u32,
    pub width: u32,
    pub height: u32,
}

/// What a rotation keeps of its corners.
#[derive(Clone, Copy, Debug, PartialEq, Eq, Structural)]
pub enum RotateCrop {
    LargestInscribedRect,
    Full,
}

/// Where a crop or a pad holds the image.
#[derive(Clone, Copy, Debug, PartialEq, Eq, Structural)]
pub enum Anchor {
    Center,
    Top,
    Bottom,
    Left,
    Right,
    TopLeft,
    TopRight,
    BottomLeft,
    BottomRight,
}

/// Whether an aspect ratio is reached by cutting or by padding.
#[derive(Clone, Copy, Debug, PartialEq, Eq, Structural)]
pub enum CropMode {
    Crop,
    Pad,
}

/// How a scaled image meets its target box.
#[derive(Clone, Copy, Debug, PartialEq, Eq, Structural)]
pub enum Fit {
    Cover,
    Contain,
    Fill,
}

/// The formats that can be written.
#[derive(Clone, Copy, Debug, PartialEq, Eq, Structural)]
pub enum OutputFormat {
    Jpeg,
    Png,
    Webp,
    Avif,
}

/// Which metadata is removed.
#[derive(Clone, Copy, Debug, PartialEq, Eq, Structural)]
pub enum StripScope {
    All,
    Gps,
    Exif,
}

/// The coordinates in which a rectangle is given.
#[derive(Clone, Copy, Debug, PartialEq, Eq, Structural)]
pub enum CoordinateSpace {
    Current,
    Source,
}

impl CoordinateSpace {
    /// Whether these are the coordinates of the image as it stands.
    pub fn is_current(&self) -> (r: bool)
        ensures
            r == (*self == CoordinateSpace::Current),
    {
        match self {
            CoordinateSpace::Current => true,
            CoordinateSpace::Source => false,
        }
    }
}

/// The mask of an operation that takes one.
pub open spec fn mask_of(op: Operation) -> Option<MaskRef> {
    match op {
        Operation::Adjust { mask, .. } => mask,
        Operation::ColorMatrix { mask, .. } => mask,
        Operation::Curves { mask, .. } => mask,
        Operation::Levels { mask, .. } => mask,
        Operation::Hsl { mask, .. } => mask,
        Operation::Lut { mask, .. } => mask,
        Operation::WhiteBalance { mask, .. } => mask,
        Operation::Blur { mask, .. } => mask,
        Operation::Median { mask, .. } => mask,
        Operation::UnsharpMask { mask, .. } => mask,
        Operation::Convolve { mask, .. } => mask,
        Operation::Grain { mask, .. } => mask,
        Operation::GradientMap { mask, .. } => mask,
        Operation::AutoLevels { mask, .. } => mask,
        _ => None,
    }
}

impl Operation {
    /// The mask that limits this operation, if it has one. Geometry, metadata and the
    /// operations that bring their own region take none.
    pub fn mask(&self) -> (r: Option<&MaskRef>)
        ensures
            match mask_of(*self) {
                Some(m) => r == Some(&m),
                None => r is None,
            },
    {
        match self {
            Operation::Adjust { mask, .. } => mask.as_ref(),
            Operation::ColorMatrix { mask, .. } => mask.as_ref(),
            Operation::Curves { mask, .. } => mask.as_ref(),
            Operation::Levels { mask, .. } => mask.as_ref(),
            Operation::Hsl { mask, .. } => mask.as_ref(),
            Operation::Lut { mask, .. } => mask.as_ref(),
            Operation::WhiteBalance { mask, .. } => mask.as_ref(),
            Operation::Blur { mask, .. } => mask.as_ref(),
            Operation::Median { mask, .. } => mask.as_ref(),
            Operation::UnsharpMask { mask, .. } => mask.as_ref(),
            Operation::Convolve { mask, .. } => mask.as_ref(),
            Operation::Grain { mask, .. } => mask.as_ref(),
            Operation::GradientMap { mask, .. } => mask.as_ref(),
            Operation::AutoLevels { mask, .. } => mask.as_ref(),
            _ => None,
        }
    }
}

/// The name of an operation in recipes and messages.
pub open spec fn operation_name(op: Operation) -> Seq<char> {
    match op {
        Operation::AutoOrient => "auto_orient"@,
        Operation::Rotate { .. } => "rotate"@,
        Operation::Crop { .. } => "crop"@,
        Operation::Resize { .. } => "resize"@,
        Operation::Adjust { .. } => "adjust"@,
        Operation::Encode { .. } => "encode"@,
        Operation::Perspective { .. } => "perspective"@,
        Operation::ColorMatrix { .. } => "color_matrix"@,
        Operation::Curves { .. } => "curves"@,
        Operation::Levels { .. } => "levels"@,
        Operation::Blur { .. } => "blur"@,
        Operation::Median { .. } => "median"@,
        Operation::UnsharpMask { .. } => "unsharp_mask"@,
        Operation::Lut { .. } => "lut"@,
        Operation::WhiteBalance { .. } => "white_balance"@,
        Operation::Hsl { .. } => "hsl"@,
        Operation::Convolve { .. } => "convolve"@,
        Operation::Clone { .. } => "clone"@,
        Operation::Heal { .. } => "heal"@,
        Operation::SvgOverlay { .. } => "svg_overlay"@,
        Operation::Flip { .. } => "flip"@,
        Operation::Vignette { .. } => "vignette"@,
        Operation::Grain { .. } => "grain"@,
        Operation::GradientMap { .. } => "gradient_map"@,
        Operation::Pixelate { .. } => "pixelate"@,
        Operation::AutoLevels { .. } => "auto_levels"@,
        Operation::StripMetadata { .. } => "strip_metadata"@,
    }
}

/// The name of an operation in recipes and messages.
pub fn op_name(op: &Operation) -> (r: &'static str)
    ensures
        r@ == operation_name(*op),
{
    match op {
        Operation::AutoOrient => "auto_orient",
        Operation::Rotate { .. } => "rotate",
        Operation::Crop { .. } => "crop",
        Operation::Resize { .. } => "resize",
        Operation::Adjust { .. } => "adjust",
        Operation::Encode { .. } => "encode",
        Operation::Perspective { .. } => "perspective",
        Operation::ColorMatrix { .. } => "color_matrix",
        Operation::Curves { .. } => "curves",
        Operation::Levels { .. } => "levels",
        Operation::Blur { .. } => "blur",
        Operation::Median { .. } => "median",
        Operation::UnsharpMask { .. } => "unsharp_mask",
        Operation::Lut { .. } => "lut",
        Operation::WhiteBalance { .. } => "white_balance",
        Operation::Hsl { .. } => "hsl",
        Operation::Convolve { .. } => "convolve",
        Operation::Clone { .. } => "clone",
        Operation::Heal { .. } => "heal",
        Operation::SvgOverlay { .. } => "svg_overlay",
        Operation::Flip { .. } => "flip",
        Operation::Vignette { .. } => "vignette",
        Operation::Grain { .. } => "grain",
        Operation::GradientMap { .. } => "gradient_map",
        Operation::Pixelate { .. } => "pixelate",
        Operation::AutoLevels { .. } => "auto_levels",
        Operation::StripMetadata { .. } => "strip_metadata",
    }
}

/// The first place of a character in a text, or its length.
pub open spec fn place_of(s: Seq<char>, c: char) -> int
    decreases s.len(),
{
    if s.len() == 0 || s[0] == c {
        0
    } else {
        1 + place_of(s.skip(1), c)
    }
}

/// The two numbers of an aspect ratio written as `W:H`, both positive.
pub open spec fn aspect_ratio_value(s: Seq<char>) -> Option<(u32, u32)> {
    let colon = place_of(s, ':');
    if colon < s.len() {
        match (u32_value(s.take(colon)), u32_value(s.skip(colon + 1))) {
            (Some(w), Some(h)) => if w > 0 && h > 0 {
                Some((w, h))
            } else {
                None
            },
            _ => None,
        }
    } else {
        None
    }
}

proof fn place_of_step(s: Seq<char>, c: char, k: int)
    requires
        0 <= k <= s.len(),
        forall|i: int| 0 <= i < k ==> s[i] != c,
    ensures
        place_of(s, c) == k + place_of(s.skip(k), c),
    decreases k,
{
    if k == 0 {
        assert(s.skip(0) =~= s);
    } else {
        place_of_step(s.skip(1), c, k - 1);
        assert(s.skip(1).skip(k - 1) =~= s.skip(k));
    }
}

/// Reads an aspect ratio such as `16:9`. Both numbers must be positive.
pub fn parse_aspect_ratio(s: &str) -> (r: Option<(u32, u32)>)
    ensures
        r == aspect_ratio_value(s@),
{
    let chars: Vec<char> = chars_of(s);
    let mut k: usize = 0;
    while k < chars.len() && chars[k] != ':'
        invariant
            chars@ == s@,
            k <= chars.len(),
            forall|i: int| 0 <= i < k ==> chars@[i] != ':',
        decreases chars.len() - k,
    {
        k = k + 1;
    }
    proof {
        place_of_step(s@, ':', k as int);
    }
    if k == chars.len() {
        return None;
    }
    let w: Option<u32> = parse_u32(slice_subrange(chars.as_slice(), 0, k));
    let h: Option<u32> = parse_u32(slice_subrange(chars.as_slice(), k + 1, chars.len()));
    proof {
        assert(s@.subrange(0, k as int) =~= s@.take(k as int));
        assert(s@.subrange(k + 1, s@.len() as int) =~= s@.skip(k + 1));
    }
    match (w, h) {
        (Some(a), Some(b)) => if a == 0 || b == 0 {
            None
        } else {
            Some((a, b))
        },
        _ => None,
    }
}

/// One component of a colour from two hexadecimal digits.
pub open spec fn hex_pair(a: char, b: char) -> Option<u8> {
    match (hex_value(a), hex_value(b)) {
        (Some(x), Some(y)) => Some((x * 16 + y) as u8),
        _ => None,
    }
}

/// The components of a colour: `step` digits each, `n` of them, and 255 for the rest.
/// A single digit stands for a pair of itself.
pub open spec fn hex_components(s: Seq<char>, step: int, n: int) -> Option<Seq<u8>>
    decreases n,
{
    if n <= 0 {
        Some(Seq::empty())
    } else {
        let at = (n - 1) * step;
        match (hex_components(s, step, n - 1), hex_pair(s[at], s[at + step - 1])) {
            (Some(rest), Some(v)) => Some(rest.push(v)),
            _ => None,
        }
    }
}

/// How many digits each component of a colour has, by the number of all digits.
pub open spec fn hex_step(digits: int) -> int {
    if digits == 3 || digits == 4 {
        1
    } else if digits == 6 || digits == 8 {
        2
    } else {
        0
    }
}

/// The colour that `#rgb`, `#rgba`, `#rrggbb` or `#rrggbbaa` stands for; alpha is 255
/// where it is not given.
pub open spec fn hex_color_value(s: Seq<char>) -> Option<Seq<u8>> {
    if s.len() > 0 && s[0] == '#' && hex_step(s.len() - 1) > 0 {
        let digits = s.skip(1);
        let step = hex_step(digits.len() as int);
        let n = digits.len() / (step as nat);
        match hex_components(digits, step, n as int) {
            Some(c) => Some(
                if n == 3 {
                    c.push(255)
                } else {
                    c
                },
            ),
            None => None,
        }
    } else {
        None
    }
}

proof fn hex_components_fails(s: Seq<char>, step: int, k: int, n: int)
    requires
        0 <= k <= n,
        hex_components(s, step, k) is None,
    ensures
        hex_components(s, step, n) is None,
    decreases n - k,
{
    if k < n {
        hex_components_fails(s, step, k + 1, n);
    }
}

/// Reads a CSS hexadecimal colour: `#rgb`, `#rgba`, `#rrggbb` or `#rrggbbaa`.
pub fn parse_hex_color(s: &str) -> (r: Option<[u8; 4]>)
    ensures
        match r {
            Some(c) => hex_color_value(s@) == Some(c@),
            None => hex_color_value(s@) is None,
        },
{
    let chars: Vec<char> = chars_of(s);
    if chars.len() == 0 || chars[0] != '#' {
        return None;
    }
    let count: usize = chars.len() - 1;
    let step: usize = if count == 3 || count == 4 {
        1
    } else if count == 6 || count == 8 {
        2
    } else {
        return None;
    };
    let n: usize = count / step;
    let ghost digits = s@.skip(1);
    assert(n == 3 || n == 4);
    assert(step * n == count) by {
        assert(count == 3 || count == 4 || count == 6 || count == 8);
    }
    let mut out: [u8; 4] = [255, 255, 255, 255];
    let mut i: usize = 0;
    while i < n
        invariant
            i <= n,
            n == 3 || n == 4,
            step == 1 || step == 2,
            step * n == count,
            chars@ == s@,
            count == chars.len() - 1,
            digits == s@.skip(1),
            hex_components(digits, step as int, i as int) is Some,
            hex_components(digits, step as int, i as int)->0 =~= out@.take(i as int),
            i <= 3 ==> out@[3] == 255,
        decreases n - i,
    {
        assert(i * step + step <= count) by (nonlinear_arith)
            requires
                i < n,
                step * n == count,
                step == 1 || step == 2,
        ;
        assert(i * step <= i * 2) by (nonlinear_arith)
            requires
                step == 1 || step == 2,
        ;
        let at: usize = i * step;
        let a: char = chars[at + 1];
        let b: char = chars[at + step];
        assert(digits[at as int] == a && digits[at + step - 1] == b);
        match (hex_digit(a), hex_digit(b)) {
            (Some(x), Some(y)) => {
                out[i] = x * 16 + y;
                assert(out@.take(i + 1) =~= out@.take(i as int).push((x * 16 + y) as u8));
            },
            _ => {
                proof {
                    assert(hex_components(digits, step as int, i + 1) is None);
                    hex_components_fails(digits, step as int, i + 1, n as int);
                }
                return None;
            },
        }
        i = i + 1;
    }
    proof {
        assert(digits.len() == count);
        assert(hex_step(digits.len() as int) == step);
        if n == 3 {
            assert(out@ =~= out@.take(3).push(255));
        } else {
            assert(out@ =~= out@.take(4));
        }
    }
    Some(out)
}

/// The name of a format as messages show it.
pub open spec fn format_name(format: OutputFormat) -> Seq<char> {
    match format {
        OutputFormat::Jpeg => "Jpeg"@,
        OutputFormat::Png => "Png"@,
        OutputFormat::Webp => "Webp"@,
        OutputFormat::Avif => "Avif"@,
    }
}

impl OutputFormat {
    /// The name of the format as messages show it.
    pub fn name(self) -> (r: &'static str)
        ensures
            r@ == format_name(self),
    {
        match self {
            OutputFormat::Jpeg => "Jpeg",
            OutputFormat::Png => "Png",
            OutputFormat::Webp => "Webp",
            OutputFormat::Avif => "Avif",
        }
    }
}

/// The name of a blend mode as messages show it.
pub open spec fn blend_mode_name(mode: BlendMode) -> Seq<char> {
    match mode {
        BlendMode::Normal => "Normal"@,
        BlendMode::Multiply => "Multiply"@,
        BlendMode::Screen => "Screen"@,
        BlendMode::Overlay => "Overlay"@,
        BlendMode::Darken => "Darken"@,
        BlendMode::Lighten => "Lighten"@,
        BlendMode::ColorDodge => "ColorDodge"@,
        BlendMode::ColorBurn => "ColorBurn"@,
        BlendMode::HardLight => "HardLight"@,
        BlendMode::SoftLight => "SoftLight"@,
        BlendMode::Difference => "Difference"@,
        BlendMode::Exclusion => "Exclusion"@,
    }
}

impl BlendMode {
    /// The name of the blend mode as messages show it.
    pub fn name(self) -> (r: &'static str)
        ensures
            r@ == blend_mode_name(self),
    {
        match self {
            BlendMode::Normal => "Normal",
            BlendMode::Multiply => "Multiply",
            BlendMode::Screen => "Screen",
            BlendMode::Overlay => "Overlay",
            BlendMode::Darken => "Darken",
            BlendMode::Lighten => "Lighten",
            BlendMode::ColorDodge => "ColorDodge",
            BlendMode::ColorBurn => "ColorBurn",
            BlendMode::HardLight => "HardLight",
            BlendMode::SoftLight => "SoftLight",
            BlendMode::Difference => "Difference",
            BlendMode::Exclusion => "Exclusion",
        }
    }
}

/// What is wrong with an angle of rotation.
pub open spec fn rotate_fault(index: int, angle_degrees: Number) -> Option<Fault> {
    if within(angle_degrees.bits, MINUS_FULL_TURN, FULL_TURN) {
        None
    } else {
        op_fault(
            index,
            "rotate"@,
            "angle_degrees must be within -360..=360, got "@ + angle_degrees.text@,
        )
    }
}

/// What is wrong with the parameters of `crop`: exactly one of an aspect ratio and a
/// rectangle, and source coordinates only with a rectangle.
pub open spec fn crop_fault(
    index: int,
    aspect_ratio: Option<String>,
    rect: Option<Rect>,
    coordinate_space: CoordinateSpace,
) -> Option<Fault> {
    if coordinate_space == CoordinateSpace::Source && rect is None {
        op_fault(
            index,
            "crop"@,
            "coordinate_space \"source\" is only valid together with rect (aspect_ratio has no coordinate system to map)"@,
        )
    } else {
        match (aspect_ratio, rect) {
            (Some(_), Some(_)) => op_fault(
                index,
                "crop"@,
                "specify exactly one of aspect_ratio or rect, not both"@,
            ),
            (None, None) => op_fault(
                index,
                "crop"@,
                "one of aspect_ratio or rect is required"@,
            ),
            (Some(ratio), None) => if aspect_ratio_value(ratio@) is Some {
                None
            } else {
                op_fault(
                    index,
                    "crop"@,
                    "aspect_ratio must be \"W:H\" with positive integers, got "@ + debug_text(
                        ratio@,
                    ),
                )
            },
            (None, Some(r)) => if r.width == 0 || r.height == 0 {
                op_fault(index, "crop"@, "rect width/height must be > 0"@)
            } else {
                None
            },
        }
    }
}

/// What is wrong with the parameters of `resize`.
pub open spec fn resize_fault(index: int, width: Option<u32>, height: Option<u32>) -> Option<
    Fault,
> {
    if width is None && height is None {
        op_fault(index, "resize"@, "at least one of width or height is required"@)
    } else if width == Some(0u32) || height == Some(0u32) {
        op_fault(index, "resize"@, "width/height must be > 0"@)
    } else {
        None
    }
}

/// What is wrong with one slider of `adjust`.
pub open spec fn tone_fault(index: int, name: Seq<char>, v: Number) -> Option<Fault> {
    if within(v.bits, MINUS_ONE, ONE) {
        None
    } else {
        op_fault(index, "adjust"@, name + " must be within -1.0..=1.0, got "@ + v.text@)
    }
}

/// What is wrong with the parameters of `adjust`.
pub open spec fn adjust_fault(
    index: int,
    brightness: Number,
    contrast: Number,
    saturation: Number,
    sharpness: Number,
) -> Option<Fault> {
    first_fault(
        tone_fault(index, "brightness"@, brightness),
        first_fault(
            tone_fault(index, "contrast"@, contrast),
            first_fault(
                tone_fault(index, "saturation"@, saturation),
                if within(sharpness.bits, ZERO, ONE) {
                    None
                } else {
                    op_fault(
                        index,
                        "adjust"@,
                        "sharpness must be within 0.0..=1.0, got "@ + sharpness.text@,
                    )
                },
            ),
        ),
    )
}

/// What is wrong with the parameters of `encode`, or with its place: it is the last
/// operation, and 16 bits are for PNG alone.
pub open spec fn encode_fault(
    index: int,
    count: int,
    format: OutputFormat,
    quality: Option<u8>,
    bit_depth: Option<u8>,
) -> Option<Fault> {
    if index != count - 1 {
        op_fault(index, "encode"@, "encode must be the last operation"@)
    } else if quality is Some && !(1 <= quality->0 <= 100) {
        op_fault(
            index,
            "encode"@,
            "quality must be within 1..=100, got "@ + decimal(quality->0 as nat),
        )
    } else if bit_depth is Some && bit_depth->0 != 8 && bit_depth->0 != 16 {
        op_fault(
            index,
            "encode"@,
            "bit_depth must be 8 or 16, got "@ + decimal(bit_depth->0 as nat),
        )
    } else if bit_depth == Some(16u8) && format != OutputFormat::Png {
        op_fault(
            index,
            "encode"@,
            "bit_depth 16 is only supported for png output, got "@ + format_name(format),
        )
    } else {
        None
    }
}

/// What is wrong with the parameters of an operation, its mask aside. It stands at
/// place `index` of `count`.
pub open spec fn parameters_fault(index: int, count: int, op: Operation) -> Option<Fault> {
    match op {
        Operation::AutoOrient => None,
        Operation::StripMetadata { .. } => None,
        Operation::Flip { .. } => None,
        Operation::Rotate { angle_degrees, .. } => rotate_fault(index, angle_degrees),
        Operation::Crop { aspect_ratio, rect, coordinate_space, .. } => crop_fault(
            index,
            aspect_ratio,
            rect,
            coordinate_space,
        ),
        Operation::Resize { width, height, .. } => resize_fault(index, width, height),
        Operation::Adjust { brightness, contrast, saturation, sharpness, .. } => adjust_fault(
            index,
            brightness,
            contrast,
            saturation,
            sharpness,
        ),
        Operation::Perspective { quad, vertical_degrees, horizontal_degrees, pad_color } =>
            perspective_fault(index, quad, vertical_degrees, horizontal_degrees, pad_color),
        Operation::ColorMatrix { matrix, .. } => matrix_fault(index, matrix@),
        Operation::Curves { master, red, green, blue, .. } => curves_fault(
            index,
            master,
            red,
            green,
            blue,
        ),
        Operation::Levels { in_black, in_white, gamma, out_black, out_white, .. } => levels_fault(
            index,
            in_black,
            in_white,
            gamma,
            out_black,
            out_white,
        ),
        Operation::Blur { sigma, .. } => blur_fault(index, sigma),
        Operation::Median { radius, .. } => median_fault(index, radius),
        Operation::UnsharpMask { amount, radius, .. } => unsharp_fault(index, amount, radius),
        Operation::Lut { lut_revision_id, strength, .. } => lut_fault(
            index,
            lut_revision_id@,
            strength,
        ),
        Operation::WhiteBalance { temperature, tint, .. } => white_balance_fault(
            index,
            temperature,
            tint,
        ),
        Operation::Hsl { red, orange, yellow, green, aqua, blue, purple, magenta, .. } => hsl_fault(
            index,
            seq![red, orange, yellow, green, aqua, blue, purple, magenta],
        ),
        Operation::Convolve { kernel, size, divisor, offset, .. } => convolve_fault(
            index,
            kernel@,
            size,
            divisor,
            offset,
        ),
        Operation::Vignette { strength, radius, feather } => vignette_fault(
            index,
            strength,
            radius,
            feather,
        ),
        Operation::Grain { amount, size, .. } => grain_fault(index, amount, size),
        Operation::GradientMap { stops, .. } => stops_fault(index, stops@),
        Operation::Pixelate { block_size, region } => pixelate_fault(index, block_size, region),
        Operation::AutoLevels { clip_percent, .. } => auto_levels_fault(index, clip_percent),
        Operation::Clone { radius, feather_px, .. } => disc_fault(
            index,
            "clone"@,
            radius,
            feather_px,
        ),
        Operation::Heal { radius, feather_px, .. } => disc_fault(
            index,
            "heal"@,
            radius,
            feather_px,
        ),
        Operation::SvgOverlay {
            svg_revision_id,
            x,
            y,
            width,
            height,
            opacity,
            font_revision_ids,
            ..
        } => svg_overlay_fault(
            index,
            svg_revision_id@,
            x,
            y,
            opacity,
            width,
            height,
            font_revision_ids@,
        ),
        Operation::Encode { format, quality, bit_depth } => encode_fault(
            index,
            count,
            format,
            quality,
            bit_depth,
        ),
    }
}

/// What is wrong with an operation at place `index` of `count`.
pub open spec fn operation_fault(index: int, count: int, op: Operation) -> Option<Fault> {
    match mask_of(op) {
        Some(mask) => first_fault(mask_fault(index, mask), parameters_fault(index, count, op)),
        None => parameters_fault(index, count, op),
    }
}

/// What is wrong with the operations from place `i` on.
pub open spec fn operations_fault(ops: Seq<Operation>, i: int) -> Option<Fault>
    decreases ops.len() - i,
{
    if i >= ops.len() {
        None
    } else {
        first_fault(operation_fault(i, ops.len() as int, ops[i]), operations_fault(ops, i + 1))
    }
}

/// Checks the parameters of `crop`.
fn validate_crop(
    index: usize,
    aspect_ratio: &Option<String>,
    rect: &Option<Rect>,
    coordinate_space: CoordinateSpace,
) -> (r: Result<(), AtxError>)
    ensures
        verdict(r) == crop_fault(index as int, *aspect_ratio, *rect, coordinate_space),
{
    if coordinate_space == CoordinateSpace::Source && rect.is_none() {
        return Err(
            op_error(
                index,
                "crop",
                "coordinate_space \"source\" is only valid together with rect (aspect_ratio has no coordinate system to map)",
            ),
        );
    }
    match (aspect_ratio, rect) {
        (Some(_), Some(_)) => Err(
            op_error(index, "crop", "specify exactly one of aspect_ratio or rect, not both"),
        ),
        (None, None) => Err(op_error(index, "crop", "one of aspect_ratio or rect is required")),
        (Some(ratio), None) => {
            if parse_aspect_ratio(ratio.as_str()).is_none() {
                let shown: String = quoted(ratio.as_str());
                let message: String = cat2(
                    "aspect_ratio must be \"W:H\" with positive integers, got ",
                    shown.as_str(),
                );
                return Err(op_error(index, "crop", message.as_str()));
            }
            Ok(())
        },
        (None, Some(r)) => {
            if r.width == 0 || r.height == 0 {
                return Err(op_error(index, "crop", "rect width/height must be > 0"));
            }
            Ok(())
        },
    }
}

/// Checks one slider of `adjust`.
fn validate_tone(index: usize, name: &str, v: &Number) -> (r: Result<(), AtxError>)
    ensures
        verdict(r) == tone_fault(index as int, name@, *v),
{
    if !is_within(v.bits, MINUS_ONE, ONE) {
        let message: String = cat3(name, " must be within -1.0..=1.0, got ", v.text.as_str());
        return Err(op_error(index, "adjust", message.as_str()));
    }
    Ok(())
}

/// Checks the parameters of `adjust`.
fn validate_adjust(
    index: usize,
    brightness: &Number,
    contrast: &Number,
    saturation: &Number,
    sharpness: &Number,
) -> (r: Result<(), AtxError>)
    ensures
        verdict(r) == adjust_fault(index as int, *brightness, *contrast, *saturation, *sharpness),
{
    match validate_tone(index, "brightness", brightness) {
        Err(e) => return Err(e),
        Ok(_) => {},
    }
    match validate_tone(index, "contrast", contrast) {
        Err(e) => return Err(e),
        Ok(_) => {},
    }
    match validate_tone(index, "saturation", saturation) {
        Err(e) => return Err(e),
        Ok(_) => {},
    }
    if !is_within(sharpness.bits, ZERO, ONE) {
        let message: String = cat2(
            "sharpness must be within 0.0..=1.0, got ",
            sharpness.text.as_str(),
        );
        return Err(op_error(index, "adjust", message.as_str()));
    }
    Ok(())
}

/// Checks the parameters and the place of `encode`.
fn validate_encode(
    index: usize,
    count: usize,
    format: OutputFormat,
    quality: Option<u8>,
    bit_depth: Option<u8>,
) -> (r: Result<(), AtxError>)
    requires
        index < count,
    ensures
        verdict(r) == encode_fault(index as int, count as int, format, quality, bit_depth),
{
    if index != count - 1 {
        return Err(op_error(index, "encode", "encode must be the last operation"));
    }
    if let Some(q) = quality {
        if q < 1 || q > 100 {
            let number: String = dec(q as u64);
            let message: String = cat2("quality must be within 1..=100, got ", number.as_str());
            return Err(op_error(index, "encode", message.as_str()));
        }
    }
    if let Some(depth) = bit_depth {
        if depth != 8 && depth != 16 {
            let number: String = dec(depth as u64);
            let message: String = cat2("bit_depth must be 8 or 16, got ", number.as_str());
            return Err(op_error(index, "encode", message.as_str()));
        }
        if depth == 16 && format != OutputFormat::Png {
            let message: String = cat2(
                "bit_depth 16 is only supported for png output, got ",
                format.name(),
            );
            return Err(op_error(index, "encode", message.as_str()));
        }
    }
    Ok(())
}

/// Checks the parameters of an operation, its mask aside.
fn validate_parameters(index: usize, count: usize, op: &Operation) -> (r: Result<(), AtxError>)
    requires
        index < count,
    ensures
        verdict(r) == parameters_fault(index as int, count as int, *op),
{
    match op {
        Operation::AutoOrient => Ok(()),
        Operation::StripMetadata { .. } => Ok(()),
        Operation::Flip { .. } => Ok(()),
        Operation::Rotate { angle_degrees, .. } => {
            if !is_within(angle_degrees.bits, MINUS_FULL_TURN, FULL_TURN) {
                let message: String = cat2(
                    "angle_degrees must be within -360..=360, got ",
                    angle_degrees.text.as_str(),
                );
                return Err(op_error(index, "rotate", message.as_str()));
            }
            Ok(())
        },
        Operation::Crop { aspect_ratio, rect, coordinate_space, .. } => validate_crop(
            index,
            aspect_ratio,
            rect,
            *coordinate_space,
        ),
        Operation::Resize { width, height, .. } => {
            if width.is_none() && height.is_none() {
                return Err(
                    op_error(index, "resize", "at least one of width or height is required"),
                );
            }
            let flat: bool = match (width, height) {
                (Some(w), Some(h)) => *w == 0 || *h == 0,
                (Some(w), None) => *w == 0,
                (None, Some(h)) => *h == 0,
                (None, None) => false,
            };
            if flat {
                return Err(op_error(index, "resize", "width/height must be > 0"));
            }
            Ok(())
        },
        Operation::Adjust { brightness, contrast, saturation, sharpness, .. } => validate_adjust(
            index,
            brightness,
            contrast,
            saturation,
            sharpness,
        ),
        Operation::Perspective { quad, vertical_degrees, horizontal_degrees, pad_color } =>
            crate::ops::perspective::validate(
            index,
            quad,
            vertical_degrees,
            horizontal_degrees,
            pad_color,
        ),
        Operation::ColorMatrix { matrix, .. } => validate_matrix(index, matrix),
        Operation::Curves { master, red, green, blue, .. } => validate_curves(
            index,
            master,
            red,
            green,
            blue,
        ),
        Operation::Levels { in_black, in_white, gamma, out_black, out_white, .. } =>
            validate_levels(
            index,
            *in_black,
            *in_white,
            gamma,
            *out_black,
            *out_white,
        ),
        Operation::Blur { sigma, .. } => validate_blur(index, sigma),
        Operation::Median { radius, .. } => validate_median(index, *radius),
        Operation::UnsharpMask { amount, radius, threshold, .. } =>
            validate_unsharp(index, amount, radius, *threshold),
        Operation::Lut { lut_revision_id, strength, .. } => crate::ops::lut::validate(
            index,
            lut_revision_id.as_str(),
            strength,
        ),
        Operation::WhiteBalance { temperature, tint, .. } => crate::ops::wb::validate(
            index,
            temperature,
            tint,
        ),
        Operation::Hsl { red, orange, yellow, green, aqua, blue, purple, magenta, .. } =>
            crate::ops::hsl::validate(
            index,
            red,
            orange,
            yellow,
            green,
            aqua,
            blue,
            purple,
            magenta,
        ),
        Operation::Convolve { kernel, size, divisor, offset, .. } =>
            crate::ops::convolve::validate(index, kernel, *size, divisor, offset),
        Operation::Vignette { strength, radius, feather } =>
            validate_vignette(index, strength, radius, feather),
        Operation::Grain { amount, size, .. } => validate_grain(
            index,
            amount,
            *size,
        ),
        Operation::GradientMap { stops, .. } => validate_stops(index, stops),
        Operation::Pixelate { block_size, region } => crate::ops::pixelate::validate(
            index,
            *block_size,
            region,
        ),
        Operation::AutoLevels { clip_percent, .. } => crate::ops::auto_levels::validate(
            index,
            clip_percent,
        ),
        Operation::Clone { radius, feather_px, .. } => crate::ops::clone_heal::validate(
            index,
            "clone",
            *radius,
            feather_px,
        ),
        Operation::Heal { radius, feather_px, .. } => crate::ops::clone_heal::validate(
            index,
            "heal",
            *radius,
            feather_px,
        ),
        Operation::SvgOverlay {
            svg_revision_id,
            x,
            y,
            width,
            height,
            opacity,
            font_revision_ids,
            ..
        } => crate::ops::svg::validate(
            index,
            svg_revision_id.as_str(),
            *x,
            *y,
            opacity,
            *width,
            *height,
            font_revision_ids,
        ),
        Operation::Encode { format, quality, bit_depth } => validate_encode(
            index,
            count,
            *format,
            *quality,
            *bit_depth,
        ),
    }
}

/// Checks a list of operations. The error names the first that is at fault.
pub fn validate_operations(operations: &Vec<Operation>) -> (r: Result<(), AtxError>)
    ensures
        verdict(r) == operations_fault(operations@, 0),
{
    let mut i: usize = 0;
    while i < operations.len()
        invariant
            i <= operations.len(),
            operations_fault(operations@, 0) == operations_fault(operations@, i as int),
        decreases operations.len() - i,
    {
        if let Some(mask) = operations[i].mask() {
            match crate::ops::mask::validate(i, mask) {
                Err(e) => return Err(e),
                Ok(_) => {},
            }
        }
        match validate_parameters(i, operations.len(), &operations[i]) {
            Err(e) => return Err(e),
            Ok(_) => {},
        }
        i = i + 1;
    }
    Ok(())
}

/// A fault of a layer's operations, with the number of the layer in front.
pub open spec fn layer_ops_fault(i: int, fault: Option<Fault>) -> Option<Fault> {
    match fault {
        Some(Fault::InvalidRecipe(m)) => Some(
            Fault::InvalidRecipe("layers["@ + decimal(i as nat) + "].ops: "@ + m),
        ),
        other => other,
    }
}

/// Puts the number of the layer in front of the message of an invalid recipe.
pub fn prefix_layer(i: usize, e: AtxError) -> (r: AtxError)
    ensures
        Some(r@) == layer_ops_fault(i as int, Some(e@)),
{
    match e {
        AtxError::InvalidRecipe(m) => {
            let number: String = dec(i as u64);
            AtxError::InvalidRecipe(cat4("layers[", number.as_str(), "].ops: ", m.as_str()))
        },
        other => other,
    }
}

/// A fault of the layer at place `i`.
pub open spec fn layer_text_fault(i: int, message: Seq<char>) -> Option<Fault> {
    Some(Fault::InvalidRecipe("layers["@ + decimal(i as nat) + message))
}

/// What is wrong with the source of a layer.
pub open spec fn source_fault(i: int, source: LayerSource) -> Option<Fault> {
    match source {
        LayerSource::Base(_) => None,
        LayerSource::Revision { revision_id } => if revision_id@.len() == 0 {
            layer_text_fault(i, "] (source): revision_id must not be empty"@)
        } else if !begins(revision_id@, "rev_"@) {
            layer_text_fault(
                i,
                "] (source): revision_id must start with \"rev_\", got "@ + debug_text(
                    revision_id@,
                ),
            )
        } else {
            None
        },
    }
}

/// What is wrong with the lowest layer: there is nothing to mix it with.
pub open spec fn backdrop_fault(layer: Layer) -> Option<Fault> {
    if layer.blend_mode != BlendMode::Normal {
        Some(
            Fault::InvalidRecipe(
                "layers[0] is the backdrop (there is nothing underneath it to blend with), so blend_mode must be \"normal\", got "@
                    + blend_mode_name(layer.blend_mode),
            ),
        )
    } else if layer.opacity.bits != ONE {
        Some(
            Fault::InvalidRecipe(
                "layers[0] is the backdrop (there is nothing underneath it to blend with), so opacity must be 1.0, got "@
                    + layer.opacity.text@,
            ),
        )
    } else if layer.mask is Some {
        Some(
            Fault::InvalidRecipe(
                "layers[0] is the backdrop (there is nothing underneath it to blend with), so it must not carry a mask; put the mask on a layer above it"@,
            ),
        )
    } else {
        None
    }
}

/// What a layer's operations from place `j` on hold that only finishes a composite.
pub open spec fn finishing_fault(i: int, ops: Seq<Operation>, j: int) -> Option<Fault>
    decreases ops.len() - j,
{
    if j >= ops.len() {
        None
    } else if ops[j] is Encode {
        layer_text_fault(
            i,
            "].ops["@ + decimal(j as nat)
                + "] (encode): encode is a finishing-pass-only operation; put it in the top-level operations, which run on the composite"@,
        )
    } else if ops[j] is StripMetadata {
        layer_text_fault(
            i,
            "].ops["@ + decimal(j as nat)
                + "] (strip_metadata): strip_metadata is a finishing-pass-only operation; put it in the top-level operations, which run on the composite"@,
        )
    } else {
        finishing_fault(i, ops, j + 1)
    }
}

/// What is wrong with the layer at place `i`.
pub open spec fn layer_fault(i: int, layer: Layer) -> Option<Fault> {
    first_fault(
        source_fault(i, layer.source),
        first_fault(
            if within(layer.opacity.bits, ZERO, ONE) {
                None
            } else {
                layer_text_fault(
                    i,
                    "]: opacity must be within 0.0..=1.0, got "@ + layer.opacity.text@,
                )
            },
            first_fault(
                match layer.mask {
                    Some(mask) => layer_ops_fault(i, mask_fault(i, mask)),
                    None => None,
                },
                first_fault(
                    if i == 0 {
                        backdrop_fault(layer)
                    } else {
                        None
                    },
                    first_fault(
                        finishing_fault(i, layer.ops@, 0),
                        layer_ops_fault(i, operations_fault(layer.ops@, 0)),
                    ),
                ),
            ),
        ),
    )
}

/// What is wrong with the layers from place `i` on.
pub open spec fn layers_fault_from(layers: Seq<Layer>, i: int) -> Option<Fault>
    decreases layers.len() - i,
{
    if i >= layers.len() {
        None
    } else {
        first_fault(layer_fault(i, layers[i]), layers_fault_from(layers, i + 1))
    }
}

/// What is wrong with the layers of a recipe.
pub open spec fn layers_fault(layers: Seq<Layer>) -> Option<Fault> {
    if layers.len() == 0 {
        Some(
            Fault::InvalidRecipe(
                "layers must not be empty when present (omit the key entirely for a single-pipeline recipe)"@,
            ),
        )
    } else {
        layers_fault_from(layers, 0)
    }
}

/// What is wrong with a recipe.
pub open spec fn recipe_fault(recipe: TransformRecipe) -> Option<Fault> {
    if recipe.operations@.len() == 0 && recipe.layers is None {
        Some(Fault::InvalidRecipe("operations must not be empty"@))
    } else {
        first_fault(
            operations_fault(recipe.operations@, 0),
            match recipe.layers {
                Some(layers) => layers_fault(layers@),
                None => None,
            },
        )
    }
}

/// The error for a fault of the layer at place `i`.
fn layer_error(i: usize, message: &str) -> (r: AtxError)
    ensures
        Some(r@) == layer_text_fault(i as int, message@),
{
    let number: String = dec(i as u64);
    AtxError::InvalidRecipe(cat3("layers[", number.as_str(), message))
}

/// Checks the source of a layer.
fn validate_source(i: usize, source: &LayerSource) -> (r: Result<(), AtxError>)
    ensures
        verdict(r) == source_fault(i as int, *source),
{
    if let Some(id) = source.revision_id() {
        if id.is_empty() {
            return Err(layer_error(i, "] (source): revision_id must not be empty"));
        }
        if !begins_with(id, "rev_") {
            let shown: String = quoted(id);
            let message: String = cat2(
                "] (source): revision_id must start with \"rev_\", got ",
                shown.as_str(),
            );
            return Err(layer_error(i, message.as_str()));
        }
    }
    Ok(())
}

/// Checks the lowest layer.
fn validate_backdrop(layer: &Layer) -> (r: Result<(), AtxError>)
    ensures
        verdict(r) == backdrop_fault(*layer),
{
    if layer.blend_mode != BlendMode::Normal {
        return Err(
            AtxError::InvalidRecipe(
                cat2(
                    "layers[0] is the backdrop (there is nothing underneath it to blend with), so blend_mode must be \"normal\", got ",
                    layer.blend_mode.name(),
                ),
            ),
        );
    }
    if layer.opacity.bits != ONE {
        return Err(
            AtxError::InvalidRecipe(
                cat2(
                    "layers[0] is the backdrop (there is nothing underneath it to blend with), so opacity must be 1.0, got ",
                    layer.opacity.text.as_str(),
                ),
            ),
        );
    }
    if layer.mask.is_some() {
        return Err(
            AtxError::InvalidRecipe(
                "layers[0] is the backdrop (there is nothing underneath it to blend with), so it must not carry a mask; put the mask on a layer above it".to_owned(),
            ),
        );
    }
    Ok(())
}

/// Checks that a layer's operations leave the finishing to the top level.
fn validate_no_finishing(i: usize, ops: &Vec<Operation>) -> (r: Result<(), AtxError>)
    ensures
        verdict(r) == finishing_fault(i as int, ops@, 0),
{
    let mut j: usize = 0;
    while j < ops.len()
        invariant
            j <= ops.len(),
            finishing_fault(i as int, ops@, 0) == finishing_fault(i as int, ops@, j as int),
        decreases ops.len() - j,
    {
        match &ops[j] {
            Operation::Encode { .. } => {
                let number: String = dec(j as u64);
                let message: String = cat3(
                    "].ops[",
                    number.as_str(),
                    "] (encode): encode is a finishing-pass-only operation; put it in the top-level operations, which run on the composite",
                );
                return Err(layer_error(i, message.as_str()));
            },
            Operation::StripMetadata { .. } => {
                let number: String = dec(j as u64);
                let message: String = cat3(
                    "].ops[",
                    number.as_str(),
                    "] (strip_metadata): strip_metadata is a finishing-pass-only operation; put it in the top-level operations, which run on the composite",
                );
                return Err(layer_error(i, message.as_str()));
            },
            _ => {},
        }
        j = j + 1;
    }
    Ok(())
}

/// Checks the layers of a recipe. The error names the first that is at fault.
pub fn validate_layers(layers: &Vec<Layer>) -> (r: Result<(), AtxError>)
    ensures
        verdict(r) == layers_fault(layers@),
{
    if layers.len() == 0 {
        return Err(
            AtxError::InvalidRecipe(
                "layers must not be empty when present (omit the key entirely for a single-pipeline recipe)".to_owned(),
            ),
        );
    }
    let mut i: usize = 0;
    while i < layers.len()
        invariant
            i <= layers.len(),
            layers@.len() > 0,
            layers_fault(layers@) == layers_fault_from(layers@, i as int),
        decreases layers.len() - i,
    {
        let layer: &Layer = &layers[i];
        match validate_source(i, &layer.source) {
            Err(e) => return Err(e),
            Ok(_) => {},
        }
        if !is_within(layer.opacity.bits, ZERO, ONE) {
            let message: String = cat2(
                "]: opacity must be within 0.0..=1.0, got ",
                layer.opacity.text.as_str(),
            );
            return Err(layer_error(i, message.as_str()));
        }
        if let Some(mask) = &layer.mask {
            match crate::ops::mask::validate(i, mask) {
                Err(e) => return Err(prefix_layer(i, e)),
                Ok(_) => {},
            }
        }
        if i == 0 {
            match validate_backdrop(layer) {
                Err(e) => return Err(e),
                Ok(_) => {},
            }
        }
        match validate_no_finishing(i, &layer.ops) {
            Err(e) => return Err(e),
            Ok(_) => {},
        }
        match validate_operations(&layer.ops) {
            Err(e) => return Err(prefix_layer(i, e)),
            Ok(_) => {},
        }
        i = i + 1;
    }
    Ok(())
}

/// Checks a recipe: the operations, and the layers where there are any.
pub fn validate(recipe: &TransformRecipe) -> (r: Result<(), AtxError>)
    ensures
        verdict(r) == recipe_fault(*recipe),
{
    if recipe.operations.len() == 0 && recipe.layers.is_none() {
        return Err(AtxError::InvalidRecipe("operations must not be empty".to_owned()));
    }
    match validate_operations(&recipe.operations) {
        Err(e) => return Err(e),
        Ok(_) => {},
    }
    match &recipe.layers {
        Some(layers) => validate_layers(layers),
        None => Ok(()),
    }
}

/// In a recipe that passes, `encode` stands last, so there is at most one.
pub proof fn encode_is_last(recipe: TransformRecipe, i: int)
    requires
        recipe_fault(recipe) is None,
        0 <= i < recipe.operations@.len(),
        recipe.operations@[i] is Encode,
    ensures
        i == recipe.operations@.len() - 1,
{
    operations_all_pass(recipe.operations@, 0, i);
}

/// In a list of operations that passes, each operation passes.
pub proof fn operations_all_pass(ops: Seq<Operation>, from: int, i: int)
    requires
        operations_fault(ops, from) is None,
        0 <= from <= i < ops.len(),
    ensures
        operation_fault(i, ops.len() as int, ops[i]) is None,
    decreases i - from,
{
    if from < i {
        operations_all_pass(ops, from + 1, i);
    }
}

/// In a recipe that passes, 16 bits per channel are only asked of PNG.
pub proof fn deep_output_is_png(recipe: TransformRecipe, i: int)
    requires
        recipe_fault(recipe) is None,
        0 <= i < recipe.operations@.len(),
        recipe.operations@[i] is Encode,
        recipe.operations@[i]->bit_depth == Some(16u8),
    ensures
        recipe.operations@[i]->format == OutputFormat::Png,
{
    operations_all_pass(recipe.operations@, 0, i);
}

/// In a list of layers that passes, each layer passes.
pub proof fn layers_all_pass(layers: Seq<Layer>, from: int, i: int)
    requires
        layers_fault_from(layers, from) is None,
        0 <= from <= i < layers.len(),
    ensures
        layer_fault(i, layers[i]) is None,
    decreases i - from,
{
    if from < i {
        layers_all_pass(layers, from + 1, i);
    }
}

proof fn no_finishing_from(i: int, ops: Seq<Operation>, from: int, j: int)
    requires
        finishing_fault(i, ops, from) is None,
        0 <= from <= j < ops.len(),
    ensures
        !(ops[j] is Encode),
        !(ops[j] is StripMetadata),
    decreases j - from,
{
    if from < j {
        no_finishing_from(i, ops, from + 1, j);
    }
}

/// In a recipe that passes, no layer holds an operation that only finishes the
/// composite.
pub proof fn layers_hold_no_finishing(recipe: TransformRecipe, i: int, j: int)
    requires
        recipe_fault(recipe) is None,
        recipe.layers is Some,
        0 <= i < recipe.layers->0@.len(),
        0 <= j < recipe.layers->0@[i].ops@.len(),
    ensures
        !(recipe.layers->0@[i].ops@[j] is Encode),
        !(recipe.layers->0@[i].ops@[j] is StripMetadata),
{
    layers_all_pass(recipe.layers->0@, 0, i);
    no_finishing_from(i, recipe.layers->0@[i].ops@, 0, j);
}

/// In a recipe that passes, the lowest layer is laid down as it is: normal mode, full
/// opacity, no mask.
pub proof fn backdrop_is_plain(recipe: TransformRecipe)
    requires
        recipe_fault(recipe) is None,
        recipe.layers is Some,
    ensures
        recipe.layers->0@.len() > 0,
        recipe.layers->0@[0].blend_mode == BlendMode::Normal,
        recipe.layers->0@[0].opacity.bits == ONE,
        recipe.layers->0@[0].mask is None,
{
    layers_all_pass(recipe.layers->0@, 0, 0);
}

} // verus!
