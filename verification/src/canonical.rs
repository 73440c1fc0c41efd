//! The canonical JSON of a recipe, and its hash.
use vstd::prelude::*;
use vstd::utf8::encode_utf8;

use crate::binary::Real;
use crate::error::AtxError;
use crate::json::{canonical, field_trees, hex_char, trees, write_canonical, Json, Tree};
use crate::number::{Number, MILLION};
use crate::recipe::{
    op_name, operation_name, Anchor, BlendMode, CoordinateSpace, CropMode, Fit, FlipDirection,
    GradientStop, HslShift, Layer, LayerSource, MaskRef, Operation, OutputFormat, Quad, Rect,
    RotateCrop, StripScope, TransformRecipe,
};
use crate::transform::{is_bounded, MAX_EXACT};

verus! {

/// Fields with one more.
pub open spec fn with(fields: Seq<(Seq<char>, Tree)>, key: Seq<char>, value: Tree) -> Seq<
    (Seq<char>, Tree),
> {
    fields.push((key, value))
}

/// Fields with one more, where there is a value for it.
pub open spec fn with_some(
    fields: Seq<(Seq<char>, Tree)>,
    key: Seq<char>,
    value: Option<Tree>,
) -> Seq<(Seq<char>, Tree)> {
    match value {
        Some(v) => with(fields, key, v),
        None => fields,
    }
}

/// The tree of an optional value.
pub open spec fn option_tree(value: Option<Json>) -> Option<Tree> {
    match value {
        Some(v) => Some(v.tree()),
        None => None,
    }
}

/// Adds a field.
fn put(fields: &mut Vec<(String, Json)>, key: &str, value: Json)
    ensures
        field_trees(final(fields)@) == with(field_trees(old(fields)@), key@, value.tree()),
{
    fields.push((key.to_owned(), value));
    assert(fields@.drop_last() =~= old(fields)@);
}

/// Adds a field where there is a value for it.
fn put_some(fields: &mut Vec<(String, Json)>, key: &str, value: Option<Json>)
    ensures
        field_trees(final(fields)@) == with_some(
            field_trees(old(fields)@),
            key@,
            option_tree(value),
        ),
{
    match value {
        Some(v) => put(fields, key, v),
        None => {},
    }
}

/// How JSON writes a number of millionths as a fraction, after a sign.
pub uninterp spec fn millionths_text(sign: Seq<char>, count: u64) -> Seq<char>;

/// Writes a number of millionths with `serde_json::Number`: its `FromStr` reads the
/// literal with the exponent -6, and its `Display` writes the number read in the shortest
/// digits that stand for it. Each is a function of its input alone. Every such literal is
/// a JSON number, so that reading it does not fail.
#[verifier::external_body]
fn write_millionths(sign: &str, count: u64) -> (r: String)
    requires
        sign@ == ""@ || sign@ == "-"@,
    ensures
        r@ == millionths_text(sign@, count),
{
    let number: serde_json::Number = format!("{sign}{count}e-6").parse().unwrap();
    number.to_string()
}

/// Whether the grid of millionths can hold a number.
#[verifier::allow_in_spec]
pub fn is_on_grid(v: Real) -> bool
    returns
        is_bounded(v) && v.times(Real { bits: MILLION }).absolute().below(
            Real { bits: MAX_EXACT },
        ),
{
    is_bounded(v) && v.times(Real { bits: MILLION }).absolute().below(Real { bits: MAX_EXACT })
}

/// The millionths nearest to a number; halves go away from zero.
#[verifier::allow_in_spec]
pub fn millionths(v: Real) -> i64
    returns
        v.times(Real { bits: MILLION }).round_integer(),
{
    v.times(Real { bits: MILLION }).round_integer()
}

/// The size of an integer.
pub open spec fn size_of(n: i64) -> u64 {
    if n < 0 {
        (-n) as u64
    } else {
        n as u64
    }
}

/// How canonical JSON writes a number: to the nearest millionth where the grid can hold
/// it, and as it is elsewhere. No millionths have no sign.
pub open spec fn number_text(n: Number) -> Seq<char> {
    let v = Real { bits: n.bits };
    if is_on_grid(v) {
        millionths_text(
            if millionths(v) < 0 {
                "-"@
            } else {
                ""@
            },
            size_of(millionths(v)),
        )
    } else {
        n.json@
    }
}

/// Numbers that are nearest to the same millionth are written alike.
pub proof fn same_millionth_same_text(a: Number, b: Number)
    requires
        is_on_grid(Real { bits: a.bits }),
        is_on_grid(Real { bits: b.bits }),
        millionths(Real { bits: a.bits }) == millionths(Real { bits: b.bits }),
    ensures
        number_text(a) == number_text(b),
        number_tree(a) == number_tree(b),
{
}

/// A number.
pub open spec fn number_tree(n: Number) -> Tree {
    Tree::Number(number_text(n))
}

/// An optional number.
pub open spec fn some_number_tree(n: Option<Number>) -> Option<Tree> {
    match n {
        Some(v) => Some(number_tree(v)),
        None => None,
    }
}

/// An optional whole number of 32 bits.
pub open spec fn some_whole_tree(n: Option<u32>) -> Option<Tree> {
    match n {
        Some(v) => Some(Tree::Whole(v as int)),
        None => None,
    }
}

/// An optional whole number of 8 bits.
pub open spec fn some_byte_tree(n: Option<u8>) -> Option<Tree> {
    match n {
        Some(v) => Some(Tree::Whole(v as int)),
        None => None,
    }
}

/// An optional text.
pub open spec fn some_text_tree(s: Option<String>) -> Option<Tree> {
    match s {
        Some(v) => Some(Tree::Text(v@)),
        None => None,
    }
}

fn number_json(n: &Number) -> (r: Json)
    ensures
        r.tree() == number_tree(*n),
{
    let v: Real = Real { bits: n.bits };
    if !is_on_grid(v) {
        return Json::Number(n.json.clone());
    }
    let count: i64 = millionths(v);
    let size: u64 = if count < 0 {
        (-(count + 1)) as u64 + 1
    } else {
        count as u64
    };
    let sign: &str = if count < 0 {
        "-"
    } else {
        ""
    };
    Json::Number(write_millionths(sign, size))
}

fn some_number_json(n: &Option<Number>) -> (r: Option<Json>)
    ensures
        option_tree(r) == some_number_tree(*n),
{
    match n {
        Some(v) => Some(number_json(v)),
        None => None,
    }
}

fn some_whole_json(n: &Option<u32>) -> (r: Option<Json>)
    ensures
        option_tree(r) == some_whole_tree(*n),
{
    match n {
        Some(v) => Some(Json::Unsigned(*v as u64)),
        None => None,
    }
}

fn some_byte_json(n: &Option<u8>) -> (r: Option<Json>)
    ensures
        option_tree(r) == some_byte_tree(*n),
{
    match n {
        Some(v) => Some(Json::Unsigned(*v as u64)),
        None => None,
    }
}

fn text_json(s: &str) -> (r: Json)
    ensures
        r.tree() == Tree::Text(s@),
{
    Json::Text(s.to_owned())
}

fn some_text_json(s: &Option<String>) -> (r: Option<Json>)
    ensures
        option_tree(r) == some_text_tree(*s),
{
    match s {
        Some(v) => Some(text_json(v.as_str())),
        None => None,
    }
}

/// The word for what a rotation keeps.
pub open spec fn rotate_crop_word(v: RotateCrop) -> Seq<char> {
    match v {
        RotateCrop::LargestInscribedRect => "largest_inscribed_rect"@,
        RotateCrop::Full => "full"@,
    }
}

fn rotate_crop_text(v: RotateCrop) -> (r: &'static str)
    ensures
        r@ == rotate_crop_word(v),
{
    match v {
        RotateCrop::LargestInscribedRect => "largest_inscribed_rect",
        RotateCrop::Full => "full",
    }
}

/// The word for an anchor.
pub open spec fn anchor_word(v: Anchor) -> Seq<char> {
    match v {
        Anchor::Center => "center"@,
        Anchor::Top => "top"@,
        Anchor::Bottom => "bottom"@,
        Anchor::Left => "left"@,
        Anchor::Right => "right"@,
        Anchor::TopLeft => "top_left"@,
        Anchor::TopRight => "top_right"@,
        Anchor::BottomLeft => "bottom_left"@,
        Anchor::BottomRight => "bottom_right"@,
    }
}

fn anchor_text(v: Anchor) -> (r: &'static str)
    ensures
        r@ == anchor_word(v),
{
    match v {
        Anchor::Center => "center",
        Anchor::Top => "top",
        Anchor::Bottom => "bottom",
        Anchor::Left => "left",
        Anchor::Right => "right",
        Anchor::TopLeft => "top_left",
        Anchor::TopRight => "top_right",
        Anchor::BottomLeft => "bottom_left",
        Anchor::BottomRight => "bottom_right",
    }
}

/// The word for a way to reach an aspect ratio.
pub open spec fn crop_mode_word(v: CropMode) -> Seq<char> {
    match v {
        CropMode::Crop => "crop"@,
        CropMode::Pad => "pad"@,
    }
}

fn crop_mode_text(v: CropMode) -> (r: &'static str)
    ensures
        r@ == crop_mode_word(v),
{
    match v {
        CropMode::Crop => "crop",
        CropMode::Pad => "pad",
    }
}

/// The word for a way to meet a box.
pub open spec fn fit_word(v: Fit) -> Seq<char> {
    match v {
        Fit::Cover => "cover"@,
        Fit::Contain => "contain"@,
        Fit::Fill => "fill"@,
    }
}

fn fit_text(v: Fit) -> (r: &'static str)
    ensures
        r@ == fit_word(v),
{
    match v {
        Fit::Cover => "cover",
        Fit::Contain => "contain",
        Fit::Fill => "fill",
    }
}

/// The word for an output format.
pub open spec fn format_word(v: OutputFormat) -> Seq<char> {
    match v {
        OutputFormat::Jpeg => "jpeg"@,
        OutputFormat::Png => "png"@,
        OutputFormat::Webp => "webp"@,
        OutputFormat::Avif => "avif"@,
    }
}

fn format_text(v: OutputFormat) -> (r: &'static str)
    ensures
        r@ == format_word(v),
{
    match v {
        OutputFormat::Jpeg => "jpeg",
        OutputFormat::Png => "png",
        OutputFormat::Webp => "webp",
        OutputFormat::Avif => "avif",
    }
}

/// The word for what is stripped.
pub open spec fn strip_scope_word(v: StripScope) -> Seq<char> {
    match v {
        StripScope::All => "all"@,
        StripScope::Gps => "gps"@,
        StripScope::Exif => "exif"@,
    }
}

fn strip_scope_text(v: StripScope) -> (r: &'static str)
    ensures
        r@ == strip_scope_word(v),
{
    match v {
        StripScope::All => "all",
        StripScope::Gps => "gps",
        StripScope::Exif => "exif",
    }
}

/// The word for a way to mirror.
pub open spec fn flip_direction_word(v: FlipDirection) -> Seq<char> {
    match v {
        FlipDirection::Horizontal => "horizontal"@,
        FlipDirection::Vertical => "vertical"@,
    }
}

fn flip_direction_text(v: FlipDirection) -> (r: &'static str)
    ensures
        r@ == flip_direction_word(v),
{
    match v {
        FlipDirection::Horizontal => "horizontal",
        FlipDirection::Vertical => "vertical",
    }
}

/// The word for a blend mode.
pub open spec fn blend_mode_word(v: BlendMode) -> Seq<char> {
    match v {
        BlendMode::Normal => "normal"@,
        BlendMode::Multiply => "multiply"@,
        BlendMode::Screen => "screen"@,
        BlendMode::Overlay => "overlay"@,
        BlendMode::Darken => "darken"@,
        BlendMode::Lighten => "lighten"@,
        BlendMode::ColorDodge => "color_dodge"@,
        BlendMode::ColorBurn => "color_burn"@,
        BlendMode::HardLight => "hard_light"@,
        BlendMode::SoftLight => "soft_light"@,
        BlendMode::Difference => "difference"@,
        BlendMode::Exclusion => "exclusion"@,
    }
}

fn blend_mode_text(v: BlendMode) -> (r: &'static str)
    ensures
        r@ == blend_mode_word(v),
{
    match v {
        BlendMode::Normal => "normal",
        BlendMode::Multiply => "multiply",
        BlendMode::Screen => "screen",
        BlendMode::Overlay => "overlay",
        BlendMode::Darken => "darken",
        BlendMode::Lighten => "lighten",
        BlendMode::ColorDodge => "color_dodge",
        BlendMode::ColorBurn => "color_burn",
        BlendMode::HardLight => "hard_light",
        BlendMode::SoftLight => "soft_light",
        BlendMode::Difference => "difference",
        BlendMode::Exclusion => "exclusion",
    }
}

/// A rectangle.
pub open spec fn rect_tree(r: Rect) -> Tree {
    Tree::Object(
        with(
            with(
                with(
                    with(Seq::empty(), "x"@, Tree::Whole(r.x as int)),
                    "y"@,
                    Tree::Whole(r.y as int),
                ),
                "width"@,
                Tree::Whole(r.width as int),
            ),
            "height"@,
            Tree::Whole(r.height as int),
        ),
    )
}

/// An optional rectangle.
pub open spec fn some_rect_tree(r: Option<Rect>) -> Option<Tree> {
    match r {
        Some(v) => Some(rect_tree(v)),
        None => None,
    }
}

fn some_rect_json(r: &Option<Rect>) -> (j: Option<Json>)
    ensures
        option_tree(j) == some_rect_tree(*r),
{
    match r {
        Some(v) => {
            let mut f: Vec<(String, Json)> = Vec::new();
            put(&mut f, "x", Json::Unsigned(v.x as u64));
            put(&mut f, "y", Json::Unsigned(v.y as u64));
            put(&mut f, "width", Json::Unsigned(v.width as u64));
            put(&mut f, "height", Json::Unsigned(v.height as u64));
            Some(Json::Object(f))
        },
        None => None,
    }
}

/// A mask.
pub open spec fn mask_tree(m: MaskRef) -> Tree {
    Tree::Object(
        with(
            with(
                with(Seq::empty(), "revision_id"@, Tree::Text(m.revision_id@)),
                "invert"@,
                Tree::Bool(m.invert),
            ),
            "feather_px"@,
            number_tree(m.feather_px),
        ),
    )
}

/// An optional mask.
pub open spec fn some_mask_tree(m: Option<MaskRef>) -> Option<Tree> {
    match m {
        Some(v) => Some(mask_tree(v)),
        None => None,
    }
}

fn some_mask_json(m: &Option<MaskRef>) -> (j: Option<Json>)
    ensures
        option_tree(j) == some_mask_tree(*m),
{
    match m {
        Some(v) => {
            let mut f: Vec<(String, Json)> = Vec::new();
            put(&mut f, "revision_id", text_json(v.revision_id.as_str()));
            put(&mut f, "invert", Json::Bool(v.invert));
            put(&mut f, "feather_px", number_json(&v.feather_px));
            Some(Json::Object(f))
        },
        None => None,
    }
}

/// The shift of a band.
pub open spec fn shift_tree(s: HslShift) -> Tree {
    Tree::Object(
        with(
            with(
                with(Seq::empty(), "hue"@, number_tree(s.hue)),
                "saturation"@,
                number_tree(s.saturation),
            ),
            "luminance"@,
            number_tree(s.luminance),
        ),
    )
}

/// The optional shift of a band.
pub open spec fn some_shift_tree(s: Option<HslShift>) -> Option<Tree> {
    match s {
        Some(v) => Some(shift_tree(v)),
        None => None,
    }
}

fn some_shift_json(s: &Option<HslShift>) -> (j: Option<Json>)
    ensures
        option_tree(j) == some_shift_tree(*s),
{
    match s {
        Some(v) => {
            let mut f: Vec<(String, Json)> = Vec::new();
            put(&mut f, "hue", number_json(&v.hue));
            put(&mut f, "saturation", number_json(&v.saturation));
            put(&mut f, "luminance", number_json(&v.luminance));
            Some(Json::Object(f))
        },
        None => None,
    }
}

/// A list of numbers.
pub open spec fn numbers_tree(v: Seq<Number>) -> Tree {
    Tree::List(Seq::new(v.len(), |i: int| number_tree(v[i])))
}

fn numbers_json(v: &Vec<Number>) -> (j: Json)
    ensures
        j.tree() == numbers_tree(v@),
{
    let mut items: Vec<Json> = Vec::new();
    let mut i: usize = 0;
    while i < v.len()
        invariant
            i <= v.len(),
            trees(items@) =~= Seq::new(i as nat, |k: int| number_tree(v@[k])),
        decreases v.len() - i,
    {
        let ghost before = items@;
        items.push(number_json(&v[i]));
        assert(items@.drop_last() =~= before);
        i = i + 1;
    }
    Json::List(items)
}

/// A list of texts.
pub open spec fn texts_tree(v: Seq<String>) -> Tree {
    Tree::List(Seq::new(v.len(), |i: int| Tree::Text(v[i]@)))
}

fn texts_json(v: &Vec<String>) -> (j: Json)
    ensures
        j.tree() == texts_tree(v@),
{
    let mut items: Vec<Json> = Vec::new();
    let mut i: usize = 0;
    while i < v.len()
        invariant
            i <= v.len(),
            trees(items@) =~= Seq::new(i as nat, |k: int| Tree::Text(v@[k]@)),
        decreases v.len() - i,
    {
        let ghost before = items@;
        items.push(text_json(v[i].as_str()));
        assert(items@.drop_last() =~= before);
        i = i + 1;
    }
    Json::List(items)
}

/// A control point of a curve.
pub open spec fn point_tree(p: [u8; 2]) -> Tree {
    Tree::List(seq![Tree::Whole(p[0] as int), Tree::Whole(p[1] as int)])
}

/// The control points of a curve, where there are any.
pub open spec fn some_points_tree(v: Option<Vec<[u8; 2]>>) -> Option<Tree> {
    match v {
        Some(points) => Some(
            Tree::List(Seq::new(points@.len(), |i: int| point_tree(points@[i]))),
        ),
        None => None,
    }
}

fn pair_json(a: Json, b: Json) -> (j: Json)
    ensures
        j.tree() == Tree::List(seq![a.tree(), b.tree()]),
{
    let mut items: Vec<Json> = Vec::new();
    items.push(a);
    proof {
        assert(items@.drop_last() =~= Seq::<Json>::empty());
        assert(trees(Seq::<Json>::empty()) =~= Seq::<Tree>::empty());
        assert(trees(items@) =~= seq![a.tree()]);
    }
    let ghost one = items@;
    items.push(b);
    proof {
        assert(items@.drop_last() =~= one);
        assert(trees(items@) =~= seq![a.tree(), b.tree()]);
    }
    Json::List(items)
}

fn some_points_json(v: &Option<Vec<[u8; 2]>>) -> (j: Option<Json>)
    ensures
        option_tree(j) == some_points_tree(*v),
{
    let points: &Vec<[u8; 2]> = match v {
        Some(points) => points,
        None => {
            return None;
        },
    };
    let mut items: Vec<Json> = Vec::new();
    let mut i: usize = 0;
    while i < points.len()
        invariant
            i <= points.len(),
            trees(items@) =~= Seq::new(i as nat, |k: int| point_tree(points@[k])),
        decreases points.len() - i,
    {
        let ghost before = items@;
        items.push(
            pair_json(Json::Unsigned(points[i][0] as u64), Json::Unsigned(points[i][1] as u64)),
        );
        assert(items@.drop_last() =~= before);
        i = i + 1;
    }
    Some(Json::List(items))
}

/// A corner of a quadrilateral.
pub open spec fn corner_tree(p: [Number; 2]) -> Tree {
    Tree::List(seq![number_tree(p[0]), number_tree(p[1])])
}

/// An optional quadrilateral: the list of its corners.
pub open spec fn some_quad_tree(q: Option<Quad>) -> Option<Tree> {
    match q {
        Some(v) => Some(
            Tree::List(Seq::new(v.corners@.len(), |i: int| corner_tree(v.corners@[i]))),
        ),
        None => None,
    }
}

fn some_quad_json(q: &Option<Quad>) -> (j: Option<Json>)
    ensures
        option_tree(j) == some_quad_tree(*q),
{
    let corners: &[[Number; 2]; 4] = match q {
        Some(v) => &v.corners,
        None => {
            return None;
        },
    };
    let mut items: Vec<Json> = Vec::new();
    let mut i: usize = 0;
    while i < 4
        invariant
            i <= 4,
            corners@.len() == 4,
            trees(items@) =~= Seq::new(i as nat, |k: int| corner_tree(corners@[k])),
        decreases 4 - i,
    {
        let ghost before = items@;
        items.push(pair_json(number_json(&corners[i][0]), number_json(&corners[i][1])));
        assert(items@.drop_last() =~= before);
        i = i + 1;
    }
    Some(Json::List(items))
}

/// A stop of a gradient.
pub open spec fn stop_tree(s: GradientStop) -> Tree {
    Tree::Object(
        with(
            with(Seq::empty(), "position"@, number_tree(s.position)),
            "color"@,
            Tree::Text(s.color@),
        ),
    )
}

/// The stops of a gradient.
pub open spec fn stops_tree(v: Seq<GradientStop>) -> Tree {
    Tree::List(Seq::new(v.len(), |i: int| stop_tree(v[i])))
}

fn stops_json(v: &Vec<GradientStop>) -> (j: Json)
    ensures
        j.tree() == stops_tree(v@),
{
    let mut items: Vec<Json> = Vec::new();
    let mut i: usize = 0;
    while i < v.len()
        invariant
            i <= v.len(),
            trees(items@) =~= Seq::new(i as nat, |k: int| stop_tree(v@[k])),
        decreases v.len() - i,
    {
        let ghost before = items@;
        let mut f: Vec<(String, Json)> = Vec::new();
        put(&mut f, "position", number_json(&v[i].position));
        put(&mut f, "color", text_json(v[i].color.as_str()));
        let stop: Json = Json::Object(f);
        assert(stop.tree() == stop_tree(v@[i as int]));
        items.push(stop);
        assert(items@.drop_last() =~= before);
        i = i + 1;
    }
    Json::List(items)
}

/// The coordinates of a rectangle, which are written only where they are not the
/// current ones.
pub open spec fn source_space_tree(space: CoordinateSpace) -> Option<Tree> {
    match space {
        CoordinateSpace::Current => None,
        CoordinateSpace::Source => Some(Tree::Text("source"@)),
    }
}

fn source_space_json(space: CoordinateSpace) -> (j: Option<Json>)
    ensures
        option_tree(j) == source_space_tree(space),
{
    match space {
        CoordinateSpace::Current => None,
        CoordinateSpace::Source => Some(text_json("source")),
    }
}

/// A switch, which is written only where it is on.
pub open spec fn flag_tree(on: bool) -> Option<Tree> {
    if on {
        Some(Tree::Bool(true))
    } else {
        None
    }
}

fn flag_json(on: bool) -> (j: Option<Json>)
    ensures
        option_tree(j) == flag_tree(on),
{
    if on {
        Some(Json::Bool(true))
    } else {
        None
    }
}

/// Font assets, which are written only where there are any.
pub open spec fn fonts_tree(ids: Seq<String>) -> Option<Tree> {
    if ids.len() == 0 {
        None
    } else {
        Some(texts_tree(ids))
    }
}

fn fonts_json(ids: &Vec<String>) -> (j: Option<Json>)
    ensures
        option_tree(j) == fonts_tree(ids@),
{
    if ids.len() == 0 {
        None
    } else {
        Some(texts_json(ids))
    }
}

/// The fields of an operation.
pub open spec fn operation_fields(op: Operation) -> Seq<(Seq<char>, Tree)> {
    let f = with(Seq::empty(), "op"@, Tree::Text(operation_name(op)));
    match op {
        Operation::AutoOrient => f,
        Operation::Rotate { angle_degrees, crop } => {
            let f = with(f, "angle_degrees"@, number_tree(angle_degrees));
            with(f, "crop"@, Tree::Text(rotate_crop_word(crop)))
        },
        Operation::Crop { aspect_ratio, rect, anchor, mode, pad_color, coordinate_space } => {
            let f = with_some(f, "aspect_ratio"@, some_text_tree(aspect_ratio));
            let f = with_some(f, "rect"@, some_rect_tree(rect));
            let f = with(f, "anchor"@, Tree::Text(anchor_word(anchor)));
            let f = with(f, "mode"@, Tree::Text(crop_mode_word(mode)));
            let f = with_some(f, "pad_color"@, some_text_tree(pad_color));
            with_some(f, "coordinate_space"@, source_space_tree(coordinate_space))
        },
        Operation::Resize { width, height, fit, without_enlargement } => {
            let f = with_some(f, "width"@, some_whole_tree(width));
            let f = with_some(f, "height"@, some_whole_tree(height));
            let f = with(f, "fit"@, Tree::Text(fit_word(fit)));
            with(f, "without_enlargement"@, Tree::Bool(without_enlargement))
        },
        Operation::Adjust { brightness, contrast, saturation, sharpness, mask } => {
            let f = with(f, "brightness"@, number_tree(brightness));
            let f = with(f, "contrast"@, number_tree(contrast));
            let f = with(f, "saturation"@, number_tree(saturation));
            let f = with(f, "sharpness"@, number_tree(sharpness));
            with_some(f, "mask"@, some_mask_tree(mask))
        },
        Operation::Perspective { quad, vertical_degrees, horizontal_degrees, pad_color } => {
            let f = with_some(f, "quad"@, some_quad_tree(quad));
            let f = with_some(f, "vertical_degrees"@, some_number_tree(vertical_degrees));
            let f = with_some(f, "horizontal_degrees"@, some_number_tree(horizontal_degrees));
            with_some(f, "pad_color"@, some_text_tree(pad_color))
        },
        Operation::ColorMatrix { matrix, mask } => {
            let f = with(f, "matrix"@, numbers_tree(matrix@));
            with_some(f, "mask"@, some_mask_tree(mask))
        },
        Operation::Curves { master, red, green, blue, mask } => {
            let f = with_some(f, "master"@, some_points_tree(master));
            let f = with_some(f, "red"@, some_points_tree(red));
            let f = with_some(f, "green"@, some_points_tree(green));
            let f = with_some(f, "blue"@, some_points_tree(blue));
            with_some(f, "mask"@, some_mask_tree(mask))
        },
        Operation::Levels { in_black, in_white, gamma, out_black, out_white, mask } => {
            let f = with(f, "in_black"@, Tree::Whole(in_black as int));
            let f = with(f, "in_white"@, Tree::Whole(in_white as int));
            let f = with(f, "gamma"@, number_tree(gamma));
            let f = with(f, "out_black"@, Tree::Whole(out_black as int));
            let f = with(f, "out_white"@, Tree::Whole(out_white as int));
            with_some(f, "mask"@, some_mask_tree(mask))
        },
        Operation::Blur { sigma, mask } => {
            let f = with(f, "sigma"@, number_tree(sigma));
            with_some(f, "mask"@, some_mask_tree(mask))
        },
        Operation::Median { radius, mask } => {
            let f = with(f, "radius"@, Tree::Whole(radius as int));
            with_some(f, "mask"@, some_mask_tree(mask))
        },
        Operation::UnsharpMask { amount, radius, threshold, mask } => {
            let f = with(f, "amount"@, number_tree(amount));
            let f = with(f, "radius"@, number_tree(radius));
            let f = with(f, "threshold"@, Tree::Whole(threshold as int));
            with_some(f, "mask"@, some_mask_tree(mask))
        },
        Operation::Lut { lut_revision_id, strength, mask } => {
            let f = with(f, "lut_revision_id"@, Tree::Text(lut_revision_id@));
            let f = with(f, "strength"@, number_tree(strength));
            with_some(f, "mask"@, some_mask_tree(mask))
        },
        Operation::WhiteBalance { temperature, tint, mask } => {
            let f = with(f, "temperature"@, number_tree(temperature));
            let f = with(f, "tint"@, number_tree(tint));
            with_some(f, "mask"@, some_mask_tree(mask))
        },
        Operation::Hsl { red, orange, yellow, green, aqua, blue, purple, magenta, mask } => {
            let f = with_some(f, "red"@, some_shift_tree(red));
            let f = with_some(f, "orange"@, some_shift_tree(orange));
            let f = with_some(f, "yellow"@, some_shift_tree(yellow));
            let f = with_some(f, "green"@, some_shift_tree(green));
            let f = with_some(f, "aqua"@, some_shift_tree(aqua));
            let f = with_some(f, "blue"@, some_shift_tree(blue));
            let f = with_some(f, "purple"@, some_shift_tree(purple));
            let f = with_some(f, "magenta"@, some_shift_tree(magenta));
            with_some(f, "mask"@, some_mask_tree(mask))
        },
        Operation::Convolve { kernel, size, divisor, offset, mask } => {
            let f = with(f, "kernel"@, numbers_tree(kernel@));
            let f = with(f, "size"@, Tree::Whole(size as int));
            let f = with(f, "divisor"@, number_tree(divisor));
            let f = with(f, "offset"@, number_tree(offset));
            with_some(f, "mask"@, some_mask_tree(mask))
        },
        Operation::Flip { direction } => {
            with(f, "direction"@, Tree::Text(flip_direction_word(direction)))
        },
        Operation::Vignette { strength, radius, feather } => {
            let f = with(f, "strength"@, number_tree(strength));
            let f = with(f, "radius"@, number_tree(radius));
            with(f, "feather"@, number_tree(feather))
        },
        Operation::Grain { amount, size, monochrome, seed, mask } => {
            let f = with(f, "amount"@, number_tree(amount));
            let f = with(f, "size"@, Tree::Whole(size as int));
            let f = with(f, "monochrome"@, Tree::Bool(monochrome));
            let f = with(f, "seed"@, Tree::Whole(seed as int));
            with_some(f, "mask"@, some_mask_tree(mask))
        },
        Operation::GradientMap { stops, mask } => {
            let f = with(f, "stops"@, stops_tree(stops@));
            with_some(f, "mask"@, some_mask_tree(mask))
        },
        Operation::Pixelate { block_size, region } => {
            let f = with(f, "block_size"@, Tree::Whole(block_size as int));
            with_some(f, "region"@, some_rect_tree(region))
        },
        Operation::AutoLevels { clip_percent, per_channel, mask } => {
            let f = with(f, "clip_percent"@, number_tree(clip_percent));
            let f = with(f, "per_channel"@, Tree::Bool(per_channel));
            with_some(f, "mask"@, some_mask_tree(mask))
        },
        Operation::Clone { src_x, src_y, dest_x, dest_y, radius, feather_px } => {
            let f = with(f, "src_x"@, Tree::Whole(src_x as int));
            let f = with(f, "src_y"@, Tree::Whole(src_y as int));
            let f = with(f, "dest_x"@, Tree::Whole(dest_x as int));
            let f = with(f, "dest_y"@, Tree::Whole(dest_y as int));
            let f = with(f, "radius"@, Tree::Whole(radius as int));
            with(f, "feather_px"@, number_tree(feather_px))
        },
        Operation::Heal { src_x, src_y, dest_x, dest_y, radius, feather_px } => {
            let f = with(f, "src_x"@, Tree::Whole(src_x as int));
            let f = with(f, "src_y"@, Tree::Whole(src_y as int));
            let f = with(f, "dest_x"@, Tree::Whole(dest_x as int));
            let f = with(f, "dest_y"@, Tree::Whole(dest_y as int));
            let f = with(f, "radius"@, Tree::Whole(radius as int));
            with(f, "feather_px"@, number_tree(feather_px))
        },
        Operation::SvgOverlay { svg_revision_id, x, y, width, height, opacity, blend_mode, render_text, font_revision_ids } => {
            let f = with(f, "svg_revision_id"@, Tree::Text(svg_revision_id@));
            let f = with(f, "x"@, Tree::Whole(x as int));
            let f = with(f, "y"@, Tree::Whole(y as int));
            let f = with_some(f, "width"@, some_whole_tree(width));
            let f = with_some(f, "height"@, some_whole_tree(height));
            let f = with(f, "opacity"@, number_tree(opacity));
            let f = with(f, "blend_mode"@, Tree::Text(blend_mode_word(blend_mode)));
            let f = with_some(f, "render_text"@, flag_tree(render_text));
            with_some(f, "font_revision_ids"@, fonts_tree(font_revision_ids@))
        },
        Operation::Encode { format, quality, bit_depth } => {
            let f = with(f, "format"@, Tree::Text(format_word(format)));
            let f = with_some(f, "quality"@, some_byte_tree(quality));
            with_some(f, "bit_depth"@, some_byte_tree(bit_depth))
        },
        Operation::StripMetadata { scope } => {
            with(f, "scope"@, Tree::Text(strip_scope_word(scope)))
        },
    }
}

/// An operation: its name under `op`, and its parameters. What is not given is left out.
pub open spec fn operation_tree(op: Operation) -> Tree {
    Tree::Object(operation_fields(op))
}

fn operation_json(op: &Operation) -> (j: Json)
    ensures
        j.tree() == operation_tree(*op),
{
    let mut f: Vec<(String, Json)> = Vec::new();
    put(&mut f, "op", text_json(op_name(op)));
    match op {
        Operation::AutoOrient => {},
        Operation::Rotate { angle_degrees, crop } => {
            put(&mut f, "angle_degrees", number_json(angle_degrees));
            put(&mut f, "crop", text_json(rotate_crop_text(*crop)));
        },
        Operation::Crop { aspect_ratio, rect, anchor, mode, pad_color, coordinate_space } => {
            put_some(&mut f, "aspect_ratio", some_text_json(aspect_ratio));
            put_some(&mut f, "rect", some_rect_json(rect));
            put(&mut f, "anchor", text_json(anchor_text(*anchor)));
            put(&mut f, "mode", text_json(crop_mode_text(*mode)));
            put_some(&mut f, "pad_color", some_text_json(pad_color));
            put_some(&mut f, "coordinate_space", source_space_json(*coordinate_space));
        },
        Operation::Resize { width, height, fit, without_enlargement } => {
            put_some(&mut f, "width", some_whole_json(width));
            put_some(&mut f, "height", some_whole_json(height));
            put(&mut f, "fit", text_json(fit_text(*fit)));
            put(&mut f, "without_enlargement", Json::Bool(*without_enlargement));
        },
        Operation::Adjust { brightness, contrast, saturation, sharpness, mask } => {
            put(&mut f, "brightness", number_json(brightness));
            put(&mut f, "contrast", number_json(contrast));
            put(&mut f, "saturation", number_json(saturation));
            put(&mut f, "sharpness", number_json(sharpness));
            put_some(&mut f, "mask", some_mask_json(mask));
        },
        Operation::Perspective { quad, vertical_degrees, horizontal_degrees, pad_color } => {
            put_some(&mut f, "quad", some_quad_json(quad));
            put_some(&mut f, "vertical_degrees", some_number_json(vertical_degrees));
            put_some(&mut f, "horizontal_degrees", some_number_json(horizontal_degrees));
            put_some(&mut f, "pad_color", some_text_json(pad_color));
        },
        Operation::ColorMatrix { matrix, mask } => {
            put(&mut f, "matrix", numbers_json(matrix));
            put_some(&mut f, "mask", some_mask_json(mask));
        },
        Operation::Curves { master, red, green, blue, mask } => {
            put_some(&mut f, "master", some_points_json(master));
            put_some(&mut f, "red", some_points_json(red));
            put_some(&mut f, "green", some_points_json(green));
            put_some(&mut f, "blue", some_points_json(blue));
            put_some(&mut f, "mask", some_mask_json(mask));
        },
        Operation::Levels { in_black, in_white, gamma, out_black, out_white, mask } => {
            put(&mut f, "in_black", Json::Unsigned(*in_black as u64));
            put(&mut f, "in_white", Json::Unsigned(*in_white as u64));
            put(&mut f, "gamma", number_json(gamma));
            put(&mut f, "out_black", Json::Unsigned(*out_black as u64));
            put(&mut f, "out_white", Json::Unsigned(*out_white as u64));
            put_some(&mut f, "mask", some_mask_json(mask));
        },
        Operation::Blur { sigma, mask } => {
            put(&mut f, "sigma", number_json(sigma));
            put_some(&mut f, "mask", some_mask_json(mask));
        },
        Operation::Median { radius, mask } => {
            put(&mut f, "radius", Json::Unsigned(*radius as u64));
            put_some(&mut f, "mask", some_mask_json(mask));
        },
        Operation::UnsharpMask { amount, radius, threshold, mask } => {
            put(&mut f, "amount", number_json(amount));
            put(&mut f, "radius", number_json(radius));
            put(&mut f, "threshold", Json::Unsigned(*threshold as u64));
            put_some(&mut f, "mask", some_mask_json(mask));
        },
        Operation::Lut { lut_revision_id, strength, mask } => {
            put(&mut f, "lut_revision_id", text_json(lut_revision_id.as_str()));
            put(&mut f, "strength", number_json(strength));
            put_some(&mut f, "mask", some_mask_json(mask));
        },
        Operation::WhiteBalance { temperature, tint, mask } => {
            put(&mut f, "temperature", number_json(temperature));
            put(&mut f, "tint", number_json(tint));
            put_some(&mut f, "mask", some_mask_json(mask));
        },
        Operation::Hsl { red, orange, yellow, green, aqua, blue, purple, magenta, mask } => {
            put_some(&mut f, "red", some_shift_json(red));
            put_some(&mut f, "orange", some_shift_json(orange));
            put_some(&mut f, "yellow", some_shift_json(yellow));
            put_some(&mut f, "green", some_shift_json(green));
            put_some(&mut f, "aqua", some_shift_json(aqua));
            put_some(&mut f, "blue", some_shift_json(blue));
            put_some(&mut f, "purple", some_shift_json(purple));
            put_some(&mut f, "magenta", some_shift_json(magenta));
            put_some(&mut f, "mask", some_mask_json(mask));
        },
        Operation::Convolve { kernel, size, divisor, offset, mask } => {
            put(&mut f, "kernel", numbers_json(kernel));
            put(&mut f, "size", Json::Unsigned(*size as u64));
            put(&mut f, "divisor", number_json(divisor));
            put(&mut f, "offset", number_json(offset));
            put_some(&mut f, "mask", some_mask_json(mask));
        },
        Operation::Flip { direction } => {
            put(&mut f, "direction", text_json(flip_direction_text(*direction)));
        },
        Operation::Vignette { strength, radius, feather } => {
            put(&mut f, "strength", number_json(strength));
            put(&mut f, "radius", number_json(radius));
            put(&mut f, "feather", number_json(feather));
        },
        Operation::Grain { amount, size, monochrome, seed, mask } => {
            put(&mut f, "amount", number_json(amount));
            put(&mut f, "size", Json::Unsigned(*size as u64));
            put(&mut f, "monochrome", Json::Bool(*monochrome));
            put(&mut f, "seed", Json::Unsigned(*seed));
            put_some(&mut f, "mask", some_mask_json(mask));
        },
        Operation::GradientMap { stops, mask } => {
            put(&mut f, "stops", stops_json(stops));
            put_some(&mut f, "mask", some_mask_json(mask));
        },
        Operation::Pixelate { block_size, region } => {
            put(&mut f, "block_size", Json::Unsigned(*block_size as u64));
            put_some(&mut f, "region", some_rect_json(region));
        },
        Operation::AutoLevels { clip_percent, per_channel, mask } => {
            put(&mut f, "clip_percent", number_json(clip_percent));
            put(&mut f, "per_channel", Json::Bool(*per_channel));
            put_some(&mut f, "mask", some_mask_json(mask));
        },
        Operation::Clone { src_x, src_y, dest_x, dest_y, radius, feather_px } => {
            put(&mut f, "src_x", Json::Unsigned(*src_x as u64));
            put(&mut f, "src_y", Json::Unsigned(*src_y as u64));
            put(&mut f, "dest_x", Json::Unsigned(*dest_x as u64));
            put(&mut f, "dest_y", Json::Unsigned(*dest_y as u64));
            put(&mut f, "radius", Json::Unsigned(*radius as u64));
            put(&mut f, "feather_px", number_json(feather_px));
        },
        Operation::Heal { src_x, src_y, dest_x, dest_y, radius, feather_px } => {
            put(&mut f, "src_x", Json::Unsigned(*src_x as u64));
            put(&mut f, "src_y", Json::Unsigned(*src_y as u64));
            put(&mut f, "dest_x", Json::Unsigned(*dest_x as u64));
            put(&mut f, "dest_y", Json::Unsigned(*dest_y as u64));
            put(&mut f, "radius", Json::Unsigned(*radius as u64));
            put(&mut f, "feather_px", number_json(feather_px));
        },
        Operation::SvgOverlay { svg_revision_id, x, y, width, height, opacity, blend_mode, render_text, font_revision_ids } => {
            put(&mut f, "svg_revision_id", text_json(svg_revision_id.as_str()));
            put(&mut f, "x", Json::Signed(*x));
            put(&mut f, "y", Json::Signed(*y));
            put_some(&mut f, "width", some_whole_json(width));
            put_some(&mut f, "height", some_whole_json(height));
            put(&mut f, "opacity", number_json(opacity));
            put(&mut f, "blend_mode", text_json(blend_mode_text(*blend_mode)));
            put_some(&mut f, "render_text", flag_json(*render_text));
            put_some(&mut f, "font_revision_ids", fonts_json(font_revision_ids));
        },
        Operation::Encode { format, quality, bit_depth } => {
            put(&mut f, "format", text_json(format_text(*format)));
            put_some(&mut f, "quality", some_byte_json(quality));
            put_some(&mut f, "bit_depth", some_byte_json(bit_depth));
        },
        Operation::StripMetadata { scope } => {
            put(&mut f, "scope", text_json(strip_scope_text(*scope)));
        },
    }
    Json::Object(f)
}

/// A list of operations.
pub open spec fn operations_tree(ops: Seq<Operation>) -> Tree {
    Tree::List(Seq::new(ops.len(), |i: int| operation_tree(ops[i])))
}

fn operations_json(ops: &Vec<Operation>) -> (j: Json)
    ensures
        j.tree() == operations_tree(ops@),
{
    let mut items: Vec<Json> = Vec::new();
    let mut i: usize = 0;
    while i < ops.len()
        invariant
            i <= ops.len(),
            trees(items@) =~= Seq::new(i as nat, |k: int| operation_tree(ops@[k])),
        decreases ops.len() - i,
    {
        let ghost before = items@;
        items.push(operation_json(&ops[i]));
        assert(items@.drop_last() =~= before);
        i = i + 1;
    }
    Json::List(items)
}

/// The source of a layer: the word `base`, or the revision.
pub open spec fn source_tree(source: LayerSource) -> Tree {
    match source {
        LayerSource::Base(_) => Tree::Text("base"@),
        LayerSource::Revision { revision_id } => Tree::Object(
            with(Seq::empty(), "revision_id"@, Tree::Text(revision_id@)),
        ),
    }
}

fn source_json(source: &LayerSource) -> (j: Json)
    ensures
        j.tree() == source_tree(*source),
{
    match source {
        LayerSource::Base(_) => text_json("base"),
        LayerSource::Revision { revision_id } => {
            let mut f: Vec<(String, Json)> = Vec::new();
            put(&mut f, "revision_id", text_json(revision_id.as_str()));
            Json::Object(f)
        },
    }
}

/// A layer.
pub open spec fn layer_tree(layer: Layer) -> Tree {
    let f = with(Seq::empty(), "source"@, source_tree(layer.source));
    let f = with(f, "ops"@, operations_tree(layer.ops@));
    let f = with_some(f, "mask"@, some_mask_tree(layer.mask));
    let f = with(f, "blend_mode"@, Tree::Text(blend_mode_word(layer.blend_mode)));
    Tree::Object(with(f, "opacity"@, number_tree(layer.opacity)))
}

fn layer_json(layer: &Layer) -> (j: Json)
    ensures
        j.tree() == layer_tree(*layer),
{
    let mut f: Vec<(String, Json)> = Vec::new();
    put(&mut f, "source", source_json(&layer.source));
    put(&mut f, "ops", operations_json(&layer.ops));
    put_some(&mut f, "mask", some_mask_json(&layer.mask));
    put(&mut f, "blend_mode", text_json(blend_mode_text(layer.blend_mode)));
    put(&mut f, "opacity", number_json(&layer.opacity));
    Json::Object(f)
}

/// The layers of a recipe, where there are any.
pub open spec fn layers_tree(layers: Option<Vec<Layer>>) -> Option<Tree> {
    match layers {
        Some(v) => Some(Tree::List(Seq::new(v@.len(), |i: int| layer_tree(v@[i])))),
        None => None,
    }
}

fn layers_json(layers: &Option<Vec<Layer>>) -> (j: Option<Json>)
    ensures
        option_tree(j) == layers_tree(*layers),
{
    let v: &Vec<Layer> = match layers {
        Some(v) => v,
        None => {
            return None;
        },
    };
    let mut items: Vec<Json> = Vec::new();
    let mut i: usize = 0;
    while i < v.len()
        invariant
            i <= v.len(),
            trees(items@) =~= Seq::new(i as nat, |k: int| layer_tree(v@[k])),
        decreases v.len() - i,
    {
        let ghost before = items@;
        items.push(layer_json(&v[i]));
        assert(items@.drop_last() =~= before);
        i = i + 1;
    }
    Some(Json::List(items))
}

/// A recipe. One without layers has no field for them.
pub open spec fn recipe_tree(recipe: TransformRecipe) -> Tree {
    let f = with(Seq::empty(), "operations"@, operations_tree(recipe.operations@));
    Tree::Object(with_some(f, "layers"@, layers_tree(recipe.layers)))
}

/// The canonical JSON of a recipe: keys in order, parameters that are not given left
/// out, and all others written out.
pub fn canonical_json(recipe: &TransformRecipe) -> (r: Result<String, AtxError>)
    ensures
        r is Ok,
        r->Ok_0@ == canonical(recipe_tree(*recipe)),
{
    let mut f: Vec<(String, Json)> = Vec::new();
    put(&mut f, "operations", operations_json(&recipe.operations));
    put_some(&mut f, "layers", layers_json(&recipe.layers));
    let value: Json = Json::Object(f);
    let mut out: String = String::new();
    write_canonical(&value, &mut out);
    assert(out@ =~= canonical(recipe_tree(*recipe)));
    Ok(out)
}

/// The SHA-256 digest of some bytes.
pub uninterp spec fn sha256_digest(bytes: Seq<u8>) -> Seq<u8>;

/// `sha2::Sha256::digest`: the digest of the bytes, named `sha256_digest` here; it has
/// 32 bytes.
#[verifier::external_body]
fn sha256(bytes: &[u8]) -> (r: Vec<u8>)
    ensures
        r@ == sha256_digest(bytes@),
        r@.len() == 32,
{
    <sha2::Sha256 as sha2::Digest>::digest(bytes).to_vec()
}

/// Bytes in hexadecimal, two lower-case digits each.
pub open spec fn hex_text(bytes: Seq<u8>) -> Seq<char>
    decreases bytes.len(),
{
    if bytes.len() == 0 {
        Seq::empty()
    } else {
        hex_text(bytes.drop_last()).push(hex_char(bytes.last() as int / 16)).push(
            hex_char(bytes.last() as int % 16),
        )
    }
}

/// `hex::encode`: the bytes in order, two lower-case hexadecimal digits each.
#[verifier::external_body]
fn hex_encode(bytes: &[u8]) -> (r: String)
    ensures
        r@ == hex_text(bytes@),
{
    hex::encode(bytes)
}

/// The hash of a recipe from the text of its canonical JSON.
pub open spec fn text_hash(text: Seq<char>) -> Seq<char> {
    hex_text(sha256_digest(encode_utf8(text)))
}

/// The hash of a recipe: SHA-256 over its canonical JSON, in hexadecimal.
pub fn recipe_hash(recipe: &TransformRecipe) -> (r: Result<String, AtxError>)
    ensures
        r is Ok,
        r->Ok_0@ == text_hash(canonical(recipe_tree(*recipe))),
        r->Ok_0@.len() == 64,
{
    let text: String = match canonical_json(recipe) {
        Ok(text) => text,
        Err(e) => {
            return Err(e);
        },
    };
    let digest: Vec<u8> = sha256(text.as_str().as_bytes());
    proof {
        hex_text_length(digest@);
    }
    Ok(hex_encode(digest.as_slice()))
}

proof fn hex_text_length(bytes: Seq<u8>)
    ensures
        hex_text(bytes).len() == 2 * bytes.len(),
    decreases bytes.len(),
{
    if bytes.len() > 0 {
        hex_text_length(bytes.drop_last());
    }
}

/// A recipe without layers is written without a field for them.
pub proof fn layers_are_left_out(recipe: TransformRecipe)
    requires
        recipe.layers is None,
    ensures
        recipe_tree(recipe) == Tree::Object(
            seq![("operations"@, operations_tree(recipe.operations@))],
        ),
{
    assert(with(Seq::empty(), "operations"@, operations_tree(recipe.operations@)) =~= seq![
        ("operations"@, operations_tree(recipe.operations@)),
    ]);
}

/// Crops in current coordinates are written alike whether or not the coordinates are
/// spelled out: the field is there only for source coordinates.
pub proof fn current_coordinates_are_left_out(op: Operation, i: int)
    requires
        op is Crop,
        op->coordinate_space == CoordinateSpace::Current,
        0 <= i < operation_fields(op).len(),
    ensures
        operation_fields(op)[i].0 != "coordinate_space"@,
{
    reveal_strlit("op");
    reveal_strlit("aspect_ratio");
    reveal_strlit("rect");
    reveal_strlit("anchor");
    reveal_strlit("mode");
    reveal_strlit("pad_color");
    reveal_strlit("coordinate_space");
    assert(operation_fields(op)[i].0.len() < 16);
}

/// Recipes with the same canonical JSON have the same hash.
pub proof fn same_text_same_hash(a: TransformRecipe, b: TransformRecipe)
    requires
        canonical(recipe_tree(a)) == canonical(recipe_tree(b)),
    ensures
        text_hash(canonical(recipe_tree(a))) == text_hash(canonical(recipe_tree(b))),
{
}

} // verus!
