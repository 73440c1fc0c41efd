//! Recipes as they run: one operation after another, layers, and the output.
use atx_core::binary::{Real, Real32};
use atx_core::codec::encode;
use atx_core::effects::Supply;
use atx_core::engine::{
    add_layer, begin, choose_output, decode_normalized, finish, finish_layer, initial_space,
    layer_source, start,
};
use atx_core::error::AtxError;
use atx_core::input::FormatKind;
use atx_core::linear::{
    code_table, eotf_base, light_table, table_step, LinearImage, Space, Tables,
};
use atx_core::number::Number;
use atx_core::pipeline::{check_supply, run_op, Pipeline};
use atx_core::raster::{Image, Rgba32};
use atx_core::recipe::{FlipDirection, Rect};
use atx_core::{
    Anchor, BlendMode, CoordinateSpace, CropMode, Limits, MaskRef, Operation, OutputFormat,
    StripScope, TransformRecipe,
};

fn wide(v: f64) -> Real {
    Real { bits: v.to_bits() }
}

fn short(v: f32) -> Real32 {
    Real32 { bits: v.to_bits() }
}

fn single(v: Real32) -> f32 {
    f32::from_bits(v.bits)
}

fn number(v: f64) -> Number {
    Number { bits: v.to_bits(), text: format!("{v}"), json: format!("{v}") }
}

fn colour(c: [f32; 4]) -> Rgba32 {
    Rgba32 { r: short(c[0]), g: short(c[1]), b: short(c[2]), a: short(c[3]) }
}

fn plain(w: u32, h: u32, c: [f32; 4]) -> LinearImage {
    Image::from_pixel(w, h, colour(c))
}

fn light_powers(last: u32) -> Vec<Real> {
    (0..=last)
        .map(|i| wide(f64::from_bits(eotf_base(table_step(i, last)).bits).powf(2.4)))
        .collect()
}

fn code_powers(last: u32) -> Vec<Real> {
    (0..=last)
        .map(|i| wide(f64::from_bits(table_step(i, last).bits).powf(1.0 / 2.4)))
        .collect()
}

fn tables() -> Tables {
    Tables {
        eotf_u8: light_table(&light_powers(255)),
        eotf_u16: light_table(&light_powers(65535)),
        eotf: light_table(&light_powers(4095)),
        oetf: code_table(&code_powers(4095)),
    }
}

fn ok<T>(r: Result<T, AtxError>) -> T {
    match r {
        Ok(v) => v,
        Err(e) => panic!("{}", e.message()),
    }
}

fn words<T>(r: Result<T, AtxError>) -> String {
    match r {
        Ok(_) => panic!("succeeded"),
        Err(e) => e.message(),
    }
}

fn png(img: &LinearImage) -> Vec<u8> {
    ok(encode(img, OutputFormat::Png, None, false, None, 8)).0
}

fn step(st: Pipeline, index: usize, op: &Operation, t: &Tables) -> Result<Pipeline, AtxError> {
    run_op(st, index, op, &Supply::Nothing, None, t)
}

fn cut(rect: Rect) -> Operation {
    Operation::Crop {
        aspect_ratio: None,
        rect: Some(rect),
        anchor: Anchor::Center,
        mode: CropMode::Crop,
        pad_color: None,
        coordinate_space: CoordinateSpace::Current,
    }
}

fn flip() -> Operation {
    Operation::Flip { direction: FlipDirection::Horizontal }
}

fn recipe(operations: Vec<Operation>) -> TransformRecipe {
    TransformRecipe { operations, layers: None }
}

fn run(bytes: &[u8], r: &TransformRecipe, t: &Tables) -> atx_core::EncodedOutput {
    let d = ok(start(r, bytes, &Limits::default(), t));
    let mut st = begin(d.img, initial_space(r), d.xf, d.has_alpha);
    for (i, op) in r.operations.iter().enumerate() {
        st = ok(step(st, i, op, t));
    }
    ok(finish(st, &r.operations, d.icc, &d.format, d.exif_has_any, t))
}

/// A recipe of exact operations: cut, mirror, write.
#[test]
fn a_recipe_runs_to_its_end() {
    let t = tables();
    let mut img = plain(4, 3, [0.0, 0.0, 0.0, 1.0]);
    img.set(1, 1, colour([1.0, 1.0, 1.0, 1.0]));
    let r = recipe(vec![
        Operation::AutoOrient,
        cut(Rect { x: 1, y: 1, width: 3, height: 2 }),
        flip(),
        Operation::Encode { format: OutputFormat::Png, quality: None, bit_depth: None },
    ]);
    let out = run(&png(&img), &r, &t);
    assert_eq!(out.mime_type, "image/png");
    assert_eq!((out.width, out.height), (3, 2));
    assert!(out.warnings.is_empty(), "{:?}", out.warnings);
    let d = ok(decode_normalized(&out.bytes, &Limits::default(), Space::Srgb, &t));
    assert_eq!(single(d.img.get(2, 0).r), 1.0);
    assert_eq!(single(d.img.get(0, 0).r), 0.0);
}

/// The same input and the same recipe give the same bytes.
#[test]
fn the_same_recipe_gives_the_same_bytes() {
    let t = tables();
    let img = plain(6, 5, [0.2, 0.4, 0.6, 1.0]);
    let bytes = png(&img);
    let zero = number(0.0);
    let r = recipe(vec![
        Operation::Adjust {
            brightness: number(0.2),
            contrast: number(-0.05),
            saturation: number(0.3),
            sharpness: number(0.1),
            mask: None,
        },
        Operation::WhiteBalance { temperature: number(25.0), tint: zero, mask: None },
        Operation::Grain { amount: number(0.3), size: 1, monochrome: false, seed: 4, mask: None },
        Operation::Encode { format: OutputFormat::Webp, quality: Some(80), bit_depth: None },
    ]);
    let a = run(&bytes, &r, &t);
    let b = run(&bytes, &r, &t);
    assert_eq!(a.bytes, b.bytes);
    assert_eq!(a.warnings, b.warnings);
}

/// An operation that fails names itself and its place.
#[test]
fn failures_name_their_operation() {
    let t = tables();
    let st = begin(plain(4, 3, [0.5; 4]), Space::Srgb, atx_core::transform::Affine::identity(), true);
    let e = words(step(st, 2, &cut(Rect { x: 3, y: 0, width: 4, height: 1 }), &t));
    assert!(e.starts_with("operation 2 (crop) failed"), "{e}");
    let bad = recipe(vec![]);
    assert!(words(start(&bad, b"", &Limits::default(), &t)).contains("operations must not be empty"));
    let good = recipe(vec![flip()]);
    assert!(words(start(&good, b"?", &Limits::default(), &t)).contains("failed to decode"));
}

/// What is under a mask of nothing stays; under a mask of everything it changes.
#[test]
fn masks_limit_operations() {
    let t = tables();
    let img = plain(2, 1, [0.2, 0.2, 0.2, 1.0]);
    let mask = MaskRef { revision_id: "rev_m".to_string(), invert: false, feather_px: number(0.0) };
    let op = Operation::Adjust {
        brightness: number(0.5),
        contrast: number(0.0),
        saturation: number(0.0),
        sharpness: number(0.0),
        mask: Some(mask),
    };
    let weights = Image { width: 2, height: 1, data: vec![short(0.0), short(1.0)] };
    let st = begin(img, Space::Srgb, atx_core::transform::Affine::identity(), false);
    let out = ok(run_op(st, 0, &op, &Supply::Nothing, Some(Ok(weights)), &t));
    assert_eq!(single(out.img.get(0, 0).r), 0.2);
    assert!(single(out.img.get(1, 0).r) > 0.2);
    let st = begin(
        plain(2, 1, [0.2, 0.2, 0.2, 1.0]),
        Space::Srgb,
        atx_core::transform::Affine::identity(),
        false,
    );
    let lost = Some(Err(AtxError::InvalidRecipe("gone".to_string())));
    assert!(words(run_op(st, 1, &op, &Supply::Nothing, lost, &t)).contains("operation 1 (adjust)"));
}

/// A run under a mask gives the pixels of a run without one where the weight is one, those
/// that were there where it is nought, and what lies between them elsewhere.
#[test]
fn masked_runs_are_local() {
    let t = tables();
    let same = atx_core::transform::Affine::identity();
    let level = |mask: Option<MaskRef>| Operation::Adjust {
        brightness: number(0.3),
        contrast: number(0.1),
        saturation: number(0.2),
        sharpness: number(0.0),
        mask,
    };
    let mask = MaskRef { revision_id: "rev_m".to_string(), invert: false, feather_px: number(0.0) };
    let weights = Image { width: 3, height: 1, data: vec![short(1.0), short(0.0), short(0.25)] };
    let st = begin(plain(3, 1, [0.2, 0.4, 0.6, 1.0]), Space::Srgb, same, false);
    let whole = ok(run_op(st, 0, &level(None), &Supply::Nothing, None, &t));
    let st = begin(plain(3, 1, [0.2, 0.4, 0.6, 1.0]), Space::Srgb, same, false);
    let before = st.img.get(0, 0);
    let part = ok(run_op(st, 0, &level(Some(mask)), &Supply::Nothing, Some(Ok(weights)), &t));
    assert_eq!(part.space, whole.space);
    assert_eq!(part.img.get(0, 0), whole.img.get(0, 0));
    assert_eq!(part.img.get(1, 0), before);
    let (a, b) = (single(before.r), single(whole.img.get(2, 0).r));
    assert_ne!(a, b);
    assert_eq!(single(part.img.get(2, 0).r), a + (b - a) * 0.25);
}

/// Layers are laid on the first, and must have its size.
#[test]
fn layers_are_composited() {
    let t = tables();
    let same = atx_core::transform::Affine::identity();
    let canvas = begin(plain(2, 1, [0.0, 0.0, 0.0, 1.0]), Space::Srgb, same, false);
    let top = begin(plain(2, 1, [1.0, 1.0, 1.0, 1.0]), Space::Srgb, same, true);
    let top = finish_layer(top, 1, &t);
    let out = ok(add_layer(canvas, top, 1, BlendMode::Normal, &number(0.5), None));
    assert_eq!(single(out.img.get(0, 0).r), 0.5);
    assert!(out.has_alpha);
    let small = begin(plain(1, 1, [1.0; 4]), Space::Srgb, same, false);
    let e = words(add_layer(out, small, 2, BlendMode::Normal, &number(1.0), None));
    assert!(e.contains("layers[2]"), "{e}");
    assert!(e.contains("1x1") && e.contains("2x1"), "{e}");
    let bytes = png(&plain(3, 3, [1.0; 4]));
    let d = ok(layer_source(1, "rev_l", Ok(bytes), &Limits::default(), &t));
    assert_eq!(d.img.dimensions(), (3, 3));
    let gone = Err(AtxError::InvalidRecipe("gone".to_string()));
    let e = words(layer_source(1, "rev_l", gone, &Limits::default(), &t));
    assert!(e.contains("layers[1] (source): revision rev_l could not be read"), "{e}");
}

/// The output is what the recipe asks for, or what the input was.
#[test]
fn the_output_format_is_chosen() {
    let ops = vec![Operation::Encode {
        format: OutputFormat::Avif,
        quality: Some(50),
        bit_depth: None,
    }];
    let c = choose_output(&ops, FormatKind::Png);
    assert_eq!((c.format, c.quality, c.bit_depth), (OutputFormat::Avif, Some(50), 8));
    let c = choose_output(&vec![flip()], FormatKind::WebP);
    assert_eq!((c.format, c.quality), (OutputFormat::Webp, None));
    let c = choose_output(&vec![flip()], FormatKind::Other);
    assert_eq!(c.format, OutputFormat::Jpeg);
}

/// What is removed from the metadata is said.
#[test]
fn removed_metadata_is_named() {
    let t = tables();
    let img = plain(2, 2, [0.5, 0.5, 0.5, 1.0]);
    let r = recipe(vec![Operation::StripMetadata { scope: StripScope::Gps }]);
    let out = run(&png(&img), &r, &t);
    assert_eq!(out.mime_type, "image/png");
    assert_eq!(out.warnings.len(), 1);
    assert!(out.warnings[0].starts_with("strip_metadata(gps)"), "{:?}", out.warnings);
}

/// The working space follows the first operation that has one.
#[test]
fn the_first_operation_fixes_the_space() {
    assert_eq!(initial_space(&recipe(vec![flip()])), Space::Srgb);
    let resize = Operation::Resize {
        width: Some(2),
        height: None,
        fit: atx_core::Fit::Contain,
        without_enlargement: false,
    };
    assert_eq!(initial_space(&recipe(vec![flip(), resize])), Space::Linear);
}

/// What an operation needs is told from what it does not.
#[test]
fn supplies_are_checked() {
    let img = plain(4, 4, [0.5; 4]);
    let blur = Operation::Blur { sigma: number(1.0), mask: None };
    let raw = |n: usize| Supply::Exponentials(vec![wide(1.0); n]);
    assert!(check_supply(&blur, &raw(7), &img));
    assert!(!check_supply(&blur, &raw(6), &img));
    assert!(!check_supply(&blur, &Supply::Nothing, &img));
    assert!(check_supply(&flip(), &Supply::Nothing, &img));
}
