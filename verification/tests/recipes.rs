//! Recipes: their checks, their canonical form and its hash.
use atx_core::error::AtxError;
use atx_core::number::Number;
use atx_core::recipe::{
    op_name, parse_aspect_ratio, parse_hex_color, prefix_layer, validate, Rect,
};
use atx_core::{
    canonical_json, recipe_hash, Anchor, BlendMode, CoordinateSpace, CropMode, Fit, Layer,
    LayerSource, MaskRef, Operation, OutputFormat, RotateCrop, StripScope, TransformRecipe,
};

fn number(v: f64) -> Number {
    Number { bits: v.to_bits(), text: format!("{v}"), json: format!("{v:?}") }
}

fn rotate(v: f64) -> Operation {
    Operation::Rotate { angle_degrees: number(v), crop: RotateCrop::LargestInscribedRect }
}

fn recipe(operations: Vec<Operation>) -> TransformRecipe {
    TransformRecipe { operations, layers: None }
}

fn encode(quality: Option<u8>) -> Operation {
    Operation::Encode { format: OutputFormat::Jpeg, quality, bit_depth: None }
}

fn crop(aspect_ratio: Option<&str>, rect: Option<Rect>) -> Operation {
    Operation::Crop {
        aspect_ratio: aspect_ratio.map(|s| s.to_string()),
        rect,
        anchor: Anchor::Center,
        mode: CropMode::Crop,
        pad_color: None,
        coordinate_space: CoordinateSpace::Current,
    }
}

fn layer(source: LayerSource, ops: Vec<Operation>) -> Layer {
    Layer { source, ops, mask: None, blend_mode: BlendMode::Normal, opacity: number(1.0) }
}

fn said(r: Result<(), AtxError>) -> String {
    match r {
        Ok(()) => panic!("accepted"),
        Err(e) => e.message(),
    }
}

fn json(r: &TransformRecipe) -> String {
    match canonical_json(r) {
        Ok(s) => s,
        Err(e) => panic!("{}", e.message()),
    }
}

/// Keys are in order, and defaults that are written down are the same as the same recipe.
#[test]
fn canonical_json_sorts_its_keys() {
    let r = recipe(vec![rotate(1.5), encode(Some(90))]);
    assert_eq!(
        json(&r),
        r#"{"operations":[{"angle_degrees":1.5,"crop":"largest_inscribed_rect","op":"rotate"},{"format":"jpeg","op":"encode","quality":90}]}"#
    );
}

/// Numbers are written to the nearest millionth, as JSON writes the nearest number to it.
#[test]
fn canonical_numbers_are_on_the_grid() {
    let shown = |v: f64| {
        let s = json(&recipe(vec![rotate(v)]));
        let s = s.strip_prefix(r#"{"operations":[{"angle_degrees":"#).unwrap().to_string();
        let end = s.find(',').unwrap();
        s[..end].to_string()
    };
    assert_eq!(shown(0.0), "0.0");
    assert_eq!(shown(-0.0), "0.0");
    assert_eq!(shown(1.0), "1.0");
    assert_eq!(shown(0.1 + 0.2), "0.3");
    assert_eq!(shown(-0.000_000_4), "0.0");
    assert_eq!(shown(-0.000_000_6), "-1e-6");
    assert_eq!(shown(0.000_000_5), "1e-6");
    assert_eq!(shown(1e300), "1e300");
    for v in [12.5, -359.999_999, 1.0 / 3.0, 0.000_123_456_7, 123_456.789_012_3, 1e9 + 0.1] {
        let grid: f64 = f64::round(v * 1e6) / 1e6;
        assert_eq!(shown(v), serde_json::Number::from_f64(grid).unwrap().to_string(), "{v}");
    }
    assert_eq!(json(&recipe(vec![rotate(0.1 + 0.2)])), json(&recipe(vec![rotate(0.3)])));
    let still = Operation::Rotate { angle_degrees: number(-0.000_000_4), crop: RotateCrop::Full };
    assert_eq!(
        json(&recipe(vec![still])),
        r#"{"operations":[{"angle_degrees":0.0,"crop":"full","op":"rotate"}]}"#
    );
}

/// The hash is the SHA-256 of the canonical text, in small hexadecimal digits.
#[test]
fn the_hash_is_that_of_the_canonical_text() {
    let r = recipe(vec![Operation::AutoOrient]);
    assert_eq!(json(&r), r#"{"operations":[{"op":"auto_orient"}]}"#);
    let hash = match recipe_hash(&r) {
        Ok(h) => h,
        Err(e) => panic!("{}", e.message()),
    };
    assert_eq!(hash.len(), 64);
    assert!(hash.chars().all(|c| c.is_ascii_digit() || ('a'..='f').contains(&c)));
    let other = match recipe_hash(&recipe(vec![rotate(1.0)])) {
        Ok(h) => h,
        Err(e) => panic!("{}", e.message()),
    };
    assert_ne!(hash, other);
    let again = match recipe_hash(&recipe(vec![Operation::AutoOrient])) {
        Ok(h) => h,
        Err(e) => panic!("{}", e.message()),
    };
    assert_eq!(hash, again);
}

/// Texts are escaped as JSON asks.
#[test]
fn canonical_json_escapes_texts() {
    let r = recipe(vec![Operation::Lut {
        lut_revision_id: "rev_\"\\\n\u{1}é".to_string(),
        strength: number(1.0),
        mask: None,
    }]);
    let s = json(&r);
    assert!(s.contains("\"rev_\\\"\\\\\\n\\u0001é\""), "{s}");
}

/// What a recipe must keep to, and the error of each breach.
#[test]
fn recipes_are_checked() {
    assert!(validate(&recipe(vec![rotate(12.0), encode(Some(90))])).is_ok());
    assert_eq!(said(validate(&recipe(vec![]))), "invalid recipe: operations must not be empty");
    assert!(said(validate(&recipe(vec![encode(None), rotate(1.0)]))).contains("encode"));
    assert!(said(validate(&recipe(vec![encode(None), encode(None)]))).contains("encode"));
    assert!(said(validate(&recipe(vec![encode(Some(0))]))).contains("quality"));
    assert!(said(validate(&recipe(vec![encode(Some(101))]))).contains("quality"));
    assert!(said(validate(&recipe(vec![rotate(361.0)]))).contains("operations[0] (rotate)"));
    assert!(said(validate(&recipe(vec![rotate(f64::NAN)]))).contains("rotate"));
    let rect = Rect { x: 0, y: 0, width: 4, height: 4 };
    assert!(validate(&recipe(vec![crop(Some("16:9"), None)])).is_ok());
    assert!(validate(&recipe(vec![crop(None, Some(rect))])).is_ok());
    assert!(said(validate(&recipe(vec![crop(Some("1:1"), Some(rect))]))).contains("crop"));
    assert!(said(validate(&recipe(vec![crop(None, None)]))).contains("crop"));
    assert!(said(validate(&recipe(vec![crop(Some("1:0"), None)]))).contains("crop"));
    let resize = Operation::Resize {
        width: None,
        height: None,
        fit: Fit::Contain,
        without_enlargement: false,
    };
    assert!(said(validate(&recipe(vec![resize]))).contains("resize"));
}

/// Layers have rules of their own.
#[test]
fn layers_are_checked() {
    let base = layer(LayerSource::base(), vec![]);
    let ok = TransformRecipe { operations: vec![], layers: Some(vec![base.clone()]) };
    assert!(validate(&ok).is_ok());
    let none = TransformRecipe { operations: vec![], layers: Some(vec![]) };
    assert!(said(validate(&none)).contains("layers"));
    let coded = TransformRecipe {
        operations: vec![],
        layers: Some(vec![layer(LayerSource::base(), vec![encode(None)])]),
    };
    assert!(said(validate(&coded)).contains("layers[0]"), "{}", said(validate(&coded)));
    let other = LayerSource::Revision { revision_id: "rev_b".to_string() };
    assert!(!other.is_base());
    assert_eq!(other.revision_id(), Some("rev_b"));
    assert!(LayerSource::base().is_base());
    let e = prefix_layer(3, AtxError::InvalidRecipe("no".to_string()));
    assert!(e.message().contains("layers[3]"), "{}", e.message());
}

#[test]
fn ratios_and_colours_are_read() {
    assert_eq!(parse_aspect_ratio("16:9"), Some((16, 9)));
    assert_eq!(parse_aspect_ratio("0:9"), None);
    assert_eq!(parse_aspect_ratio("16x9"), None);
    assert_eq!(parse_hex_color("#fff"), Some([255, 255, 255, 255]));
    assert_eq!(parse_hex_color("#0a1b2c"), Some([10, 27, 44, 255]));
    assert_eq!(parse_hex_color("#0a1b2c80"), Some([10, 27, 44, 128]));
    assert_eq!(parse_hex_color("0a1b2c"), None);
    assert_eq!(parse_hex_color("#0a1b2"), None);
}

#[test]
fn operations_have_names_and_masks() {
    let strip = Operation::StripMetadata { scope: StripScope::All };
    assert_eq!(op_name(&strip), "strip_metadata");
    assert!(strip.mask().is_none());
    let mask =
        MaskRef { revision_id: "rev_m".to_string(), invert: true, feather_px: number(0.0) };
    let blur = Operation::Blur { sigma: number(2.0), mask: Some(mask) };
    assert_eq!(op_name(&blur), "blur");
    assert_eq!(blur.mask().unwrap().revision_id, "rev_m");
    assert_eq!(OutputFormat::Webp.name(), "Webp");
    assert_eq!(BlendMode::ColorDodge.name(), "ColorDodge");
    assert!(CoordinateSpace::Current.is_current());
}

/// Each kind of error has its words.
#[test]
fn errors_speak() {
    let m = |s: &str| s.to_string();
    assert_eq!(AtxError::Decode(m("x")).message(), "failed to decode input image: x");
    assert_eq!(AtxError::Encode(m("x")).message(), "failed to encode output image: x");
    assert_eq!(AtxError::InvalidRecipe(m("x")).message(), "invalid recipe: x");
    let e = AtxError::Operation { index: 2, op: m("crop"), message: m("x") };
    assert_eq!(e.message(), "operation 2 (crop) failed: x");
    assert!(AtxError::LimitExceeded(m("x")).message().contains("x"));
    assert!(AtxError::Io(m("x")).message().contains("x"));
}
