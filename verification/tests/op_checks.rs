//! The checks on the parameters of the operations.
use atx_core::error::AtxError;
use atx_core::number::Number;
use atx_core::ops::{
    auto_levels, blur, clone_heal, color, convolve, finish, gradient, hsl, lut, mask, perspective,
    pixelate, svg, threshold, trim, wb,
};
use atx_core::recipe::{GradientStop, HslShift, MaskRef, Quad, Rect, ThresholdMethod};

fn number(v: f64) -> Number {
    Number { bits: v.to_bits(), text: format!("{v}"), json: format!("{v}") }
}

fn stop(position: f64, color: &str) -> GradientStop {
    GradientStop { position: number(position), color: color.to_string() }
}

fn said(r: Result<(), AtxError>) -> String {
    match r {
        Ok(()) => panic!("accepted"),
        Err(e) => e.message(),
    }
}

#[test]
fn validate_accepts_default() {
    assert!(auto_levels::validate(0, &number(0.5)).is_ok());
}

#[test]
fn validate_rejects_negative() {
    assert!(auto_levels::validate(0, &number(-0.1)).is_err());
}

#[test]
fn validate_rejects_above_max() {
    assert!(auto_levels::validate(0, &number(10.1)).is_err());
}

#[test]
fn validate_rejects_non_finite() {
    assert!(auto_levels::validate(0, &number(f64::NAN)).is_err());
}

#[test]
fn validate_accepts_two_stops() {
    let stops = vec![stop(0.0, "#000000"), stop(1.0, "#ffffff")];
    assert!(gradient::validate_stops(0, &stops).is_ok());
}

#[test]
fn validate_rejects_single_stop() {
    assert!(gradient::validate_stops(0, &vec![stop(0.0, "#000000")]).is_err());
}

#[test]
fn validate_rejects_non_increasing_positions() {
    let err = gradient::validate_stops(0, &vec![stop(0.5, "#000000"), stop(0.5, "#ffffff")]);
    assert!(err.is_err());
}

#[test]
fn validate_rejects_too_many_stops() {
    let stops: Vec<GradientStop> = (0..9).map(|i| stop(i as f64 / 8.0, "#ffffff")).collect();
    assert!(gradient::validate_stops(0, &stops).is_err());
}

#[test]
fn gradient_validate_rejects_bad_hex() {
    let stops = vec![stop(0.0, "notacolor"), stop(1.0, "#ffffff")];
    assert!(gradient::validate_stops(0, &stops).is_err());
}

#[test]
fn validate_rejects_eight_digit_hex() {
    let stops = vec![stop(0.0, "#00000080"), stop(1.0, "#ffffff")];
    assert!(gradient::validate_stops(0, &stops).is_err());
}

#[test]
fn validate_accepts_default_block_size() {
    assert!(pixelate::validate(0, 8, &None).is_ok());
}

#[test]
fn validate_rejects_block_size_below_min() {
    assert!(pixelate::validate(0, 1, &None).is_err());
}

#[test]
fn validate_rejects_block_size_above_max() {
    assert!(pixelate::validate(0, 257, &None).is_err());
}

#[test]
fn validate_rejects_zero_size_region() {
    let region = Some(Rect { x: 0, y: 0, width: 0, height: 4 });
    assert!(pixelate::validate(0, 4, &region).is_err());
}

#[test]
fn validate_matrix() {
    let one = number(1.0);
    let none: Vec<String> = vec![];
    assert!(svg::validate(0, "rev_x", 0, 0, &one, None, None, &none).is_ok());
    assert!(svg::validate(0, "", 0, 0, &one, None, None, &none).is_err());
    assert!(svg::validate(0, "nope", 0, 0, &one, None, None, &none).is_err());
    assert!(svg::validate(0, "rev_x", 0, 0, &number(1.5), None, None, &none).is_err());
    assert!(svg::validate(0, "rev_x", 0, 0, &number(f64::NAN), None, None, &none).is_err());
    assert!(svg::validate(0, "rev_x", 0, 0, &one, Some(0), None, &none).is_err());
    assert!(svg::validate(0, "rev_x", 0, 0, &one, None, Some(0), &none).is_err());
    assert!(svg::validate(0, "rev_x", 0, 0, &one, Some(32_769), None, &none).is_err());
}

#[test]
fn validate_rejects_unbounded_offsets() {
    let one = number(1.0);
    let most: i64 = 100_000_000;
    for (x, y) in [(i64::MAX, 0), (i64::MIN, 0), (0, i64::MAX), (most + 1, 0), (0, -most - 1)] {
        let err = said(svg::validate(0, "rev_x", x, y, &one, None, None, &vec![]));
        assert!(err.contains("svg_overlay"), "{err}");
    }
    assert!(svg::validate(0, "rev_x", -most, most, &one, None, None, &vec![]).is_ok());
}

#[test]
fn validate_defaults_are_accepted() {
    assert!(threshold::validate(0, ThresholdMethod::Otsu, None, None, &None).is_ok());
    let k = Some(number(0.2));
    assert!(threshold::validate(0, ThresholdMethod::Sauvola, None, Some(31), &k).is_ok());
    assert!(threshold::validate(0, ThresholdMethod::Fixed, Some(128), None, &None).is_ok());
}

#[test]
fn validate_rejects_even_window() {
    let err = said(threshold::validate(1, ThresholdMethod::Sauvola, None, Some(30), &None));
    assert!(err.contains("operations[1] (threshold)"), "{err}");
    assert!(err.contains("odd"), "{err}");
}

#[test]
fn validate_rejects_misplaced_parameters() {
    let k = Some(number(0.2));
    assert!(threshold::validate(0, ThresholdMethod::Fixed, None, None, &None).is_err());
    assert!(threshold::validate(0, ThresholdMethod::Otsu, Some(1), None, &None).is_err());
    assert!(threshold::validate(0, ThresholdMethod::Otsu, None, None, &k).is_err());
    assert!(threshold::validate(0, ThresholdMethod::Fixed, Some(1), Some(31), &None).is_err());
}

#[test]
fn validate_rejects_padding_above_max() {
    assert!(trim::validate(0, &None, 4097).is_err());
    assert!(trim::validate(0, &None, 4096).is_ok());
}

#[test]
fn trim_validate_rejects_bad_hex() {
    assert!(trim::validate(0, &Some("ffffff".to_string()), 0).is_err());
    assert!(trim::validate(0, &Some("#fff".to_string()), 0).is_ok());
}

#[test]
fn the_other_checks_hold_their_ranges() {
    let curve = Some(vec![[0, 0], [255, 255]]);
    assert!(color::validate_matrix(0, &vec![number(0.5); 20]).is_ok());
    assert!(color::validate_matrix(0, &vec![number(0.5); 19]).is_err());
    assert!(color::validate_matrix(0, &vec![number(f64::INFINITY); 20]).is_err());
    assert!(color::validate_curves(0, &curve, &None, &None, &None).is_ok());
    assert!(color::validate_curves(0, &Some(vec![[5, 0], [5, 1]]), &None, &None, &None).is_err());
    assert!(color::validate_levels(0, 0, 255, &number(1.0), 0, 255).is_ok());
    assert!(color::validate_levels(0, 9, 9, &number(1.0), 0, 255).is_err());
    assert!(color::validate_levels(0, 0, 255, &number(0.0), 0, 255).is_err());
    assert!(blur::validate_blur(0, &number(2.0)).is_ok());
    assert!(blur::validate_blur(0, &number(0.0)).is_err());
    assert!(blur::validate_median(0, 1).is_ok());
    assert!(blur::validate_median(0, 0).is_err());
    assert!(blur::validate_unsharp(0, &number(1.0), &number(1.0), 3).is_ok());
    assert!(blur::validate_unsharp(0, &number(-1.0), &number(1.0), 3).is_err());
    assert!(finish::validate_vignette(0, &number(0.5), &number(0.5), &number(0.5)).is_ok());
    assert!(finish::validate_vignette(0, &number(1.5), &number(0.5), &number(0.5)).is_err());
    assert!(finish::validate_grain(0, &number(0.5), 1).is_ok());
    assert!(finish::validate_grain(0, &number(0.5), 0).is_err());
    assert!(wb::validate(0, &number(100.0), &number(-100.0)).is_ok());
    assert!(wb::validate(0, &number(100.5), &number(0.0)).is_err());
    assert!(clone_heal::validate(0, "clone", 2048, &number(1.0)).is_ok());
    assert!(clone_heal::validate(0, "clone", 2049, &number(1.0)).is_err());
    assert!(lut::validate(0, "rev_a", &number(1.0)).is_ok());
    assert!(lut::validate(0, "", &number(1.0)).is_err());
    let kernel = vec![number(1.0); 9];
    assert!(convolve::validate(0, &kernel, 3, &number(9.0), &number(0.0)).is_ok());
    assert!(convolve::validate(0, &kernel, 5, &number(9.0), &number(0.0)).is_err());
    assert!(convolve::validate(0, &kernel, 3, &number(0.0), &number(0.0)).is_err());
    let still = Some(HslShift {
        hue: number(0.0),
        saturation: number(0.0),
        luminance: number(200.0),
    });
    let none: Option<HslShift> = None;
    let err = said(hsl::validate(2, &still, &none, &none, &none, &none, &none, &none, &none));
    assert!(err.contains("operations[2] (hsl)"), "{err}");
    let mask_ref =
        MaskRef { revision_id: "rev_m".to_string(), invert: false, feather_px: number(2.0) };
    assert!(mask::validate(0, &mask_ref).is_ok());
    let nameless = MaskRef { revision_id: String::new(), invert: false, feather_px: number(2.0) };
    assert!(mask::validate(0, &nameless).is_err());
}

#[test]
fn a_quadrilateral_must_turn_clockwise() {
    let corner = |x: f64, y: f64| [number(x), number(y)];
    let quad = |c: [[f64; 2]; 4]| Quad {
        corners: [
            corner(c[0][0], c[0][1]),
            corner(c[1][0], c[1][1]),
            corner(c[2][0], c[2][1]),
            corner(c[3][0], c[3][1]),
        ],
        text: format!("{c:?}"),
    };
    let good = quad([[0.0, 0.0], [10.0, 1.0], [9.0, 8.0], [1.0, 9.0]]);
    assert!(perspective::to_outline(&good).turns_clockwise());
    assert!(perspective::validate(0, &Some(good), &None, &None, &None).is_ok());
    let crossed = quad([[0.0, 0.0], [10.0, 10.0], [10.0, 0.0], [0.0, 10.0]]);
    assert!(perspective::validate(0, &Some(crossed), &None, &None, &None).is_err());
    assert!(perspective::validate(0, &None, &None, &None, &None).is_err());
    assert!(perspective::validate(0, &None, &Some(number(46.0)), &None, &None).is_err());
    assert!(perspective::validate(0, &None, &Some(number(45.0)), &None, &None).is_ok());
}
