//! The operations on pixels.
use atx_core::adjust::adjust;
use atx_core::binary::{Real, Real32};
use atx_core::effects::make_kernel;
use atx_core::linear::LinearImage;
use atx_core::ops::blend::{blend_channel, composite};
use atx_core::ops::blur::{gaussian_blur, kernel_exponent, kernel_radius, median, unsharp_mask, Kernel};
use atx_core::ops::clone_heal::{
    apply_clone, apply_heal, diagonal_cap, feather_weight, heal_radius, heal_sigma, Discs,
};
use atx_core::ops::color::{
    color_matrix, compose, curves, identity_lut, levels_exponent, levels_input, levels_lut,
    lut_from_points,
};
use atx_core::ops::finish::{flip, grain, grain_delta, grain_hash, vignette, vignette_gain};
use atx_core::ops::gradient;
use atx_core::ops::hsl::{band_center, band_weights, hsl_to_rgb, rgb_to_hsl};
use atx_core::ops::lut::{apply as apply_cube, parse_cube, CubeFault};
use atx_core::ops::mask::{bilinear_resize, blend};
use atx_core::ops::threshold::{luma_u8, otsu_threshold, Integral};
use atx_core::ops::trim::content_rect;
use atx_core::ops::wb::{gains, gain_lut};
use atx_core::ops::{auto_levels, convolve, pixelate, threshold};
use atx_core::number::Number;
use atx_core::raster::{Image, Rgba, Rgba32};
use atx_core::recipe::{BlendMode, FlipDirection, GradientStop, Rect, ThresholdMethod};

fn wide(v: f64) -> Real {
    Real { bits: v.to_bits() }
}

fn short(v: f32) -> Real32 {
    Real32 { bits: v.to_bits() }
}

fn double(v: Real) -> f64 {
    f64::from_bits(v.bits)
}

fn single(v: Real32) -> f32 {
    f32::from_bits(v.bits)
}

fn number(v: f64) -> Number {
    Number { bits: v.to_bits(), text: format!("{v}"), json: format!("{v}") }
}

fn colour(c: [f32; 4]) -> Rgba32 {
    Rgba32 { r: short(c[0]), g: short(c[1]), b: short(c[2]), a: short(c[3]) }
}

fn plain(w: u32, h: u32, c: [f32; 4]) -> LinearImage {
    Image::from_pixel(w, h, colour(c))
}

fn parts(p: Rgba32) -> [f32; 4] {
    [single(p.r), single(p.g), single(p.b), single(p.a)]
}

fn kernel(sigma: Real) -> Kernel {
    let radius = kernel_radius(sigma) as i32;
    let raw: Vec<Real> =
        (-radius..=radius).map(|i| wide(double(kernel_exponent(sigma, i)).exp())).collect();
    make_kernel(sigma, &raw)
}

fn heal(img: &LinearImage, at: Discs, radius: u32, feather: f64) -> Result<LinearImage, String> {
    let k = kernel(heal_sigma(heal_radius(img, radius)));
    apply_heal(img, at, radius, wide(feather), &k)
}

fn discs(src_x: u32, src_y: u32, dest_x: u32, dest_y: u32) -> Discs {
    Discs { src_x, src_y, dest_x, dest_y }
}

#[test]
fn flat_image_is_noop() {
    let img = plain(4, 4, [0.4, 0.4, 0.4, 1.0]);
    let out = auto_levels::apply(&img, wide(0.5), false);
    assert_eq!(out.data, img.data);
}

#[test]
fn opaque_over_opaque_is_exactly_the_blend_function() {
    let mut backdrop = plain(1, 1, [0.25, 0.5, 0.75, 1.0]);
    let layer = plain(1, 1, [0.6, 0.6, 0.6, 1.0]);
    composite(&mut backdrop, &layer, BlendMode::Multiply, short(1.0), &None);
    let px = parts(backdrop.get(0, 0));
    assert_eq!(px[0], 0.25f32 * 0.6);
    assert_eq!(px[1], 0.5f32 * 0.6);
    assert_eq!(px[2], 0.75f32 * 0.6);
    assert_eq!(px[3], 1.0);
}

#[test]
fn zero_source_alpha_keeps_backdrop_bit_exact() {
    let original = plain(1, 1, [0.1, 0.2, 0.3, 0.4]);
    let mut backdrop = original.clone();
    let layer = plain(1, 1, [0.9, 0.9, 0.9, 1.0]);
    composite(&mut backdrop, &layer, BlendMode::Screen, short(0.0), &None);
    assert_eq!(backdrop.dimensions(), original.dimensions());
    assert_eq!(backdrop.data, original.data);
}

#[test]
fn normal_opaque_replaces_backdrop() {
    let mut backdrop = plain(1, 1, [0.1, 0.2, 0.3, 1.0]);
    let layer = plain(1, 1, [0.7, 0.6, 0.5, 1.0]);
    composite(&mut backdrop, &layer, BlendMode::Normal, short(1.0), &None);
    assert_eq!(parts(backdrop.get(0, 0)), [0.7, 0.6, 0.5, 1.0]);
}

#[test]
fn separable_blend_functions_match_the_w3c_spec() {
    let table: Vec<(BlendMode, f32, f32, f32)> = vec![
        (BlendMode::Normal, 0.3, 0.7, 0.7),
        (BlendMode::Normal, 1.0, 0.0, 0.0),
        (BlendMode::Normal, 0.0, 1.0, 1.0),
        (BlendMode::Multiply, 0.5, 0.5, 0.25),
        (BlendMode::Multiply, 1.0, 0.3, 0.3),
        (BlendMode::Multiply, 0.0, 0.9, 0.0),
        (BlendMode::Multiply, 0.25, 0.4, 0.1),
        (BlendMode::Screen, 0.5, 0.5, 0.75),
        (BlendMode::Screen, 0.0, 0.4, 0.4),
        (BlendMode::Screen, 1.0, 0.2, 1.0),
        (BlendMode::Screen, 0.25, 0.4, 0.55),
        (BlendMode::Overlay, 0.25, 0.6, 0.3),
        (BlendMode::Overlay, 0.75, 0.6, 0.8),
        (BlendMode::Overlay, 0.5, 0.8, 0.8),
        (BlendMode::Overlay, 0.0, 0.9, 0.0),
        (BlendMode::Overlay, 1.0, 0.3, 1.0),
        (BlendMode::Darken, 0.3, 0.7, 0.3),
        (BlendMode::Darken, 0.7, 0.3, 0.3),
        (BlendMode::Darken, 0.5, 0.5, 0.5),
        (BlendMode::Lighten, 0.3, 0.7, 0.7),
        (BlendMode::Lighten, 0.7, 0.3, 0.7),
        (BlendMode::Lighten, 0.0, 0.0, 0.0),
        (BlendMode::ColorDodge, 0.0, 0.5, 0.0),
        (BlendMode::ColorDodge, 0.0, 1.0, 0.0),
        (BlendMode::ColorDodge, 0.4, 1.0, 1.0),
        (BlendMode::ColorDodge, 0.25, 0.5, 0.5),
        (BlendMode::ColorDodge, 0.6, 0.5, 1.0),
        (BlendMode::ColorDodge, 0.3, 0.0, 0.3),
        (BlendMode::ColorBurn, 1.0, 0.2, 1.0),
        (BlendMode::ColorBurn, 1.0, 0.0, 1.0),
        (BlendMode::ColorBurn, 0.5, 0.0, 0.0),
        (BlendMode::ColorBurn, 0.5, 0.5, 0.0),
        (BlendMode::ColorBurn, 0.75, 0.5, 0.5),
        (BlendMode::ColorBurn, 0.5, 1.0, 0.5),
        (BlendMode::HardLight, 0.6, 0.25, 0.3),
        (BlendMode::HardLight, 0.6, 0.5, 0.6),
        (BlendMode::HardLight, 0.6, 0.75, 0.8),
        (BlendMode::HardLight, 0.6, 1.0, 1.0),
        (BlendMode::SoftLight, 0.5, 0.0, 0.25),
        (BlendMode::SoftLight, 0.5, 0.5, 0.5),
        (BlendMode::SoftLight, 0.2, 0.25, 0.12),
        (BlendMode::SoftLight, 0.25, 1.0, 0.5),
        (BlendMode::SoftLight, 0.25, 0.75, 0.375),
        (BlendMode::SoftLight, 0.16, 0.75, 0.279168),
        (BlendMode::SoftLight, 0.64, 0.75, 0.72),
        (BlendMode::SoftLight, 1.0, 1.0, 1.0),
        (BlendMode::SoftLight, 0.0, 1.0, 0.0),
        (BlendMode::Difference, 0.3, 0.7, 0.4),
        (BlendMode::Difference, 0.7, 0.3, 0.4),
        (BlendMode::Difference, 0.5, 0.5, 0.0),
        (BlendMode::Difference, 0.0, 1.0, 1.0),
        (BlendMode::Exclusion, 0.5, 0.5, 0.5),
        (BlendMode::Exclusion, 0.0, 0.3, 0.3),
        (BlendMode::Exclusion, 1.0, 0.3, 0.7),
        (BlendMode::Exclusion, 1.0, 1.0, 0.0),
    ];
    for (mode, cb, cs, want) in table {
        let got = single(blend_channel(mode, short(cb), short(cs)));
        assert!(
            (got - want).abs() <= 1e-6,
            "B({mode:?}, Cb={cb}, Cs={cs}) = {got}, want {want}"
        );
    }
}

#[test]
fn transparent_over_transparent_is_zero() {
    let mut backdrop = plain(1, 1, [0.1, 0.2, 0.3, 0.0]);
    let layer = plain(1, 1, [0.9, 0.9, 0.9, 0.5]);
    composite(&mut backdrop, &layer, BlendMode::Normal, short(1.0), &Some(vec![short(0.0)]));
    assert_eq!(parts(backdrop.get(0, 0)), [0.1, 0.2, 0.3, 0.0]);
}

#[test]
fn weight_is_binary_without_feather() {
    assert_eq!(double(feather_weight(0, 0, 10, wide(0.0))), 1.0);
    assert_eq!(double(feather_weight(10, 0, 10, wide(0.0))), 1.0);
    assert_eq!(double(feather_weight(11, 0, 10, wide(0.0))), 0.0);
    assert_eq!(double(feather_weight(8, 8, 10, wide(0.0))), 0.0);
}

#[test]
fn feather_band_is_monotonic_and_hits_both_endpoints() {
    let radius = 20u32;
    let feather = wide(6.0);
    let mut prev = 1.0;
    for d in 0..=25i64 {
        let w = double(feather_weight(d, 0, radius, feather));
        assert!(w <= prev + 1e-12, "weight must not increase outward at d={d}");
        prev = w;
    }
    assert_eq!(double(feather_weight(14, 0, radius, feather)), 1.0);
    assert_eq!(double(feather_weight(20, 0, radius, feather)), 0.0);
    let mid = double(feather_weight(17, 0, radius, feather));
    assert!(mid > 0.0 && mid < 1.0, "mid band weight {mid}");
}

#[test]
fn oversized_feather_clamps_to_radius() {
    assert_eq!(double(feather_weight(0, 0, 5, wide(200.0))), 1.0);
    assert_eq!(double(feather_weight(5, 0, 5, wide(200.0))), 0.0);
}

#[test]
fn clone_of_uniform_source_is_exact_inside_the_circle() {
    let mut img = plain(32, 32, [0.1, 0.2, 0.3, 1.0]);
    for y in 0..8 {
        for x in 0..8 {
            img.set(x, y, colour([0.7, 0.6, 0.5, 1.0]));
        }
    }
    let out = apply_clone(&img, discs(3, 3, 20, 20), 3, wide(0.0)).unwrap();
    assert_eq!(parts(out.get(20, 20)), [0.7, 0.6, 0.5, 1.0]);
    assert_eq!(parts(out.get(20, 25)), [0.1, 0.2, 0.3, 1.0]);
}

#[test]
fn center_outside_image_is_an_error() {
    let img = plain(8, 8, [0.5, 0.5, 0.5, 1.0]);
    let err = apply_clone(&img, discs(9, 0, 0, 0), 2, wide(0.0)).unwrap_err();
    assert!(err.contains("src center"), "{err}");
    let err = heal(&img, discs(0, 0, 0, 9), 2, 0.0).unwrap_err();
    assert!(err.contains("dest center"), "{err}");
}

#[test]
fn oversized_radius_is_capped_at_the_image_diagonal() {
    let mut img = plain(8, 8, [0.3, 0.4, 0.5, 1.0]);
    img.set(2, 2, colour([0.9, 0.1, 0.2, 1.0]));
    img.set(5, 6, colour([0.0, 0.8, 0.4, 1.0]));
    let started = std::time::Instant::now();
    let huge = heal(&img, discs(2, 2, 5, 5), 2048, 3.0).unwrap();
    assert!(
        started.elapsed() < std::time::Duration::from_secs(1),
        "capped heal must stay cheap, took {:?}",
        started.elapsed()
    );
    assert_eq!(diagonal_cap(&img), 12);
    assert_eq!(heal_radius(&img, 2048), 12);
    let capped = heal(&img, discs(2, 2, 5, 5), 12, 3.0).unwrap();
    assert_eq!(huge.data, capped.data);
}

#[test]
fn heal_of_uniform_image_is_identity() {
    let img = plain(24, 24, [0.4, 0.5, 0.6, 1.0]);
    let out = heal(&img, discs(5, 5, 15, 15), 4, 0.0).unwrap();
    for (a, b) in out.data.iter().zip(img.data.iter()) {
        let (a, b) = (parts(*a), parts(*b));
        for c in 0..4 {
            assert!((a[c] - b[c]).abs() < 1e-6, "{a:?} vs {b:?}");
        }
    }
}

#[test]
fn identity_curve_points_give_identity_lut() {
    let lut = lut_from_points(&vec![[0, 0], [255, 255]]);
    assert_eq!(lut, identity_lut());
}

#[test]
fn single_point_gives_constant_lut() {
    let lut = lut_from_points(&vec![[128, 77]]);
    assert!(lut.iter().all(|&v| v == 77));
}

#[test]
fn endpoints_clamp_outside_control_range() {
    let lut = lut_from_points(&vec![[10, 20], [200, 240]]);
    assert_eq!(lut[0], 20);
    assert_eq!(lut[9], 20);
    assert_eq!(lut[200], 240);
    assert_eq!(lut[255], 240);
}

#[test]
fn levels_default_lut_is_identity() {
    let exponent = double(levels_exponent(wide(1.0)));
    let powers: Vec<Real> =
        (0..=255u8).map(|i| wide(double(levels_input(i, 0, 255)).powf(exponent))).collect();
    let lut = levels_lut(0, 255, wide(1.0), 0, 255, &powers);
    assert_eq!(lut, identity_lut());
}

#[test]
fn gain_is_flat_inside_radius_and_saturates_outside() {
    let gain = |d: f64| single(vignette_gain(wide(d), wide(0.5), wide(0.6), wide(0.3)));
    assert_eq!(gain(0.0), 1.0);
    assert_eq!(gain(0.6), 1.0);
    assert_eq!(gain(0.9), 0.5);
    assert_eq!(gain(1.5), 0.5);
}

#[test]
fn gain_midpoint_of_falloff_is_the_smoothstep_midpoint() {
    let g = single(vignette_gain(wide(0.75), wide(0.5), wide(0.6), wide(0.3)));
    assert!((g - 0.75).abs() < 1e-6, "midpoint gain {g}");
}

#[test]
fn zero_feather_is_a_step() {
    assert_eq!(single(vignette_gain(wide(0.5), wide(0.4), wide(0.5), wide(0.0))), 1.0);
    assert_eq!(single(vignette_gain(wide(0.5001), wide(0.4), wide(0.5), wide(0.0))), 0.6);
}

#[test]
fn negative_strength_brightens() {
    assert_eq!(single(vignette_gain(wide(1.0), wide(-0.5), wide(0.5), wide(0.2))), 1.5);
}

#[test]
fn grain_delta_stays_within_amplitude() {
    let limit = 0.12f32 + 1e-6;
    for y in 0..64u64 {
        for x in 0..64u64 {
            let d = single(grain_delta(x, y, 7, 0, wide(1.0)));
            assert!(d.abs() <= limit, "delta {d} out of range at ({x},{y})");
        }
    }
}

#[test]
fn grain_hash_separates_inputs() {
    let base = grain_hash(3, 4, 5, 0);
    assert_ne!(base, grain_hash(4, 4, 5, 0));
    assert_ne!(base, grain_hash(3, 5, 5, 0));
    assert_ne!(base, grain_hash(3, 4, 6, 0));
    assert_ne!(base, grain_hash(3, 4, 5, 1));
}

#[test]
fn band_weights_sum_to_one_and_peak_at_centers() {
    for i in 0..8usize {
        let c = band_center(i);
        let ((a, wa), (_, wb)) = band_weights(c);
        assert_eq!(a, i);
        assert_eq!(double(wa), 1.0, "center {i} must have weight 1");
        assert_eq!(double(wb), 0.0);
    }
    let mut h = 0.0;
    while h < 360.0 {
        let ((_, wa), (_, wb)) = band_weights(wide(h));
        let (wa, wb) = (double(wa), double(wb));
        assert!((wa + wb - 1.0).abs() < 1e-12, "weights at {h} must sum to 1");
        assert!(wa >= 0.0 && wb >= 0.0);
        h += 0.25;
    }
}

#[test]
fn primaries_map_to_expected_hues() {
    assert_eq!(double(rgb_to_hsl(255, 0, 0).unwrap().h), 0.0);
    assert_eq!(double(rgb_to_hsl(0, 255, 0).unwrap().h), 120.0);
    assert_eq!(double(rgb_to_hsl(0, 0, 255).unwrap().h), 240.0);
    assert_eq!(double(rgb_to_hsl(255, 255, 0).unwrap().h), 60.0);
    assert!(rgb_to_hsl(77, 77, 77).is_none(), "grey has no hue");
}

#[test]
fn roundtrip_is_exact_on_coarse_grid() {
    for r in (0..=255u32).step_by(17) {
        for g in (0..=255u32).step_by(17) {
            for b in (0..=255u32).step_by(17) {
                let (r, g, b) = (r as u8, g as u8, b as u8);
                let Some(seen) = rgb_to_hsl(r, g, b) else {
                    continue;
                };
                assert_eq!(
                    hsl_to_rgb(seen.h, seen.s, seen.l),
                    (r, g, b),
                    "roundtrip {r},{g},{b}"
                );
            }
        }
    }
}

#[test]
fn blend_endpoints_are_exact() {
    let before = plain(2, 1, [0.25, 0.5, 0.75, 1.0]);
    let mut after = plain(2, 1, [0.9, 0.1, 0.2, 0.5]);
    after.set(0, 0, colour([0.9, 0.1, 0.2, 0.5]));
    let out = blend(&before, &after, &vec![short(1.0), short(0.0)]);
    assert_eq!(out.get(0, 0), after.get(0, 0));
    assert_eq!(out.get(1, 0), before.get(1, 0));
}

#[test]
fn bilinear_upscale_is_monotone() {
    let src = Image { width: 2, height: 1, data: vec![short(0.0), short(1.0)] };
    let out = bilinear_resize(&src, 4, 1);
    let out: Vec<f32> = out.data.iter().map(|v| single(*v)).collect();
    for pair in out.windows(2) {
        assert!(pair[1] >= pair[0], "{out:?}");
    }
    assert_eq!(out[0], 0.0);
    assert_eq!(out[3], 1.0);
}

#[test]
fn bilinear_same_size_is_identity() {
    let data = vec![short(0.1), short(0.4), short(0.9), short(0.25)];
    let src = Image { width: 2, height: 2, data: data.clone() };
    assert_eq!(bilinear_resize(&src, 2, 2).data, data);
}

#[test]
fn apply_rejects_region_outside_image() {
    let img = plain(4, 4, [0.5, 0.5, 0.5, 1.0]);
    let region = Some(Rect { x: 100, y: 100, width: 4, height: 4 });
    let err = pixelate::apply(&img, 2, &region).unwrap_err();
    assert!(err.starts_with("pixelate: region"), "{err}");
    assert!(!err.contains("invalid recipe"), "{err}");
}

#[test]
fn transparent_pixels_do_not_bleed_color() {
    let mut img = plain(2, 1, [0.0, 0.0, 0.0, 1.0]);
    img.set(0, 0, colour([1.0, 0.0, 0.0, 1.0]));
    img.set(1, 0, colour([0.0, 1.0, 0.0, 0.0]));
    let out = pixelate::apply(&img, 2, &None).unwrap();
    assert_eq!(parts(out.get(0, 0)), [1.0, 0.0, 0.0, 0.5]);
    assert_eq!(parts(out.get(1, 0)), [1.0, 0.0, 0.0, 0.5]);
}

#[test]
fn fully_transparent_block_zeroes_rgb() {
    let img = plain(2, 1, [0.3, 0.7, 0.1, 0.0]);
    let out = pixelate::apply(&img, 2, &None).unwrap();
    assert_eq!(parts(out.get(0, 0)), [0.0, 0.0, 0.0, 0.0]);
}

#[test]
fn opaque_block_average_is_unchanged() {
    let mut img = plain(2, 1, [0.0, 0.0, 0.0, 1.0]);
    img.set(0, 0, colour([1.0, 1.0, 1.0, 1.0]));
    img.set(1, 0, colour([0.0, 0.0, 0.0, 1.0]));
    let out = pixelate::apply(&img, 2, &None).unwrap();
    assert_eq!(parts(out.get(0, 0)), [0.5, 0.5, 0.5, 1.0]);
}

#[test]
fn luma_of_pure_channels_matches_the_integer_formula() {
    assert_eq!(luma_u8(colour([1.0, 0.0, 0.0, 1.0])), 54);
    assert_eq!(luma_u8(colour([0.0, 1.0, 0.0, 1.0])), 182);
    assert_eq!(luma_u8(colour([0.0, 0.0, 1.0, 1.0])), 18);
    assert_eq!(luma_u8(colour([1.0, 1.0, 1.0, 1.0])), 255);
}

#[test]
fn otsu_picks_the_valley_of_a_two_peak_histogram() {
    let mut hist = vec![0u64; 256];
    hist[40] = 100;
    hist[200] = 100;
    let t = otsu_threshold(&hist);
    assert!((40..200).contains(&(t as u32)), "got {t}");
}

#[test]
fn integral_window_matches_the_direct_sum() {
    let luma: Vec<u8> = (0..12u8).collect();
    let integral = Integral::build(&luma, 4, 3);
    let (s, sq, count) = integral.window(1, 1, 3, 2);
    let mut es = 0u64;
    let mut esq = 0u64;
    for y in 1..=2usize {
        for x in 1..=3usize {
            let v = luma[y * 4 + x] as u64;
            es += v;
            esq += v * v;
        }
    }
    assert_eq!((s, sq, count), (es, esq, 6));
}

fn img_with_box() -> LinearImage {
    let mut img = plain(8, 8, [1.0, 1.0, 1.0, 1.0]);
    for y in 3..=4 {
        for x in 2..=5 {
            img.set(x, y, colour([0.0, 0.0, 0.0, 1.0]));
        }
    }
    img
}

#[test]
fn content_rect_finds_the_box() {
    let rect = content_rect(&img_with_box(), 16, None, 0).expect("content");
    assert_eq!(rect, Rect { x: 2, y: 3, width: 4, height: 2 });
}

#[test]
fn padding_is_clamped_to_the_image() {
    let rect = content_rect(&img_with_box(), 16, None, 100).expect("content");
    assert_eq!(rect, Rect { x: 0, y: 0, width: 8, height: 8 });
}

#[test]
fn a_uniform_image_has_no_content() {
    let img = plain(4, 4, [0.5, 0.5, 0.5, 1.0]);
    assert!(content_rect(&img, 16, None, 0).is_none());
}

#[test]
fn transparent_pixels_are_background_regardless_of_rgb() {
    let mut img = plain(4, 4, [1.0, 0.0, 0.0, 0.0]);
    img.set(1, 1, colour([0.0, 0.0, 1.0, 1.0]));
    let rect = content_rect(&img, 16, None, 0).expect("content");
    assert_eq!(rect, Rect { x: 1, y: 1, width: 1, height: 1 });
}

fn gain_numbers(temperature: f64, tint: f64) -> [f64; 3] {
    let g = gains(wide(temperature), wide(tint));
    [double(g.r), double(g.g), double(g.b)]
}

#[test]
fn neutral_gains_are_exactly_one() {
    assert_eq!(gain_numbers(0.0, 0.0), [1.0, 1.0, 1.0]);
}

#[test]
fn warm_raises_red_and_lowers_blue() {
    let g = gain_numbers(100.0, 0.0);
    assert!(g[0] > 1.0, "R gain {} should exceed 1", g[0]);
    assert!(g[2] < 1.0, "B gain {} should be below 1", g[2]);
    assert!(g[0] > g[1] && g[1] > g[2]);
}

#[test]
fn magenta_tint_lowers_green() {
    let g = gain_numbers(0.0, 100.0);
    assert!(g[1] < 1.0, "G gain {} should be below 1", g[1]);
    assert!(g[0] > 1.0 && g[2] > 1.0);
}

#[test]
fn gains_are_quantized_to_1e6_grid() {
    for (t, m) in [(37.5, -12.25), (-100.0, 100.0), (1.0, 1.0)] {
        for g in gain_numbers(t, m) {
            let scaled = g * 1e6;
            assert!((scaled - scaled.round()).abs() < 1e-6, "gain {g} is not on the 1e-6 grid");
        }
    }
}

#[test]
fn luma_weighted_mean_of_gains_is_about_one() {
    for (t, m) in [(100.0, 0.0), (-100.0, 0.0), (0.0, 100.0), (60.0, -40.0)] {
        let g = gain_numbers(t, m);
        let mean = 0.2126 * g[0] + 0.7152 * g[1] + 0.0722 * g[2];
        assert!(
            (mean - 1.0).abs() < 1e-5,
            "weighted mean {mean} for ({t}, {m}) should be ~1"
        );
    }
}

fn byte_image(w: u32, h: u32, f: impl Fn(u32, u32) -> [u8; 4]) -> Image<Rgba> {
    let mut data = Vec::new();
    for y in 0..h {
        for x in 0..w {
            let c = f(x, y);
            data.push(Rgba { r: c[0], g: c[1], b: c[2], a: c[3] });
        }
    }
    Image { width: w, height: h, data }
}

/// A plain image stays as it is under every filter whose weights sum to one.
#[test]
fn filters_keep_plain_images() {
    let img = byte_image(6, 5, |_, _| [10, 120, 250, 255]);
    let k = kernel(wide(1.5));
    assert_eq!(gaussian_blur(&img, &k).data, img.data);
    assert_eq!(unsharp_mask(&img, wide(1.0), &k, 0).data, img.data);
    assert_eq!(median(&img, 1).data, img.data);
    let box_kernel = vec![wide(1.0); 9];
    assert_eq!(convolve::apply(&img, &box_kernel, 3, wide(9.0), wide(0.0)).data, img.data);
}

/// A median takes the middle of the neighbourhood of each channel.
#[test]
fn median_removes_a_single_outlier() {
    let img = byte_image(5, 5, |x, y| if x == 2 && y == 2 { [255; 4] } else { [7, 8, 9, 255] });
    let out = median(&img, 1);
    assert_eq!(out.get(2, 2), Rgba { r: 7, g: 8, b: 9, a: 255 });
}

/// A matrix that swaps red and blue, and one that adds a constant.
#[test]
fn colour_matrices_mix_channels() {
    let img = byte_image(1, 1, |_, _| [10, 20, 30, 40]);
    let mut m = vec![wide(0.0); 20];
    m[2] = wide(1.0);
    m[6] = wide(1.0);
    m[10] = wide(1.0);
    m[18] = wide(1.0);
    assert_eq!(color_matrix(&img, &m).get(0, 0), Rgba { r: 30, g: 20, b: 10, a: 40 });
}

/// Curves run the master curve first, then that of the channel.
#[test]
fn curves_compose_master_and_channel() {
    let flip_points = vec![[0u8, 255u8], [255, 0]];
    let inverse = lut_from_points(&flip_points);
    assert_eq!(inverse[0], 255);
    assert_eq!(inverse[255], 0);
    assert_eq!(compose(&inverse, &inverse), identity_lut());
    let img = byte_image(1, 1, |_, _| [10, 20, 30, 40]);
    let out = curves(&img, &Some(flip_points.clone()), &Some(flip_points), &None, &None);
    assert_eq!(out.get(0, 0).r, 10);
    assert_eq!(out.get(0, 0).g, 235);
    assert_eq!(out.get(0, 0).a, 40);
}

/// A curve through a rising middle point goes through it.
#[test]
fn curves_pass_through_their_points() {
    let lut = lut_from_points(&vec![[0, 0], [64, 100], [255, 255]]);
    assert_eq!(lut[64], 100);
    for i in 0..255 {
        assert!(lut[i] <= lut[i + 1], "falls at {i}");
    }
}

/// A curve goes through its points where they fall, too.
#[test]
fn falling_curves_pass_through_their_points() {
    let points = vec![[0, 200], [3, 255], [64, 10], [65, 250], [200, 0], [255, 90]];
    let lut = lut_from_points(&points);
    for p in points {
        assert_eq!(lut[p[0] as usize], p[1], "at {}", p[0]);
    }
}

/// An identity cube gives back each colour, and half strength goes half way.
#[test]
fn an_identity_cube_changes_nothing() {
    let text = "TITLE \"id\"\nLUT_3D_SIZE 2\n0 0 0\n1 0 0\n0 1 0\n1 1 0\n0 0 1\n1 0 1\n0 1 1\n1 1 1\n";
    let cube = match parse_cube(text) {
        Ok(c) => c,
        Err(_) => panic!("not read"),
    };
    assert_eq!(cube.size, 2);
    assert!(cube.is_3d);
    let img = byte_image(2, 1, |x, _| [x as u8 * 200, 77, 140, 9]);
    assert_eq!(apply_cube(&img, &cube, wide(1.0)).data, img.data);
    let inverse = "LUT_1D_SIZE 2\n1 1 1\n0 0 0\n";
    let cube = match parse_cube(inverse) {
        Ok(c) => c,
        Err(_) => panic!("not read"),
    };
    let black = byte_image(1, 1, |_, _| [0, 0, 0, 255]);
    assert_eq!(apply_cube(&black, &cube, wide(1.0)).get(0, 0).r, 255);
    assert_eq!(apply_cube(&black, &cube, wide(0.5)).get(0, 0).r, 128);
}

/// What is wrong with a cube is named with its line.
#[test]
fn cubes_that_cannot_be_read_say_why() {
    assert!(matches!(parse_cube(""), Err(CubeFault::Whole(_))));
    assert!(matches!(parse_cube("LUT_3D_SIZE x\n"), Err(CubeFault::Line { line: 1, .. })));
    assert!(matches!(
        parse_cube("LUT_1D_SIZE 2\n0 0 0\n1e9 0 0\n"),
        Err(CubeFault::FarOut { line: 3, .. })
    ));
    let narrow = "LUT_1D_SIZE 2\nDOMAIN_MIN 1 0 0\nDOMAIN_MAX 0 1 1\n0 0 0\n1 1 1\n";
    assert!(matches!(parse_cube(narrow), Err(CubeFault::Domain { line: 3, channel: 0, .. })));
    let alone = "DOMAIN_MIN 0 2 0\nLUT_1D_SIZE 2\n0 0 0\n1 1 1\n";
    assert!(matches!(parse_cube(alone), Err(CubeFault::Domain { line: 1, channel: 1, .. })));
    assert!(parse_cube("LUT_1D_SIZE 2\n0 0 0\n").is_err());
}

/// The ends of a domain are held against each other, in whatever order they stand.
#[test]
fn a_domain_may_lie_above_one() {
    for ends in ["DOMAIN_MIN 2 2 2\nDOMAIN_MAX 3 3 3", "DOMAIN_MAX -1 -1 -1\nDOMAIN_MIN -2 -2 -2"] {
        let text = format!("LUT_1D_SIZE 2\n{ends}\n0 0 0\n1 1 1\n");
        let cube = match parse_cube(&text) {
            Ok(c) => c,
            Err(_) => panic!("not read: {ends}"),
        };
        assert_eq!(cube.size, 2);
        assert!(!cube.is_3d);
        let low = double(cube.domain_min.r);
        assert_eq!(double(cube.domain_max.b), low + 1.0);
        assert!(low == 2.0 || low == -2.0);
        assert_eq!(cube.domain_min.r, cube.domain_min.g);
    }
}

/// Mirroring twice gives the image back.
#[test]
fn a_mirror_undoes_itself() {
    let img = byte_image(3, 2, |x, y| [x as u8, y as u8, 0, 255]);
    let once = flip(&img, FlipDirection::Horizontal);
    assert_eq!(once.get(0, 1), img.get(2, 1));
    assert_eq!(flip(&once, FlipDirection::Horizontal).data, img.data);
    let down = flip(&img, FlipDirection::Vertical);
    assert_eq!(down.get(1, 0), img.get(1, 1));
    assert_eq!(flip(&down, FlipDirection::Vertical).data, img.data);
}

/// A vignette leaves the middle alone, and grain leaves the opacity.
#[test]
fn finishing_touches_keep_what_they_should() {
    let img = plain(9, 9, [0.5, 0.5, 0.5, 0.25]);
    let dark = vignette(&img, wide(1.0), wide(0.2), wide(0.3));
    assert_eq!(dark.get(4, 4), img.get(4, 4));
    assert_eq!(single(dark.get(0, 0).r), 0.0);
    assert_eq!(single(dark.get(0, 0).a), 0.25);
    let noisy = grain(&img, wide(0.5), 1, true, 11);
    let again = grain(&img, wide(0.5), 1, true, 11);
    assert_eq!(noisy.data, again.data);
    assert_ne!(noisy.data, img.data);
    for p in &noisy.data {
        assert_eq!(single(p.a), 0.25);
    }
}

/// A gradient from black to white at the ends of the range.
#[test]
fn gradients_map_the_ends() {
    let stops = vec![
        GradientStop { position: number(0.0), color: "#ff0000".to_string() },
        GradientStop { position: number(1.0), color: "#0000ff".to_string() },
    ];
    let mut img = plain(2, 1, [0.0, 0.0, 0.0, 1.0]);
    img.set(1, 0, colour([1.0, 1.0, 1.0, 0.5]));
    let out = gradient::apply(&img, &stops);
    assert_eq!(parts(out.get(0, 0)), [1.0, 0.0, 0.0, 1.0]);
    assert_eq!(parts(out.get(1, 0)), [0.0, 0.0, 1.0, 0.5]);
}

/// A threshold paints black or white and keeps the opacity.
#[test]
fn thresholds_paint_two_colours() {
    let mut img = plain(2, 1, [0.2, 0.2, 0.2, 1.0]);
    img.set(1, 0, colour([0.9, 0.9, 0.9, 0.5]));
    let out = threshold::apply(&img, ThresholdMethod::Fixed, Some(128), None, None, false);
    assert_eq!(parts(out.get(0, 0)), [0.0, 0.0, 0.0, 1.0]);
    assert_eq!(parts(out.get(1, 0)), [1.0, 1.0, 1.0, 0.5]);
    let out = threshold::apply(&img, ThresholdMethod::Otsu, None, None, None, true);
    assert_eq!(parts(out.get(0, 0)), [1.0, 1.0, 1.0, 1.0]);
    let out =
        threshold::apply(&img, ThresholdMethod::Sauvola, None, Some(3), Some(wide(0.2)), false);
    assert_eq!(single(out.get(1, 0).a), 0.5);
}

/// Nothing to adjust changes nothing.
#[test]
fn no_adjustment_is_the_identity() {
    let img = plain(3, 2, [0.3, 0.6, 0.9, 0.5]);
    let zero = wide(0.0);
    assert_eq!(adjust(&img, zero, zero, zero, zero).data, img.data);
    let bright = adjust(&img, wide(1.0), zero, zero, zero);
    assert!(single(bright.get(0, 0).r) > 0.3);
    assert_eq!(single(bright.get(0, 0).a), 0.5);
}

/// A gain of one is the identity of a white balance.
#[test]
fn a_gain_of_one_is_the_identity() {
    assert_eq!(gain_lut(wide(1.0)), identity_lut());
    assert_eq!(gain_lut(wide(2.0))[255], 255);
}

/// A stretch of a narrow range reaches both ends.
#[test]
fn auto_levels_stretch_a_narrow_range() {
    let mut img = plain(2, 1, [0.25, 0.25, 0.25, 1.0]);
    img.set(1, 0, colour([0.75, 0.75, 0.75, 1.0]));
    let out = auto_levels::apply(&img, wide(0.0), false);
    assert!(single(out.get(0, 0).r) < 0.01);
    assert!(single(out.get(1, 0).r) > 0.99);
}

/// Without a feather exactly the disc is copied.
#[test]
fn a_hard_clone_copies_its_disc() {
    let mut img = plain(24, 20, [0.0, 0.0, 0.0, 1.0]);
    for y in 0..20 {
        for x in 0..24 {
            img.set(x, y, colour([x as f32 / 32.0, y as f32 / 32.0, 0.25, 1.0]));
        }
    }
    let at = discs(4, 5, 15, 11);
    let out = apply_clone(&img, at, 5, wide(0.0)).unwrap();
    for y in 0..20i64 {
        for x in 0..24i64 {
            let (dx, dy) = (x - 15, y - 11);
            let (sx, sy) = (4 + dx, 5 + dy);
            let inside = dx * dx + dy * dy <= 25 && sx >= 0 && sy >= 0;
            let want = if inside { img.get(sx as u32, sy as u32) } else { img.get(x as u32, y as u32) };
            assert_eq!(out.get(x as u32, y as u32), want, "at {x},{y}");
        }
    }
}

/// Curves through points that do not fall do not fall, however steep they are.
#[test]
fn rising_curves_do_not_fall() {
    let curves: [&[[u8; 2]]; 5] = [
        &[[0, 0], [1, 255], [2, 255]],
        &[[0, 0], [120, 3], [121, 250], [255, 255]],
        &[[10, 20], [11, 20], [12, 200], [250, 201]],
        &[[0, 0], [64, 32], [128, 160], [192, 170], [255, 255]],
        &[[5, 7], [200, 7]],
    ];
    for points in curves {
        let points = points.to_vec();
        let lut = lut_from_points(&points);
        for i in 0..255 {
            assert!(lut[i] <= lut[i + 1], "{points:?} falls at {i}");
        }
        for p in &points {
            assert_eq!(lut[p[0] as usize], p[1]);
        }
        let (first, last) = (points[0], points[points.len() - 1]);
        assert!(lut.iter().all(|&v| first[1] <= v && v <= last[1]), "{points:?} overshoots");
    }
}

/// The parts of the bands make up one for every hue of a fine grid.
#[test]
fn band_weights_make_up_one() {
    for step in 0..3600 {
        let ((_, low), (_, high)) = band_weights(wide(step as f64 / 10.0));
        assert_eq!(double(low) + double(high), 1.0, "at {step}");
    }
}

/// Operations on colours leave the opacity of every pixel.
#[test]
fn colour_operations_keep_the_opacity() {
    let img = byte_image(4, 3, |x, y| [x as u8 * 60, y as u8 * 80, 33, (x * 50 + y) as u8]);
    let points = Some(vec![[0u8, 30u8], [255, 200]]);
    let curved = curves(&img, &points, &None, &None, &None);
    for (a, b) in curved.data.iter().zip(img.data.iter()) {
        assert_eq!(a.a, b.a);
    }
    let unchanged = curves(&img, &None, &None, &None, &None);
    assert_eq!(unchanged.data, img.data);
}

/// Every gain that accepted parameters give is from 0 to 2.
#[test]
fn gains_are_from_nothing_to_twice() {
    for strength in [-1.0, -0.3, -0.0, 0.7, 1.0] {
        for radius in [-0.0, 0.0, 0.25, 1.5] {
            for feather in [0.0, 5e-324, 1e-300, 2.3e-16, 0.5, 1.0] {
                for d in [0.0, 4e-324, 1e-301, 0.25, 0.25 + 1e-16, 0.6, 0.9999999, 1.0, 1.7, 2.5] {
                    let gain =
                        single(vignette_gain(wide(d), wide(strength), wide(radius), wide(feather)));
                    assert!((0.0..=2.0).contains(&gain), "{strength} {radius} {feather} {d}: {gain}");
                }
            }
        }
    }
    assert_eq!(single(vignette_gain(wide(2.5), wide(-1.0), wide(0.5), wide(0.5))), 2.0);
    assert_eq!(single(vignette_gain(wide(2.5), wide(1.0), wide(0.5), wide(0.5))), 0.0);
}

/// An image of one colour keeps it, whatever share is left out.
#[test]
fn plain_images_are_not_stretched() {
    for (c, share) in [([0.0, 0.0, 0.0, 1.0], 0.0), ([0.3, 0.9, 0.1, 0.5], 10.0), ([1.0; 4], 2.5)] {
        let img = plain(5, 3, c);
        assert_eq!(auto_levels::apply(&img, wide(share), true).data, img.data);
        assert_eq!(auto_levels::apply(&img, wide(share), false).data, img.data);
    }
}

/// The identity matrix keeps every colour, and a plain last row the opacity.
#[test]
fn plain_matrices_keep_colours() {
    let img = byte_image(16, 16, |x, y| {
        let v = (y * 16 + x) as u8;
        [v, 255 - v, v / 2, v]
    });
    let mut m: Vec<Real> = (0..20).map(|i| wide(if i % 6 == 0 { 1.0 } else { 0.0 })).collect();
    assert_eq!(color_matrix(&img, &m).data, img.data);
    m[1] = wide(0.75);
    m[12] = wide(-0.5);
    let mixed = color_matrix(&img, &m);
    assert_ne!(mixed.data, img.data);
    for (a, b) in mixed.data.iter().zip(img.data.iter()) {
        assert_eq!(a.a, b.a);
    }
}

/// Two halves of half a thousand million pixels, black and white, are parted at once.
#[test]
fn many_pixels_are_parted() {
    let mut hist = vec![0u64; 256];
    hist[0] = 1 << 28;
    hist[255] = 1 << 28;
    assert_eq!(otsu_threshold(&hist), 0);
    hist[0] = (1 << 28) - 5;
    hist[90] = 5;
    assert_eq!(otsu_threshold(&hist), 90);
}
