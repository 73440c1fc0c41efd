//! Mappings of the plane, rotation, cropping and scaling.
use atx_core::binary::{Real, Real32};
use atx_core::linear::LinearImage;
use atx_core::ops::perspective::{
    homography_from_points, index_space, keystone_homography, padding_ratio, padding_warning, plan,
    warp_matrix, Outline,
};
use atx_core::pixel_ops::{
    anchor_offset, apply_orientation, crop_rect, fit_aspect, fit_aspect_dims, orientation_affine,
    oriented_dimensions, resize_targets, rotate180, rotate270, rotate90,
};
use atx_core::raster::{Image, Rgba32};
use atx_core::recipe::Rect;
use atx_core::resize::{
    build_contributions, lanczos3, resize_lanczos3, window_angles, Contribution, Sines, PI,
};
use atx_core::rotate::{
    largest_inscribed_rect, quarter_turns, radians, rotate, show_percent, warp_angle, Swing,
};
use atx_core::transform::{map_source_rect, quantize_1e6, Affine, Point, Row, Transform};
use atx_core::{Anchor, CropMode, Fit, RotateCrop};

fn wide(v: f64) -> Real {
    Real { bits: v.to_bits() }
}

fn short(v: f32) -> Real32 {
    Real32 { bits: v.to_bits() }
}

fn double(v: Real) -> f64 {
    f64::from_bits(v.bits)
}

fn single(v: Real32) -> f32 {
    f32::from_bits(v.bits)
}

fn colour(c: [f32; 4]) -> Rgba32 {
    Rgba32 { r: short(c[0]), g: short(c[1]), b: short(c[2]), a: short(c[3]) }
}

fn plain(w: u32, h: u32, c: [f32; 4]) -> LinearImage {
    Image::from_pixel(w, h, colour(c))
}

fn sines(src: u32, dst: u32) -> Vec<Vec<Sines>> {
    window_angles(src, dst)
        .iter()
        .map(|row| {
            row.iter()
                .map(|a| Sines {
                    whole: wide(double(*a).sin()),
                    third: wide((double(*a) / 3.0).sin()),
                })
                .collect()
        })
        .collect()
}

fn contributions(src: u32, dst: u32) -> Vec<Contribution> {
    build_contributions(src, dst, &sines(src, dst))
}

fn window(x: f64) -> f64 {
    let angle = f64::from_bits(PI) * x;
    let s = Sines { whole: wide(angle.sin()), third: wide((angle / 3.0).sin()) };
    double(lanczos3(wide(x), s))
}

fn row(r: [f64; 3]) -> Row {
    Row { x: wide(r[0]), y: wide(r[1]), one: wide(r[2]) }
}

fn projective(m: [[f64; 3]; 3]) -> Transform {
    Transform::projective(Transform { across: row(m[0]), down: row(m[1]), depth: row(m[2]) })
}

fn mapped(t: Transform, x: f64, y: f64) -> (f64, f64) {
    let p = t.map(wide(x), wide(y));
    (double(p.x), double(p.y))
}

fn translate(x: f64, y: f64) -> Affine {
    Affine::translate(wide(x), wide(y))
}

fn point(x: f64, y: f64) -> Point {
    Point { x: wide(x), y: wide(y) }
}

#[test]
fn lanczos3_is_one_at_zero_and_zero_at_integers() {
    assert_eq!(window(0.0), 1.0);
    for k in 1..=3 {
        assert!(window(k as f64).abs() < 1e-12, "lanczos3({k}) must vanish");
    }
    assert_eq!(window(4.0), 0.0);
}

#[test]
fn contributions_are_normalized() {
    for (src, dst) in [(256u32, 173u32), (100, 400), (7, 7), (1477, 1200)] {
        for c in contributions(src, dst) {
            let sum: f32 = c.weights.iter().fold(0.0f32, |a, w| a + single(*w));
            assert!((sum - 1.0).abs() < 1e-5, "weights for {src}->{dst} sum to {sum}");
        }
    }
}

#[test]
fn resize_of_uniform_image_is_uniform() {
    let img = plain(64, 64, [0.25, 0.5, 0.75, 1.0]);
    let out = resize_lanczos3(&img, 17, 9, &sines(64, 17), &sines(64, 9)).unwrap();
    for px in &out.data {
        for (a, b) in [px.r, px.g, px.b, px.a].iter().zip([0.25f32, 0.5, 0.75, 1.0]) {
            assert!((single(*a) - b).abs() < 1e-5, "{px:?} drifted from the source color");
        }
    }
}

#[test]
fn quarter_rotations_are_exact_permutations() {
    let mut img = plain(3, 2, [0.0, 0.0, 0.0, 1.0]);
    for y in 0..2 {
        for x in 0..3 {
            img.set(x, y, colour([x as f32, y as f32, 0.0, 1.0]));
        }
    }
    let four = rotate90(&rotate90(&rotate90(&rotate90(&img))));
    assert_eq!(four.dimensions(), img.dimensions());
    assert_eq!(four.data, img.data);
    assert_eq!(rotate180(&rotate180(&img)).data, img.data);
    let back = rotate270(&rotate90(&img));
    assert_eq!(back.dimensions(), img.dimensions());
    assert_eq!(back.data, img.data);
}

#[test]
fn identity_maps_rect_unchanged() {
    let r = Rect { x: 5, y: 7, width: 20, height: 10 };
    let m = map_source_rect(Affine::identity(), r, 100, 100).unwrap();
    assert_eq!(m.rect, r);
    assert!(!m.clamped);
}

#[test]
fn compose_is_apply_self_then_next() {
    let a = translate(10.0, 0.0);
    let b = Affine::scale(wide(2.0), wide(2.0));
    assert_eq!(mapped(a.followed_by(b), 0.0, 0.0), (20.0, 0.0));
    assert_eq!(mapped(b.followed_by(a), 0.0, 0.0), (10.0, 0.0));
}

#[test]
fn quarter_turn_matches_rotate90_semantics() {
    let (w, h) = (40.0, 20.0);
    let angle = std::f64::consts::FRAC_PI_2;
    let xf = Affine::rotate_about(
        wide(angle.sin()),
        wide(angle.cos()),
        point(w / 2.0, h / 2.0),
        point(h / 2.0, w / 2.0),
    );
    let (x, y) = mapped(xf, 0.0, 0.0);
    assert!((x - 20.0).abs() < 1e-9, "{x}");
    assert!(y.abs() < 1e-9, "{y}");
}

#[test]
fn empty_intersection_is_an_error() {
    let rect = Rect { x: 0, y: 0, width: 10, height: 10 };
    let err = match map_source_rect(translate(-500.0, 0.0), rect, 100, 100) {
        Ok(_) => panic!("mapped"),
        Err(e) => e,
    };
    assert!(err.contains("does not intersect"), "{err}");
}

#[test]
fn projective_applies_perspective_divide() {
    let p = projective([[1.0, 0.0, 0.0], [0.0, 1.0, 0.0], [0.01, 0.0, 1.0]]);
    assert!(!p.is_affine());
    assert_eq!(mapped(p, 0.0, 50.0), (0.0, 50.0));
    assert_eq!(mapped(p, 100.0, 100.0), (50.0, 50.0));
    assert!(Transform::identity().is_affine());
}

#[test]
fn inverse_round_trips() {
    let p = projective([[1.2, 0.1, -3.0], [0.0, 0.9, 7.0], [0.002, -0.001, 1.0]]);
    let inv = p.inverse().expect("non-singular");
    for (x, y) in [(0.0, 0.0), (120.0, 30.0), (-40.0, 90.0)] {
        let (fx, fy) = mapped(p, x, y);
        let (bx, by) = mapped(inv, fx, fy);
        assert!((bx - x).abs() < 1e-9 && (by - y).abs() < 1e-9, "{bx} {by}");
    }
}

#[test]
fn affine_then_projective_composes() {
    let p = projective([[1.0, 0.0, 0.0], [0.0, 1.0, 0.0], [0.01, 0.0, 1.0]]);
    let c = translate(10.0, 0.0).followed_by(p);
    assert!(!c.is_affine());
    assert_eq!(mapped(c, 90.0, 0.0), (50.0, 0.0));
}

#[test]
fn rect_across_the_horizon_is_an_error() {
    let p = projective([[1.0, 0.0, 0.0], [0.0, 1.0, 0.0], [-0.02, 0.0, 1.0]]);
    let rect = Rect { x: 0, y: 0, width: 100, height: 10 };
    let err = match map_source_rect(p, rect, 100, 100) {
        Ok(_) => panic!("mapped"),
        Err(e) => e,
    };
    assert!(err.contains("horizon"), "{err}");
}

#[test]
fn quantization_snaps_to_the_grid() {
    assert_eq!(double(quantize_1e6(wide(0.123_456_789))), 0.123_457);
    assert_eq!(double(quantize_1e6(wide(-0.000_000_4))), -0.0);
    assert!(double(quantize_1e6(wide(f64::INFINITY))).is_infinite());
}

#[test]
fn partial_overlap_is_clamped() {
    let rect = Rect { x: 0, y: 0, width: 10, height: 10 };
    let m = map_source_rect(translate(-5.0, 0.0), rect, 100, 100).unwrap();
    assert!(m.clamped);
    assert_eq!(m.rect, Rect { x: 0, y: 0, width: 5, height: 10 });
}

/// Each EXIF orientation moves the corner at the origin to where the mapping says.
#[test]
fn orientations_agree_with_their_mappings() {
    for orientation in 1..=8u16 {
        let mut img = plain(4, 3, [0.0, 0.0, 0.0, 1.0]);
        img.set(0, 0, colour([1.0, 1.0, 1.0, 1.0]));
        let out = apply_orientation(img, orientation);
        assert_eq!(out.dimensions(), oriented_dimensions(4, 3, orientation));
        let (x, y) = mapped(orientation_affine(4, 3, orientation), 0.5, 0.5);
        let seen = out.get((x - 0.5) as u32, (y - 0.5) as u32);
        assert_eq!(single(seen.r), 1.0, "orientation {orientation}");
    }
}

/// Angles of whole quarters take the exact way.
#[test]
fn quarter_turns_are_recognised() {
    assert_eq!(quarter_turns(wide(0.0)), Some(0));
    assert_eq!(quarter_turns(wide(90.0)), Some(1));
    assert_eq!(quarter_turns(wide(-90.0)), Some(3));
    assert_eq!(quarter_turns(wide(540.0)), Some(2));
    assert_eq!(quarter_turns(wide(12.5)), None);
    assert_eq!(single(warp_angle(wide(180.0))), (180.0f32).to_radians());
    assert_eq!(double(radians(wide(30.0))), (30.0f64).to_radians());
}

/// The rectangle in a turned square has the side that the formula gives.
#[test]
fn the_inscribed_rectangle_of_a_turned_square() {
    let a = (45.0f64).to_radians();
    let s = largest_inscribed_rect(wide(100.0), wide(100.0), wide(a.sin()), wide(a.cos()));
    assert!((double(s.width) - 70.710678).abs() < 1e-5);
    assert!((double(s.height) - 70.710678).abs() < 1e-5);
}

/// A share with one decimal, as `format!` writes it.
#[test]
fn shares_have_one_decimal() {
    for v in [0.0, 0.05, 0.25, 1.0, 12.34, 12.35, 33.333, 99.949, 99.95, 100.0] {
        assert_eq!(show_percent(wide(v)), format!("{v:.1}"), "{v}");
    }
}

/// A quarter turn swaps the sides and maps the corner.
#[test]
fn a_quarter_turn_is_a_permutation_with_a_mapping() {
    let mut img = plain(3, 2, [0.0, 0.0, 0.0, 1.0]);
    img.set(0, 0, colour([1.0, 0.0, 0.0, 1.0]));
    let swing = Swing {
        sine: wide(1.0),
        cosine: wide(0.0),
        exact_sine: wide(1.0),
        exact_cosine: wide(0.0),
    };
    let t = rotate(&img, wide(90.0), RotateCrop::Full, &img, swing);
    assert_eq!(t.image.dimensions(), (2, 3));
    assert_eq!(single(t.image.get(1, 0).r), 1.0);
    assert!(t.warning.is_none());
    assert_eq!(mapped(t.transform, 0.0, 0.0), (2.0, 0.0));
}

/// Cutting and padding to an aspect ratio.
#[test]
fn aspect_ratios_cut_and_pad() {
    assert_eq!(fit_aspect_dims(100, 50, (1, 1), CropMode::Crop), (50, 50));
    assert_eq!(fit_aspect_dims(100, 50, (1, 1), CropMode::Pad), (100, 100));
    assert_eq!(anchor_offset(10, 4, Anchor::Center, true), 3);
    assert_eq!(anchor_offset(10, 4, Anchor::Right, true), 6);
    assert_eq!(anchor_offset(10, 4, Anchor::Top, false), 0);
    let img = plain(4, 2, [0.5, 0.5, 0.5, 1.0]);
    let (out, shift) =
        fit_aspect(&img, (1, 1), Anchor::Center, CropMode::Pad, colour([0.0, 0.0, 0.0, 0.0]));
    assert_eq!(out.dimensions(), (4, 4));
    assert_eq!(shift, (0, 1));
    assert_eq!(single(out.get(0, 0).a), 0.0);
    assert_eq!(single(out.get(0, 1).a), 1.0);
}

/// A rectangle out of bounds is refused in words.
#[test]
fn a_rectangle_out_of_bounds_is_refused() {
    let img = plain(4, 2, [0.5, 0.5, 0.5, 1.0]);
    let out = crop_rect(&img, Rect { x: 1, y: 0, width: 2, height: 2 }).unwrap();
    assert_eq!(out.dimensions(), (2, 2));
    let err = match crop_rect(&img, Rect { x: 3, y: 0, width: 2, height: 2 }) {
        Ok(_) => panic!("cut"),
        Err(e) => e,
    };
    assert!(err.contains("is out of bounds for image 4x2"), "{err}");
}

/// The sizes of scaled images: covering, containing, filling, and never larger.
#[test]
fn scaled_sizes_follow_their_fit() {
    let some = |w, h, fit, keep| resize_targets(400, 200, w, h, fit, keep);
    assert_eq!(some(Some(100), None, Fit::Contain, false).0, (100, 50));
    assert_eq!(some(Some(100), Some(100), Fit::Contain, false).0, (100, 50));
    assert_eq!(some(Some(100), Some(100), Fit::Cover, false), ((200, 100), (100, 100)));
    assert_eq!(some(Some(100), Some(100), Fit::Fill, false).0, (100, 100));
    assert_eq!(some(Some(800), None, Fit::Contain, true).0, (400, 200));
}

/// A homography takes its four points to their targets.
#[test]
fn a_homography_meets_its_points() {
    let from = Outline {
        tl: point(10.0, 10.0),
        tr: point(90.0, 20.0),
        br: point(80.0, 90.0),
        bl: point(15.0, 85.0),
    };
    let to = Outline {
        tl: point(0.0, 0.0),
        tr: point(100.0, 0.0),
        br: point(100.0, 100.0),
        bl: point(0.0, 100.0),
    };
    let h = homography_from_points(from, to).expect("regular");
    for (p, q) in [(from.tl, to.tl), (from.tr, to.tr), (from.br, to.br), (from.bl, to.bl)] {
        let (x, y) = mapped(h, double(p.x), double(p.y));
        assert!((x - double(q.x)).abs() < 1e-6 && (y - double(q.y)).abs() < 1e-6, "{x} {y}");
    }
    let flat = Outline { tl: from.tl, tr: from.tl, br: from.tl, bl: from.tl };
    assert!(homography_from_points(flat, to).is_none());
}

/// No angle is no correction: the mapping is the identity and nothing is padding.
#[test]
fn no_keystone_is_the_identity() {
    let p = match plan(40, 30, &None, wide(0.0), wide(0.0), &None) {
        Ok(p) => p,
        Err(e) => panic!("{}", e.message()),
    };
    assert_eq!((p.out_w, p.out_h), (40, 30));
    let (x, y) = mapped(p.step, 12.0, 7.0);
    assert!((x - 12.0).abs() < 1e-9 && (y - 7.0).abs() < 1e-9);
    assert_eq!(double(padding_ratio(p, 40, 30)), 0.0);
    assert!(padding_warning(p, 40, 30).is_none());
    let m = warp_matrix(p.step);
    assert_eq!(single(m[0]), 1.0);
    assert_eq!(single(m[8]), 1.0);
    assert!(index_space(p.step).is_affine());
}

/// One angle of up to 45 degrees keeps the image in front of the horizon; two of them do not.
#[test]
fn one_keystone_angle_stays_in_front() {
    for (w, h) in [(1u32, 1u32), (640, 480), (3, 100_000), (4_000_000_000, 7)] {
        for (v, t) in [(1.0, 0.0), (-1.0, 0.0), (0.0, 1.0), (0.0, -1.0), (0.5, -0.5), (-0.0, 0.2)] {
            let m = keystone_homography(wide(v), wide(t), w, h);
            for x in [0.0, w as f64 / 3.0, w as f64] {
                for y in [0.0, h as f64 / 7.0, h as f64] {
                    assert!(m.is_in_front(wide(x), wide(y)), "{w}x{h} {v} {t} at {x},{y}");
                }
            }
        }
    }
    let both = keystone_homography(wide(1.0), wide(1.0), 64, 64);
    assert!(!both.is_in_front(wide(0.0), wide(0.0)));
    assert!(both.is_in_front(wide(64.0), wide(0.0)));
}

/// Fitting twice to a ratio is fitting once, also where a step turns the sides round.
#[test]
fn fitting_twice_is_fitting_once() {
    let ratios = [(16, 9), (9, 16), (4, 3), (3, 2), (1, 1), (997, 1000), (1, 4000), (4000, 1)];
    let sides = [1u32, 2, 3, 5, 7, 10, 33, 99, 100, 101, 640, 1919, 4001, 65_535, 4_000_000_000];
    for ratio in ratios {
        for w in sides {
            for h in sides {
                for mode in [CropMode::Crop, CropMode::Pad] {
                    let (a, b) = fit_aspect_dims(w, h, ratio, mode);
                    assert_eq!(fit_aspect_dims(a, b, ratio, mode), (a, b), "{w}x{h} {ratio:?}");
                }
            }
        }
    }
    assert_eq!(fit_aspect_dims(101, 33, (16, 9), CropMode::Crop), (59, 33));
}

/// A pad to a ratio that rounding can take for a square may go on growing.
#[test]
fn pads_near_a_square_may_grow_again() {
    let side = 1_601_619_594;
    let ratio = (3_203_239_185, 3_203_239_188);
    let (a, b) = fit_aspect_dims(side, side, ratio, CropMode::Pad);
    assert_eq!((a, b), (1_601_619_598, 1_601_619_599));
    assert_eq!(
        fit_aspect_dims(a, b, ratio, CropMode::Pad),
        (1_601_619_602, 1_601_619_603)
    );
}

/// A resize keeps to its box: nothing grows that must not, what is contained fits, and a cover
/// fills the box.
#[test]
fn resizes_keep_to_their_box() {
    let sides = [1u32, 2, 3, 7, 100, 333, 1_000, 4_000_000_000];
    for iw in sides {
        for ih in sides {
            for w in sides {
                for h in sides {
                    let (s, _) = resize_targets(iw, ih, Some(w), Some(h), Fit::Contain, false);
                    assert!(1 <= s.0 && s.0 <= w && 1 <= s.1 && s.1 <= h, "{iw}x{ih} {w}x{h}");
                    let (_, c) = resize_targets(iw, ih, Some(w), Some(h), Fit::Cover, false);
                    assert_eq!(c, (w, h), "{iw}x{ih}");
                    for fit in [Fit::Contain, Fit::Cover, Fit::Fill] {
                        let (s, c) = resize_targets(iw, ih, Some(w), Some(h), fit, true);
                        assert!(1 <= c.0 && c.0 <= s.0 && s.0 <= iw, "{iw}x{ih} {w}x{h}");
                        assert!(1 <= c.1 && c.1 <= s.1 && s.1 <= ih, "{iw}x{ih} {w}x{h}");
                    }
                }
            }
        }
    }
    assert_eq!(resize_targets(100, 50, Some(30), None, Fit::Contain, false).0, (30, 15));
}
