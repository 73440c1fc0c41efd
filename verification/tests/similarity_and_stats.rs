//! Perceptual hashes, structural similarity and statistics.
use atx_core::binary::Real;
use atx_core::raster::Image;
use atx_core::similarity::{
    cell_bounds, gray_from_rgb8, gray_from_rgba8, quantize_1e4,
};
use atx_core::stats::{
    from_rgb8, from_rgba8, grid_stride, luma_u8, round1, samples_for, TARGET_SAMPLES,
};
use atx_core::{dhash_hex, dhash_rgb8, dhash_rgba8, hamming, ssim_gray};

fn wide(v: f64) -> Real {
    Real { bits: v.to_bits() }
}

fn double(v: Real) -> f64 {
    f64::from_bits(v.bits)
}

fn gray(w: u32, h: u32, f: impl Fn(u32, u32) -> u8) -> Image<u8> {
    let mut data = Vec::new();
    for y in 0..h {
        for x in 0..w {
            data.push(f(x, y));
        }
    }
    Image { width: w, height: h, data }
}

#[test]
fn hex_is_16_lowercase_digits() {
    assert_eq!(dhash_hex(0), "0000000000000000");
    assert_eq!(dhash_hex(u64::MAX), "ffffffffffffffff");
    assert_eq!(dhash_hex(0xABCD), "000000000000abcd");
}

#[test]
fn hamming_counts_differing_bits() {
    assert_eq!(hamming(0, 0), 0);
    assert_eq!(hamming(0, u64::MAX), 64);
    assert_eq!(hamming(0b1011, 0b1101), 2);
}

#[test]
fn uniform_image_hashes_to_zero() {
    let rgba = [77u8, 77, 77, 255].repeat(32 * 32);
    assert_eq!(dhash_rgba8(&rgba, 32, 32), 0);
}

#[test]
fn horizontal_ramp_sets_every_bit() {
    let mut rgba = Vec::new();
    for _ in 0..64 {
        for x in 0..64u32 {
            let v = (x * 4) as u8;
            rgba.extend_from_slice(&[v, v, v, 255]);
        }
    }
    assert_eq!(dhash_rgba8(&rgba, 64, 64), u64::MAX);
}

#[test]
fn rgb_and_rgba_agree() {
    let mut rgb = Vec::new();
    let mut rgba = Vec::new();
    for y in 0..40u32 {
        for x in 0..40u32 {
            let (r, g, b) = ((x * 6) as u8, (y * 6) as u8, ((x + y) * 3) as u8);
            rgb.extend_from_slice(&[r, g, b]);
            rgba.extend_from_slice(&[r, g, b, 200]);
        }
    }
    assert_eq!(dhash_rgb8(&rgb, 40, 40), dhash_rgba8(&rgba, 40, 40));
}

#[test]
fn malformed_buffer_hashes_to_zero() {
    assert_eq!(dhash_rgba8(&[0, 0, 0, 255], 2, 2), 0);
    assert_eq!(dhash_rgba8(&[], 0, 0), 0);
}

#[test]
fn tiny_image_does_not_panic() {
    let rgba = [10u8, 20, 30, 255].repeat(3 * 2);
    let _ = dhash_rgba8(&rgba, 3, 2);
}

#[test]
fn cell_bounds_partition_without_gaps() {
    for extent in [1u32, 2, 8, 9, 13, 64, 1477] {
        let mut prev_end = 0u32;
        for i in 0..9 {
            let (s, e) = cell_bounds(extent, i, 9);
            assert!(s < e, "extent={extent} i={i}");
            assert!(e <= extent);
            if extent >= 9 {
                assert_eq!(s, prev_end, "extent={extent} i={i}");
            }
            prev_end = e;
        }
        if extent >= 9 {
            assert_eq!(prev_end, extent);
        }
    }
}

#[test]
fn ssim_of_identical_is_exactly_one() {
    let img = gray(32, 24, |x, y| ((x * 7 + y * 3) % 256) as u8);
    assert_eq!(ssim_gray(&img, &img), Some(wide(1.0)));
}

#[test]
fn ssim_rejects_mismatched_dimensions() {
    let a = gray(16, 16, |_, _| 100);
    let b = gray(16, 17, |_, _| 100);
    assert_eq!(ssim_gray(&a, &b), None);
}

#[test]
fn ssim_is_symmetric() {
    let a = gray(24, 24, |x, y| ((x * 11 + y) % 256) as u8);
    let b = gray(24, 24, |x, y| ((y * 5 + x * 2) % 256) as u8);
    assert_eq!(ssim_gray(&a, &b), ssim_gray(&b, &a));
}

#[test]
fn ssim_handles_images_smaller_than_the_window() {
    let a = gray(4, 3, |x, _| (x * 60) as u8);
    assert_eq!(ssim_gray(&a, &a), Some(wide(1.0)));
}

#[test]
fn quantize_is_half_away_from_zero() {
    assert_eq!(double(quantize_1e4(wide(0.123_45))), 0.1235);
    assert_eq!(double(quantize_1e4(wide(-0.123_45))), -0.1235);
    assert_eq!(double(quantize_1e4(wide(1.0))), 1.0);
}

#[test]
fn stride_is_one_for_small_images() {
    assert_eq!(grid_stride(512, 512), 1);
    assert_eq!(grid_stride(1, 1), 1);
}

#[test]
fn stride_keeps_samples_under_target() {
    for (w, h) in [(513, 512), (1477, 1108), (4000, 3000), (10000, 10000)] {
        let k = grid_stride(w, h);
        assert!(k >= 1);
        let n = samples_for(w, h, k);
        assert!(n <= TARGET_SAMPLES, "{w}x{h}: k={k} n={n}");
        if k > 1 {
            assert!(
                samples_for(w, h, k - 1) > TARGET_SAMPLES,
                "{w}x{h}: k={k} is not minimal"
            );
        }
    }
}

#[test]
fn round1_is_half_away_from_zero() {
    assert_eq!(double(round1(wide(0.25))), 0.3);
    assert_eq!(double(round1(wide(1.05))), 1.1);
    assert_eq!(double(round1(wide(128.0))), 128.0);
}

#[test]
fn flat_gray_is_exact() {
    let rgba = [128u8, 128, 128, 255].repeat(64 * 64);
    let s = from_rgba8(&rgba, 64, 64).unwrap();
    assert_eq!(double(s.luma_p0_2), 128.0);
    assert_eq!(double(s.luma_p50), 128.0);
    assert_eq!(double(s.luma_p99_8), 128.0);
    assert_eq!(double(s.mean_r), 128.0);
}

#[test]
fn flat_gray_has_zero_sharpness() {
    let rgba = [128u8, 128, 128, 255].repeat(64 * 64);
    assert_eq!(double(from_rgba8(&rgba, 64, 64).unwrap().sharpness), 0.0);
}

#[test]
fn stripes_have_large_sharpness() {
    let mut rgba = Vec::new();
    for _ in 0..64 {
        for x in 0..64 {
            let v = if x % 2 == 0 { 0u8 } else { 255 };
            rgba.extend_from_slice(&[v, v, v, 255]);
        }
    }
    let s = from_rgba8(&rgba, 64, 64).unwrap();
    assert!(double(s.sharpness) > 10_000.0, "{}", double(s.sharpness));
}

#[test]
fn luma_u8_matches_bt709_endpoints() {
    assert_eq!(luma_u8(0, 0, 0), 0);
    assert_eq!(luma_u8(255, 255, 255), 255);
    assert_eq!(luma_u8(255, 0, 0), 54);
    assert_eq!(luma_u8(0, 255, 0), 182);
    assert_eq!(luma_u8(0, 0, 255), 18);
}

#[test]
fn sharpness_is_zero_for_tiny_images() {
    let rgba = [10u8, 20, 30, 255].repeat(4);
    assert_eq!(double(from_rgba8(&rgba, 2, 2).unwrap().sharpness), 0.0);
}

#[test]
fn rejects_mismatched_buffer() {
    assert!(from_rgba8(&[0, 0, 0, 255], 2, 2).is_none());
}

/// The means of the channels, with one decimal.
#[test]
fn means_are_rounded_to_tenths() {
    let rgb = [10u8, 20, 30, 11, 20, 31, 11, 20, 30];
    let s = from_rgb8(&rgb, 3, 1).unwrap();
    assert_eq!(double(s.mean_r), 10.7);
    assert_eq!(double(s.mean_g), 20.0);
    assert_eq!(double(s.mean_b), 30.3);
}

/// Distance is symmetric and zero only between equal hashes.
#[test]
fn hamming_is_a_distance() {
    assert_eq!(hamming(5, 9), hamming(9, 5));
    assert_eq!(hamming(0xFFFF_0000, 0xFFFF_0000), 0);
    assert!(hamming(1, 4) <= hamming(1, 2) + hamming(2, 4));
}

/// A gray image has one brightness for each pixel, of either layout.
#[test]
fn gray_images_agree_over_layouts() {
    let a = gray_from_rgba8(&[255, 0, 0, 9, 0, 0, 255, 9], 2, 1).unwrap();
    let b = gray_from_rgb8(&[255, 0, 0, 0, 0, 255], 2, 1).unwrap();
    assert_eq!(a.data, b.data);
    assert_eq!(a.data.len(), 2);
    assert!(gray_from_rgb8(&[1, 2], 1, 1).is_none());
}

/// The same colours give the same measures with and without opacity, and the percentiles are
/// whole numbers in order.
#[test]
fn the_same_colours_give_the_same_measures() {
    let (w, h) = (23u32, 17u32);
    let mut rgb = Vec::new();
    let mut rgba = Vec::new();
    for i in 0..w * h {
        let c = [(i * 7 % 256) as u8, (i * 31 % 256) as u8, (i % 256) as u8];
        rgb.extend_from_slice(&c);
        rgba.extend_from_slice(&c);
        rgba.push((i * 3 % 256) as u8);
    }
    let a = from_rgb8(&rgb, w, h).unwrap();
    let b = from_rgba8(&rgba, w, h).unwrap();
    assert_eq!(a.luma_p0_2, b.luma_p0_2);
    assert_eq!(a.luma_p1, b.luma_p1);
    assert_eq!(a.luma_p50, b.luma_p50);
    assert_eq!(a.luma_p99, b.luma_p99);
    assert_eq!(a.luma_p99_8, b.luma_p99_8);
    assert_eq!((a.mean_r, a.mean_g, a.mean_b), (b.mean_r, b.mean_g, b.mean_b));
    assert_eq!(a.sharpness, b.sharpness);
    assert_eq!(dhash_rgb8(&rgb, w, h), dhash_rgba8(&rgba, w, h));
    let list = [a.luma_p0_2, a.luma_p1, a.luma_p50, a.luma_p99, a.luma_p99_8];
    let mut last = 0.0;
    for p in list {
        let p = double(p);
        assert!(last <= p && p <= 255.0, "{list:?}");
        assert_eq!(p, p.floor());
        last = p;
    }
    assert!(double(a.luma_p1) < double(a.luma_p99));
}
