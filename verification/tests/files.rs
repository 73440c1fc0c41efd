//! Reading and writing image files.
use atx_core::binary::Real32;
use atx_core::codec::{encode, flatten_to_rgb, mime_type, on_white, quality_for};
use atx_core::error::AtxError;
use atx_core::input::{
    check_byte_limit, check_pixel_limit, decode_checked, read_exif, FormatKind, Pixels,
};
use atx_core::linear::LinearImage;
use atx_core::ops::mask::{mask_weights, resolve_mask, weights_from_bytes, MaskCache};
use atx_core::number::Number;
use atx_core::raster::{Image, Rgba, Rgba32};
use atx_core::{inspect_bytes, AssetResolver, Limits, MaskRef, NoAssets, OutputFormat};

fn short(v: f32) -> Real32 {
    Real32 { bits: v.to_bits() }
}

fn single(v: Real32) -> f32 {
    f32::from_bits(v.bits)
}

fn number(v: f64) -> Number {
    Number { bits: v.to_bits(), text: format!("{v}"), json: format!("{v}") }
}

fn unit(b: u8) -> Real32 {
    short(b as f32 / 255.0)
}

/// An image whose colours go by place.
fn picture(w: u32, h: u32, opacity: u8) -> LinearImage {
    let mut data = Vec::new();
    for y in 0..h {
        for x in 0..w {
            data.push(Rgba32 {
                r: unit((x * 40) as u8),
                g: unit((y * 40) as u8),
                b: unit(200),
                a: unit(opacity),
            });
        }
    }
    Image { width: w, height: h, data }
}

fn written(r: Result<(Vec<u8>, bool), AtxError>) -> (Vec<u8>, bool) {
    match r {
        Ok(v) => v,
        Err(e) => panic!("{}", e.message()),
    }
}

fn limits() -> Limits {
    Limits::default()
}

/// What PNG keeps, it keeps exactly.
#[test]
fn png_gives_back_every_pixel() {
    let img = picture(5, 4, 128);
    let (bytes, embedded) = written(encode(&img, OutputFormat::Png, None, true, None, 8));
    assert!(!embedded);
    match decode_checked(&bytes, &limits()) {
        Ok((format, header, Pixels::Bytes { width, height, data })) => {
            assert_eq!(format.kind, FormatKind::Png);
            assert_eq!(format.mime_type, "image/png");
            assert!(header.has_alpha);
            assert_eq!((width, height), (5, 4));
            assert_eq!(data[4..8], [40, 0, 200, 128]);
            assert_eq!(data.len(), 80);
        }
        _ => panic!("not read as bytes"),
    }
}

/// Sixteen bits come back as sixteen bits.
#[test]
fn deep_png_gives_back_its_depth() {
    let img = picture(2, 1, 255);
    let (bytes, _) = written(encode(&img, OutputFormat::Png, None, false, None, 16));
    match decode_checked(&bytes, &limits()) {
        Ok((_, header, Pixels::Words { data, .. })) => {
            assert!(!header.has_alpha);
            assert_eq!(data[2], 200 * 257);
            assert_eq!(data[4], 40 * 257);
        }
        _ => panic!("not read as words"),
    }
}

/// Each format is written so that it is read as itself.
#[test]
fn formats_are_recognised() {
    let img = picture(8, 8, 200);
    for (format, kind, alpha) in [
        (OutputFormat::Jpeg, FormatKind::Jpeg, false),
        (OutputFormat::Webp, FormatKind::WebP, true),
        (OutputFormat::Webp, FormatKind::WebP, false),
        (OutputFormat::Png, FormatKind::Png, false),
    ] {
        let (bytes, _) = written(encode(&img, format, Some(90), alpha, None, 8));
        match decode_checked(&bytes, &limits()) {
            Ok((seen, header, _)) => {
                assert_eq!(seen.kind, kind);
                assert_eq!(seen.mime_type, mime_type(format));
                assert_eq!((header.width, header.height), (8, 8));
            }
            Err(e) => panic!("{}", e.message()),
        }
    }
    for alpha in [false, true] {
        let (bytes, _) = written(encode(&img, OutputFormat::Avif, None, alpha, None, 8));
        assert_eq!(bytes[4..12], *b"ftypavif");
    }
}

/// JPEG carries a colour profile and lays what is clear on white.
#[test]
fn jpeg_carries_a_profile_and_has_a_white_ground() {
    let img = picture(8, 8, 0);
    let profile = vec![7u8; 300];
    let (bytes, embedded) =
        written(encode(&img, OutputFormat::Jpeg, Some(95), false, Some(profile.clone()), 8));
    assert!(embedded);
    match decode_checked(&bytes, &limits()) {
        Ok((_, header, Pixels::Bytes { data, .. })) => {
            assert_eq!(header.icc, Some(profile));
            assert!(data[0] > 250 && data[1] > 250 && data[2] > 250);
        }
        _ => panic!("not read"),
    }
}

#[test]
fn opacity_is_flattened_on_white() {
    assert_eq!(on_white(10, 255), 10);
    assert_eq!(on_white(10, 0), 255);
    assert_eq!(on_white(0, 128), 127);
    let px = vec![Rgba { r: 1, g: 2, b: 3, a: 255 }, Rgba { r: 9, g: 9, b: 9, a: 0 }];
    assert_eq!(flatten_to_rgb(&px), vec![1, 2, 3, 255, 255, 255]);
}

#[test]
fn qualities_have_defaults() {
    assert_eq!(quality_for(OutputFormat::Jpeg, None), 85);
    assert_eq!(quality_for(OutputFormat::Webp, None), 82);
    assert_eq!(quality_for(OutputFormat::Avif, None), 80);
    assert_eq!(quality_for(OutputFormat::Avif, Some(33)), 33);
    assert_eq!(mime_type(OutputFormat::Avif), "image/avif");
}

/// Limits are kept: on bytes before reading, and on pixels before decoding.
#[test]
fn limits_are_kept() {
    let few = Limits { max_pixels: 10, max_bytes: 100_000 };
    let (bytes, _) = written(encode(&picture(5, 4, 255), OutputFormat::Png, None, false, None, 8));
    assert!(matches!(decode_checked(&bytes, &few), Err(AtxError::LimitExceeded(_))));
    let short_file = Limits { max_pixels: 1000, max_bytes: 4 };
    assert!(matches!(check_byte_limit(&bytes, &short_file), Err(AtxError::LimitExceeded(_))));
    assert!(check_byte_limit(&bytes, &few).is_ok());
    assert!(check_pixel_limit(5, 2, &few).is_ok());
    assert!(check_pixel_limit(5, 3, &few).is_err());
    assert!(matches!(decode_checked(b"no image", &limits()), Err(AtxError::Decode(_))));
}

/// A JPEG with an EXIF block that turns it, and one without.
#[test]
fn exif_is_read_and_summarised() {
    let (bytes, _) = written(encode(&picture(6, 4, 255), OutputFormat::Jpeg, None, false, None, 8));
    let plain = match inspect_bytes(&bytes, &limits()) {
        Ok(i) => i,
        Err(e) => panic!("{}", e.message()),
    };
    assert_eq!(plain.exif_orientation, None);
    assert_eq!((plain.oriented_width, plain.oriented_height), (6, 4));
    assert!(!plain.has_gps && !plain.has_alpha && !plain.has_icc_profile);
    assert_eq!(plain.byte_size, bytes.len() as u64);
    assert!(!read_exif(&bytes).has_any);

    // A block with one entry: orientation 6, a quarter turn.
    let mut block: Vec<u8> = b"Exif\0\0MM\0\x2a\0\0\0\x08\0\x01".to_vec();
    block.extend_from_slice(&[0x01, 0x12, 0, 3, 0, 0, 0, 1, 0, 6, 0, 0, 0, 0, 0, 0]);
    let mut turned: Vec<u8> = bytes[..2].to_vec();
    turned.extend_from_slice(&[0xFF, 0xE1]);
    turned.extend_from_slice(&((block.len() + 2) as u16).to_be_bytes());
    turned.extend_from_slice(&block);
    turned.extend_from_slice(&bytes[2..]);
    let info = match inspect_bytes(&turned, &limits()) {
        Ok(i) => i,
        Err(e) => panic!("{}", e.message()),
    };
    assert_eq!(info.exif_orientation, Some(6));
    assert_eq!((info.width, info.height), (6, 4));
    assert_eq!((info.oriented_width, info.oriented_height), (4, 6));
    assert!(read_exif(&turned).has_any);
    assert!(!info.exif_summary.is_empty());
}

/// A mask weighs by the brightness of its pixels; turned round, by what is left to one.
#[test]
fn masks_weigh_by_brightness() {
    let img = Image {
        width: 2,
        height: 1,
        data: vec![Rgba { r: 0, g: 0, b: 0, a: 255 }, Rgba { r: 255, g: 255, b: 255, a: 255 }],
    };
    let w = mask_weights(&img, 2, 1, false, &None);
    assert_eq!(single(w.data[0]), 0.0);
    assert_eq!(single(w.data[1]), 1.0);
    let w = mask_weights(&img, 2, 1, true, &None);
    assert_eq!(single(w.data[0]), 1.0);
    assert_eq!(single(w.data[1]), 0.0);
}

struct OneAsset(Vec<u8>);

impl AssetResolver for OneAsset {
    fn read_revision(&self, revision_id: &str) -> Result<Vec<u8>, AtxError> {
        if revision_id == "rev_m" {
            Ok(self.0.clone())
        } else {
            Err(AtxError::InvalidRecipe("unknown".to_string()))
        }
    }
}

/// Masks come from assets, and the cache gives the same weights again.
#[test]
fn masks_come_from_assets() {
    let (bytes, _) = written(encode(&picture(4, 2, 255), OutputFormat::Png, None, false, None, 8));
    let mask = MaskRef { revision_id: "rev_m".to_string(), invert: false, feather_px: number(0.0) };
    let assets = OneAsset(bytes.clone());
    let first = match resolve_mask(&mask, 8, 4, &assets, &limits(), &None) {
        Ok(w) => w,
        Err(e) => panic!("{}", e.message()),
    };
    assert_eq!(first.dimensions(), (8, 4));
    let again = match weights_from_bytes(&bytes, &mask, 8, 4, &limits(), &None) {
        Ok(w) => w,
        Err(e) => panic!("{}", e.message()),
    };
    assert_eq!(first.data, again.data);
    let mut cache = MaskCache::new();
    assert!(cache.find(&mask, 8, 4).is_none());
    let cached = match cache.resolve(&mask, 8, 4, &assets, &limits(), &None) {
        Ok(w) => w,
        Err(e) => panic!("{}", e.message()),
    };
    assert_eq!(cached.data, first.data);
    assert!(cache.find(&mask, 8, 4).is_some());
    assert!(cache.find(&mask, 4, 8).is_none());
    let from_cache = match cache.resolve(&mask, 8, 4, &NoAssets, &limits(), &None) {
        Ok(w) => w,
        Err(e) => panic!("{}", e.message()),
    };
    assert_eq!(from_cache.data, first.data);
    assert!(resolve_mask(&mask, 8, 4, &NoAssets, &limits(), &None).is_err());
}

fn crc32(bytes: &[u8]) -> u32 {
    let mut c = u32::MAX;
    for b in bytes {
        c ^= *b as u32;
        for _ in 0..8 {
            c = if c & 1 == 1 { (c >> 1) ^ 0xEDB8_8320 } else { c >> 1 };
        }
    }
    !c
}

/// A PNG file with a comment behind its head.
fn with_comment(png: &[u8], len: usize) -> Vec<u8> {
    let mut chunk = b"tEXtComment\0".to_vec();
    chunk.resize(12 + len, b'x');
    let mut out = png[..33].to_vec();
    out.extend_from_slice(&(chunk.len() as u32 - 4).to_be_bytes());
    out.extend_from_slice(&chunk);
    out.extend_from_slice(&crc32(&chunk).to_be_bytes());
    out.extend_from_slice(&png[33..]);
    out
}

/// A mask is read with as much memory as an input of the same limits.
#[test]
fn masks_keep_to_the_memory_of_inputs() {
    let (png, _) = written(encode(&picture(4, 2, 255), OutputFormat::Png, None, false, None, 8));
    let long = with_comment(&png, 500);
    let mask = MaskRef { revision_id: "rev_m".to_string(), invert: false, feather_px: number(0.0) };
    let tight = Limits { max_pixels: 8, ..limits() };
    assert!(weights_from_bytes(&png, &mask, 4, 2, &tight, &None).is_ok());
    assert!(weights_from_bytes(&long, &mask, 4, 2, &limits(), &None).is_ok());
    let e = weights_from_bytes(&long, &mask, 4, 2, &tight, &None).unwrap_err().message();
    assert!(e.contains("mask asset rev_m is not a decodable image"), "{e}");
}
