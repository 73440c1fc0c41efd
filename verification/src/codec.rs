//! Writing images: JPEG, PNG, WebP and AVIF with fixed settings.
use image::codecs::png::PngEncoder;
use image::{ExtendedColorType, ImageEncoder};
use ravif::{Img, RGB8, RGBA8};
use vstd::prelude::*;
use webp::WebPEncodingError;

use crate::error::{AtxError, Fault};
use crate::linear::{
    byte_pixel, encoded_to_rgba16, encoded_to_rgba8, word_pixel, LinearImage, Rgba16,
};
use crate::pixel_ops::{show_size, size_text};
use crate::raster::{channel, Image, Rgba};
use crate::recipe::OutputFormat;
use crate::text::{cat2, cat3};

verus! {

/// The quality of a JPEG file where none is given.
pub const DEFAULT_JPEG_QUALITY: u8 = 85;

/// The quality of a WebP file where none is given.
pub const DEFAULT_WEBP_QUALITY: u8 = 82;

/// The quality of an AVIF file where none is given.
pub const DEFAULT_AVIF_QUALITY: u8 = 80;

/// The speed of the AVIF encoder.
pub const AVIF_SPEED: u8 = 6;

/// The longest side of a WebP file.
pub const WEBP_MAX_SIDE: u32 = 16_383;

/// The MIME type of a format.
pub open spec fn mime_text(format: OutputFormat) -> Seq<char> {
    match format {
        OutputFormat::Jpeg => "image/jpeg"@,
        OutputFormat::Png => "image/png"@,
        OutputFormat::Webp => "image/webp"@,
        OutputFormat::Avif => "image/avif"@,
    }
}

/// The MIME type of a format.
pub fn mime_type(format: OutputFormat) -> (r: &'static str)
    ensures
        r@ == mime_text(format),
{
    match format {
        OutputFormat::Jpeg => "image/jpeg",
        OutputFormat::Png => "image/png",
        OutputFormat::Webp => "image/webp",
        OutputFormat::Avif => "image/avif",
    }
}

/// The quality that a format has where none is given.
#[verifier::allow_in_spec]
pub fn quality_for(format: OutputFormat, quality: Option<u8>) -> u8
    returns
        (match (quality, format) {
            (Some(q), _) => q,
            (None, OutputFormat::Jpeg) => DEFAULT_JPEG_QUALITY,
            (None, OutputFormat::Webp) => DEFAULT_WEBP_QUALITY,
            (None, _) => DEFAULT_AVIF_QUALITY,
        }),
{
    match (quality, format) {
        (Some(q), _) => q,
        (None, OutputFormat::Jpeg) => DEFAULT_JPEG_QUALITY,
        (None, OutputFormat::Webp) => DEFAULT_WEBP_QUALITY,
        (None, _) => DEFAULT_AVIF_QUALITY,
    }
}

// What the encoders are given.

/// A channel on white: mixed by its opacity, rounded to the nearest. With full opacity it
/// stays as it is.
#[verifier::allow_in_spec]
pub fn on_white(c: u8, a: u8) -> u8
    returns
        ((c * a + 255 * (255 - a) + 127) / 255) as u8,
{
    proof {
        assert(c * a + 255 * (255 - a) + 127 <= 255 * 255 + 127) by (nonlinear_arith)
            requires
                0 <= c <= 255,
                0 <= a <= 255,
        ;
    }
    assert(0 <= c * a <= 255 * 255) by (nonlinear_arith)
        requires
            0 <= c <= 255,
            0 <= a <= 255,
    ;
    ((c as u32 * a as u32 + 255 * (255 - a as u32) + 127) / 255) as u8
}

/// A 16-bit channel on white.
#[verifier::allow_in_spec]
pub fn deep_on_white(c: u16, a: u16) -> u16
    returns
        ((c * a + 65535 * (65535 - a) + 32767) / 65535) as u16,
{
    proof {
        assert(c * a + 65535 * (65535 - a) + 32767 <= 65535 * 65535 + 32767) by (nonlinear_arith)
            requires
                0 <= c <= 65535,
                0 <= a <= 65535,
        ;
    }
    assert(0 <= c * a <= 65535 * 65535) by (nonlinear_arith)
        requires
            0 <= c <= 65535,
            0 <= a <= 65535,
    ;
    ((c as u64 * a as u64 + 65535 * (65535 - a as u64) + 32767) / 65535) as u16
}

/// A colour of full opacity comes through a white background as it is.
pub proof fn opaque_colours_stay(c: u8)
    ensures
        on_white(c, 255) == c,
{
}

/// What has no opacity becomes white.
pub proof fn nothing_becomes_white(c: u8)
    ensures
        on_white(c, 0) == 255,
{
    assert(c * 0 == 0) by (nonlinear_arith);
}

/// The pixels of an image in bytes.
pub open spec fn byte_pixels(img: LinearImage) -> Seq<Rgba> {
    Seq::new(img.data@.len(), |i: int| byte_pixel(img.data@[i]))
}

/// The pixels of an image in 16 bits.
pub open spec fn word_pixels(img: LinearImage) -> Seq<Rgba16> {
    Seq::new(img.data@.len(), |i: int| word_pixel(img.data@[i]))
}

/// Pixels on white, three bytes each.
pub open spec fn flat_bytes(data: Seq<Rgba>) -> Seq<u8> {
    Seq::new(
        3 * data.len(),
        |k: int|
            {
                let p = data[k / 3];
                on_white(
                    if k % 3 == 0 {
                        p.r
                    } else if k % 3 == 1 {
                        p.g
                    } else {
                        p.b
                    },
                    p.a,
                )
            },
    )
}

/// Pixels with their opacity, four bytes each.
pub open spec fn full_bytes(data: Seq<Rgba>) -> Seq<u8> {
    Seq::new(4 * data.len(), |k: int| channel(data[k / 4], (k % 4) as u8))
}

/// 16-bit pixels on white, three numbers each.
pub open spec fn flat_words(data: Seq<Rgba16>) -> Seq<u16> {
    Seq::new(
        3 * data.len(),
        |k: int|
            {
                let p = data[k / 3];
                deep_on_white(
                    if k % 3 == 0 {
                        p.r
                    } else if k % 3 == 1 {
                        p.g
                    } else {
                        p.b
                    },
                    p.a,
                )
            },
    )
}

/// 16-bit pixels with their opacity, four numbers each.
pub open spec fn full_words(data: Seq<Rgba16>) -> Seq<u16> {
    Seq::new(
        4 * data.len(),
        |k: int|
            {
                let p = data[k / 4];
                if k % 4 == 0 {
                    p.r
                } else if k % 4 == 1 {
                    p.g
                } else if k % 4 == 2 {
                    p.b
                } else {
                    p.a
                }
            },
    )
}

/// Lays pixels on white.
pub fn flatten_to_rgb(data: &Vec<Rgba>) -> (r: Vec<u8>)
    ensures
        r@ == flat_bytes(data@),
{
    let mut r: Vec<u8> = Vec::new();
    let mut i: usize = 0;
    while i < data.len()
        invariant
            i <= data@.len(),
            r@ == flat_bytes(data@).take(3 * i),
        decreases data.len() - i,
    {
        let p: Rgba = data[i];
        r.push(on_white(p.r, p.a));
        r.push(on_white(p.g, p.a));
        r.push(on_white(p.b, p.a));
        i = i + 1;
        assert(r@ =~= flat_bytes(data@).take(3 * i));
    }
    assert(r@ =~= flat_bytes(data@));
    r
}

fn spread_bytes(data: &Vec<Rgba>) -> (r: Vec<u8>)
    ensures
        r@ == full_bytes(data@),
{
    let mut r: Vec<u8> = Vec::new();
    let mut i: usize = 0;
    while i < data.len()
        invariant
            i <= data@.len(),
            r@ == full_bytes(data@).take(4 * i),
        decreases data.len() - i,
    {
        let p: Rgba = data[i];
        r.push(p.r);
        r.push(p.g);
        r.push(p.b);
        r.push(p.a);
        i = i + 1;
        assert(r@ =~= full_bytes(data@).take(4 * i));
    }
    assert(r@ =~= full_bytes(data@));
    r
}

fn flatten_words(data: &Vec<Rgba16>) -> (r: Vec<u16>)
    ensures
        r@ == flat_words(data@),
{
    let mut r: Vec<u16> = Vec::new();
    let mut i: usize = 0;
    while i < data.len()
        invariant
            i <= data@.len(),
            r@ == flat_words(data@).take(3 * i),
        decreases data.len() - i,
    {
        let p: Rgba16 = data[i];
        r.push(deep_on_white(p.r, p.a));
        r.push(deep_on_white(p.g, p.a));
        r.push(deep_on_white(p.b, p.a));
        i = i + 1;
        assert(r@ =~= flat_words(data@).take(3 * i));
    }
    assert(r@ =~= flat_words(data@));
    r
}

fn spread_words(data: &Vec<Rgba16>) -> (r: Vec<u16>)
    ensures
        r@ == full_words(data@),
{
    let mut r: Vec<u16> = Vec::new();
    let mut i: usize = 0;
    while i < data.len()
        invariant
            i <= data@.len(),
            r@ == full_words(data@).take(4 * i),
        decreases data.len() - i,
    {
        let p: Rgba16 = data[i];
        r.push(p.r);
        r.push(p.g);
        r.push(p.b);
        r.push(p.a);
        i = i + 1;
        assert(r@ =~= full_words(data@).take(4 * i));
    }
    assert(r@ =~= full_words(data@));
    r
}

// The encoders.

/// A JPEG file, and whether the colour profile is in it; or why there is none.
pub uninterp spec fn jpeg_encoded(
    rgb: Seq<u8>,
    width: u16,
    height: u16,
    quality: u8,
    icc: Option<Seq<u8>>,
) -> Result<(Seq<u8>, bool), Seq<char>>;

/// A PNG file with 8 bits for each channel, or why there is none.
pub uninterp spec fn png_encoded(data: Seq<u8>, width: u32, height: u32, alpha: bool) -> Result<
    Seq<u8>,
    Seq<char>,
>;

/// A PNG file with 16 bits for each channel, or why there is none.
pub uninterp spec fn deep_png_encoded(data: Seq<u16>, width: u32, height: u32, alpha: bool) -> Result<
    Seq<u8>,
    Seq<char>,
>;

/// A lossy WebP file of pixels without opacity, or why there is none.
pub uninterp spec fn webp_encoded(data: Seq<u8>, width: u32, height: u32, quality: u8) -> Result<
    Seq<u8>,
    Seq<char>,
>;

/// A lossy WebP file of pixels with opacity, or why there is none.
pub uninterp spec fn clear_webp_encoded(
    data: Seq<u8>,
    width: u32,
    height: u32,
    quality: u8,
) -> Result<Seq<u8>, Seq<char>>;

/// An AVIF file of pixels without opacity, or why there is none.
pub uninterp spec fn avif_encoded(
    data: Seq<u8>,
    width: u32,
    height: u32,
    quality: u8,
    speed: u8,
) -> Result<Seq<u8>, Seq<char>>;

/// An AVIF file of pixels with opacity, or why there is none.
pub uninterp spec fn clear_avif_encoded(
    data: Seq<u8>,
    width: u32,
    height: u32,
    quality: u8,
    speed: u8,
) -> Result<Seq<u8>, Seq<char>>;

/// A file, or why there is none, as sequences.
pub open spec fn file_view(r: Result<Vec<u8>, String>) -> Result<Seq<u8>, Seq<char>> {
    match r {
        Ok(b) => Ok(b@),
        Err(m) => Err(m@),
    }
}

/// A JPEG file, or why there is none, as sequences.
pub open spec fn jpeg_view(r: Result<(Vec<u8>, bool), String>) -> Result<
    (Seq<u8>, bool),
    Seq<char>,
> {
    match r {
        Ok((b, embedded)) => Ok((b@, embedded)),
        Err(m) => Err(m@),
    }
}

/// A colour profile as a sequence.
pub open spec fn profile_view(icc: Option<Vec<u8>>) -> Option<Seq<u8>> {
    match icc {
        Some(p) => Some(p@),
        None => None,
    }
}

/// `jpeg_encoder::Encoder`: a baseline file with standard Huffman tables, and the colour
/// profile, where one is given, by `add_icc_profile`. The file, and whether the profile went
/// in, depend on the arguments alone; they are named `jpeg_encoded` here, with an error in
/// the words of its `Display`.
#[verifier::external_body]
fn write_jpeg(rgb: &Vec<u8>, width: u16, height: u16, quality: u8, icc: &Option<Vec<u8>>) -> (r:
    Result<(Vec<u8>, bool), String>)
    ensures
        jpeg_view(r) == jpeg_encoded(rgb@, width, height, quality, profile_view(*icc)),
{
    let mut out = Vec::new();
    let mut encoder = jpeg_encoder::Encoder::new(&mut out, quality);
    encoder.set_progressive(false);
    encoder.set_optimized_huffman_tables(false);
    let embedded = icc.as_ref().is_some_and(|p| encoder.add_icc_profile(p).is_ok());
    encoder.encode(rgb, width, height, jpeg_encoder::ColorType::Rgb).map_err(|e| e.to_string())?;
    Ok((out, embedded))
}

/// `write_image` of the image crate's `PngEncoder`, with 8 bits for each channel: three
/// channels, or four with `alpha`. It panics where the data do not have the length of the
/// image. The file depends on the arguments alone; it is named `png_encoded` here, with an
/// error in the words of its `Display`.
#[verifier::external_body]
fn write_png(data: &Vec<u8>, width: u32, height: u32, alpha: bool) -> (r: Result<Vec<u8>, String>)
    requires
        alpha ==> data@.len() == 4 * (width * height),
        !alpha ==> data@.len() == 3 * (width * height),
    ensures
        file_view(r) == png_encoded(data@, width, height, alpha),
{
    let mut out = Vec::new();
    let kind = if alpha { ExtendedColorType::Rgba8 } else { ExtendedColorType::Rgb8 };
    PngEncoder::new(&mut out).write_image(data, width, height, kind).map_err(|e| e.to_string())?;
    Ok(out)
}

/// `write_image` of the image crate's `PngEncoder`, with 16 bits for each channel: three
/// channels, or four with `alpha`. It takes the numbers as bytes in the order of the machine
/// and panics where they do not have the length of the image. The file depends on the
/// arguments alone; it is named `deep_png_encoded` here, with an error in the words of its
/// `Display`.
#[verifier::external_body]
fn write_deep_png(data: &Vec<u16>, width: u32, height: u32, alpha: bool) -> (r: Result<
    Vec<u8>,
    String,
>)
    requires
        alpha ==> data@.len() == 4 * (width * height),
        !alpha ==> data@.len() == 3 * (width * height),
    ensures
        file_view(r) == deep_png_encoded(data@, width, height, alpha),
{
    let mut out = Vec::new();
    let kind = if alpha { ExtendedColorType::Rgba16 } else { ExtendedColorType::Rgb16 };
    let raw: Vec<u8> = data.iter().flat_map(|v| v.to_ne_bytes()).collect();
    PngEncoder::new(&mut out).write_image(&raw, width, height, kind).map_err(|e| e.to_string())?;
    Ok(out)
}

/// `webp::Encoder::from_rgb`, which panics where the data are too short, and its
/// `encode_simple`, lossy. The outcome depends on the arguments alone; it is named
/// `webp_encoded` here, with an error by its `Debug`: a partition or the file is too
/// long. All other errors of sides and a quality in range tell that the encoder ran out of
/// memory; the program ends there, as with any other allocation that fails.
#[verifier::external_body]
fn write_webp(data: &Vec<u8>, width: u32, height: u32, quality: u8) -> (r: Result<Vec<u8>, String>)
    requires
        data@.len() == 3 * (width * height),
        0 < width <= WEBP_MAX_SIDE,
        0 < height <= WEBP_MAX_SIDE,
        quality <= 100,
    ensures
        file_view(r) == webp_encoded(data@, width, height, quality),
{
    match webp::Encoder::from_rgb(data, width, height).encode_simple(false, quality.into()) {
        Ok(file) => Ok(file.to_vec()),
        Err(
            e @ (WebPEncodingError::VP8_ENC_ERROR_PARTITION0_OVERFLOW
            | WebPEncodingError::VP8_ENC_ERROR_PARTITION_OVERFLOW
            | WebPEncodingError::VP8_ENC_ERROR_FILE_TOO_BIG),
        ) => Err(format!("{e:?}")),
        Err(_) => std::alloc::handle_alloc_error(std::alloc::Layout::new::<u8>()),
    }
}

/// `webp::Encoder::from_rgba`, which panics where the data are too short, and its
/// `encode_simple`, lossy. The outcome depends on the arguments alone; it is named
/// `clear_webp_encoded` here, with an error by its `Debug`: a partition or the file is too
/// long. All other errors of sides and a quality in range tell that the encoder ran out of
/// memory; the program ends there, as with any other allocation that fails.
#[verifier::external_body]
fn write_clear_webp(data: &Vec<u8>, width: u32, height: u32, quality: u8) -> (r: Result<
    Vec<u8>,
    String,
>)
    requires
        data@.len() == 4 * (width * height),
        0 < width <= WEBP_MAX_SIDE,
        0 < height <= WEBP_MAX_SIDE,
        quality <= 100,
    ensures
        file_view(r) == clear_webp_encoded(data@, width, height, quality),
{
    match webp::Encoder::from_rgba(data, width, height).encode_simple(false, quality.into()) {
        Ok(file) => Ok(file.to_vec()),
        Err(
            e @ (WebPEncodingError::VP8_ENC_ERROR_PARTITION0_OVERFLOW
            | WebPEncodingError::VP8_ENC_ERROR_PARTITION_OVERFLOW
            | WebPEncodingError::VP8_ENC_ERROR_FILE_TOO_BIG),
        ) => Err(format!("{e:?}")),
        Err(_) => std::alloc::handle_alloc_error(std::alloc::Layout::new::<u8>()),
    }
}

/// `ravif::Encoder::encode_rgb` on one thread. It panics where the quality is not in 1 to
/// 100, the speed not in 1 to 10, or the data are too short. The file depends on the
/// arguments alone; it is named `avif_encoded` here, with an error in the words of its
/// `Display`.
#[verifier::external_body]
fn write_avif(data: &Vec<u8>, width: u32, height: u32, quality: u8, speed: u8) -> (r: Result<
    Vec<u8>,
    String,
>)
    requires
        data@.len() == 3 * (width * height),
        0 < width,
        0 < height,
        1 <= quality <= 100,
        1 <= speed <= 10,
    ensures
        file_view(r) == avif_encoded(data@, width, height, quality, speed),
{
    let encoder = ravif::Encoder::new().with_quality(quality.into()).with_alpha_quality(
        quality.into()).with_speed(speed).with_num_threads(Some(1));
    let pixels: Vec<RGB8> = data.chunks_exact(3).map(|p| RGB8::new(p[0], p[1], p[2])).collect();
    let image = Img::new(pixels.as_slice(), width as usize, height as usize);
    encoder.encode_rgb(image).map(|e| e.avif_file).map_err(|e| e.to_string())
}

/// `ravif::Encoder::encode_rgba` on one thread. It panics where the quality is not in 1 to
/// 100, the speed not in 1 to 10, or the data are too short. The file depends on the
/// arguments alone; it is named `clear_avif_encoded` here, with an error in the words of its
/// `Display`.
#[verifier::external_body]
fn write_clear_avif(data: &Vec<u8>, width: u32, height: u32, quality: u8, speed: u8) -> (r: Result<
    Vec<u8>,
    String,
>)
    requires
        data@.len() == 4 * (width * height),
        0 < width,
        0 < height,
        1 <= quality <= 100,
        1 <= speed <= 10,
    ensures
        file_view(r) == clear_avif_encoded(data@, width, height, quality, speed),
{
    let encoder = ravif::Encoder::new().with_quality(quality.into()).with_alpha_quality(
        quality.into()).with_speed(speed).with_num_threads(Some(1));
    let pixels: Vec<RGBA8> = data.chunks_exact(4).map(|p| RGBA8::new(p[0], p[1], p[2], p[3])).collect();
    let image = Img::new(pixels.as_slice(), width as usize, height as usize);
    encoder.encode_rgba(image).map(|e| e.avif_file).map_err(|e| e.to_string())
}

/// The colour profile that goes into a JPEG file: none where it is empty.
pub open spec fn usable_profile(icc: Option<Vec<u8>>) -> Option<Seq<u8>> {
    match icc {
        Some(p) => if p@.len() == 0 {
            None
        } else {
            Some(p@)
        },
        None => None,
    }
}

/// A file under the name of its format, or what stopped it.
pub open spec fn named(name: Seq<char>, file: Result<Seq<u8>, Seq<char>>) -> Result<
    (Seq<u8>, bool),
    Fault,
> {
    match file {
        Ok(b) => Ok((b, false)),
        Err(m) => Err(Fault::Encode(name + m)),
    }
}

/// What is said of an image that is too large for JPEG.
pub open spec fn jpeg_size_text(w: u32, h: u32) -> Seq<char> {
    "jpeg does not support dimensions larger than 65535 ("@ + size_text(w, h) + ")"@
}

/// What an image becomes in a format: the file and whether the colour profile is in it, or
/// what stopped it. With `has_alpha` the file keeps the opacity; without, or in JPEG, the
/// image is laid on white. `deep` asks for 16 bits in PNG.
pub open spec fn encoded(
    img: LinearImage,
    format: OutputFormat,
    quality: Option<u8>,
    has_alpha: bool,
    icc: Option<Vec<u8>>,
    deep: bool,
) -> Result<(Seq<u8>, bool), Fault> {
    let w = img.width;
    let h = img.height;
    let bytes = byte_pixels(img);
    let q = quality_for(format, quality);
    if w == 0 || h == 0 {
        Err(Fault::Encode("image has zero dimension"@))
    } else {
        match format {
            OutputFormat::Jpeg => if w > 65535 || h > 65535 {
                Err(Fault::Encode(jpeg_size_text(w, h)))
            } else {
                match jpeg_encoded(flat_bytes(bytes), w as u16, h as u16, q, usable_profile(icc)) {
                    Ok(file) => Ok(file),
                    Err(m) => Err(Fault::Encode("jpeg: "@ + m)),
                }
            },
            OutputFormat::Png => named(
                "png: "@,
                if deep {
                    deep_png_encoded(
                        if has_alpha {
                            full_words(word_pixels(img))
                        } else {
                            flat_words(word_pixels(img))
                        },
                        w,
                        h,
                        has_alpha,
                    )
                } else {
                    png_encoded(
                        if has_alpha {
                            full_bytes(bytes)
                        } else {
                            flat_bytes(bytes)
                        },
                        w,
                        h,
                        has_alpha,
                    )
                },
            ),
            OutputFormat::Webp => named(
                "webp: "@,
                if has_alpha {
                    clear_webp_encoded(full_bytes(bytes), w, h, q)
                } else {
                    webp_encoded(flat_bytes(bytes), w, h, q)
                },
            ),
            OutputFormat::Avif => named(
                "avif: "@,
                if has_alpha {
                    clear_avif_encoded(full_bytes(bytes), w, h, q, AVIF_SPEED)
                } else {
                    avif_encoded(flat_bytes(bytes), w, h, q, AVIF_SPEED)
                },
            ),
        }
    }
}

fn as_bytes(img: &LinearImage) -> (r: Image<Rgba>)
    requires
        img.well_formed(),
    ensures
        r.data@ == byte_pixels(*img),
{
    let r: Image<Rgba> = encoded_to_rgba8(img);
    assert(r.data@ =~= byte_pixels(*img));
    r
}

fn as_words(img: &LinearImage) -> (r: Image<Rgba16>)
    requires
        img.well_formed(),
    ensures
        r.data@ == word_pixels(*img),
{
    let r: Image<Rgba16> = encoded_to_rgba16(img);
    assert(r.data@ =~= word_pixels(*img));
    r
}

fn name_file(name: &str, file: Result<Vec<u8>, String>) -> (r: Result<(Vec<u8>, bool), AtxError>)
    ensures
        encode_view(r) == named(name@, file_view(file)),
{
    match file {
        Ok(b) => Ok((b, false)),
        Err(m) => Err(AtxError::Encode(cat2(name, m.as_str()))),
    }
}

/// A file or an error as sequences.
pub open spec fn encode_view(r: Result<(Vec<u8>, bool), AtxError>) -> Result<(Seq<u8>, bool), Fault> {
    match r {
        Ok((b, embedded)) => Ok((b@, embedded)),
        Err(e) => Err(e@),
    }
}

fn encode_jpeg(img: &LinearImage, quality: u8, icc: Option<Vec<u8>>) -> (r: Result<
    (Vec<u8>, bool),
    AtxError,
>)
    requires
        img.well_formed(),
        img.width > 0,
        img.height > 0,
    ensures
        encode_view(r) == encoded(*img, OutputFormat::Jpeg, Some(quality), false, icc, false),
{
    let w: u32 = img.width;
    let h: u32 = img.height;
    if w > 65535 || h > 65535 {
        let size: String = show_size(w, h);
        return Err(
            AtxError::Encode(
                cat3(
                    "jpeg does not support dimensions larger than 65535 (",
                    size.as_str(),
                    ")",
                ),
            ),
        );
    }
    let rgb: Vec<u8> = flatten_to_rgb(&as_bytes(img).data);
    let usable: Option<Vec<u8>> = match icc {
        Some(p) => if p.len() == 0 {
            None
        } else {
            Some(p)
        },
        None => None,
    };
    match write_jpeg(&rgb, w as u16, h as u16, quality, &usable) {
        Ok(file) => Ok(file),
        Err(m) => Err(AtxError::Encode(cat2("jpeg: ", m.as_str()))),
    }
}

fn encode_png(img: &LinearImage, has_alpha: bool, deep: bool) -> (r: Result<
    (Vec<u8>, bool),
    AtxError,
>)
    requires
        img.well_formed(),
        img.width > 0,
        img.height > 0,
    ensures
        encode_view(r) == encoded(*img, OutputFormat::Png, None, has_alpha, None, deep),
{
    let w: u32 = img.width;
    let h: u32 = img.height;
    if deep {
        let words: Image<Rgba16> = as_words(img);
        let data: Vec<u16> = if has_alpha {
            spread_words(&words.data)
        } else {
            flatten_words(&words.data)
        };
        name_file("png: ", write_deep_png(&data, w, h, has_alpha))
    } else {
        let bytes: Image<Rgba> = as_bytes(img);
        let data: Vec<u8> = if has_alpha {
            spread_bytes(&bytes.data)
        } else {
            flatten_to_rgb(&bytes.data)
        };
        name_file("png: ", write_png(&data, w, h, has_alpha))
    }
}

fn encode_webp(img: &LinearImage, quality: u8, has_alpha: bool) -> (r: Result<
    (Vec<u8>, bool),
    AtxError,
>)
    requires
        img.well_formed(),
        0 < img.width <= WEBP_MAX_SIDE,
        0 < img.height <= WEBP_MAX_SIDE,
        quality <= 100,
    ensures
        encode_view(r) == encoded(*img, OutputFormat::Webp, Some(quality), has_alpha, None, false),
{
    let bytes: Image<Rgba> = as_bytes(img);
    if has_alpha {
        let full: Vec<u8> = spread_bytes(&bytes.data);
        name_file("webp: ", write_clear_webp(&full, img.width, img.height, quality))
    } else {
        let flat: Vec<u8> = flatten_to_rgb(&bytes.data);
        name_file("webp: ", write_webp(&flat, img.width, img.height, quality))
    }
}

fn encode_avif(img: &LinearImage, quality: u8, has_alpha: bool) -> (r: Result<
    (Vec<u8>, bool),
    AtxError,
>)
    requires
        img.well_formed(),
        img.width > 0,
        img.height > 0,
        1 <= quality <= 100,
    ensures
        encode_view(r) == encoded(*img, OutputFormat::Avif, Some(quality), has_alpha, None, false),
{
    let bytes: Image<Rgba> = as_bytes(img);
    if has_alpha {
        let full: Vec<u8> = spread_bytes(&bytes.data);
        name_file("avif: ", write_clear_avif(&full, img.width, img.height, quality, AVIF_SPEED))
    } else {
        let flat: Vec<u8> = flatten_to_rgb(&bytes.data);
        name_file("avif: ", write_avif(&flat, img.width, img.height, quality, AVIF_SPEED))
    }
}

/// Writes an image of encoded colours. Returns the file and whether the colour profile is in
/// it; only JPEG files take one.
pub fn encode(
    img: &LinearImage,
    format: OutputFormat,
    quality: Option<u8>,
    has_alpha: bool,
    icc: Option<Vec<u8>>,
    bit_depth: u8,
) -> (r: Result<(Vec<u8>, bool), AtxError>)
    requires
        img.well_formed(),
        quality matches Some(q) ==> 1 <= q <= 100,
        format == OutputFormat::Webp ==> img.width <= WEBP_MAX_SIDE && img.height <= WEBP_MAX_SIDE,
    ensures
        encode_view(r) == encoded(*img, format, quality, has_alpha, icc, bit_depth == 16),
{
    if img.width == 0 || img.height == 0 {
        return Err(AtxError::Encode("image has zero dimension".to_owned()));
    }
    let q: u8 = quality_for(format, quality);
    match format {
        OutputFormat::Jpeg => encode_jpeg(img, q, icc),
        OutputFormat::Png => encode_png(img, has_alpha, bit_depth == 16),
        OutputFormat::Webp => encode_webp(img, q, has_alpha),
        OutputFormat::Avif => encode_avif(img, q, has_alpha),
    }
}

} // verus!
