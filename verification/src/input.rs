//! Reading images: limits, formats, pixels and EXIF.
use std::io::Cursor;

use exif::{Context, Field};
use image::{ColorType, DynamicImage, ImageDecoder, ImageFormat, ImageReader};
use vstd::prelude::*;

use crate::error::{AtxError, Fault};
use crate::linear::Rgba16;
use crate::pixel_ops::{oriented_dimensions, oriented_size, show_size, size_text};
use crate::raster::{Image, Rgba};
use crate::text::{cat5, chars_of, dec, decimal};
use crate::words::{cut_back, cut_ends, cut_front, string_of, Cut};
use crate::Limits;

verus! {

/// What is wrong with the size of an input in bytes.
pub open spec fn byte_fault(len: int, limits: Limits) -> Option<Fault> {
    if len > limits.max_bytes {
        Some(
            Fault::LimitExceeded(
                "input is "@ + decimal(len as nat) + " bytes, limit is "@ + decimal(
                    limits.max_bytes as nat,
                ) + " bytes"@,
            ),
        )
    } else if len == 0 {
        Some(Fault::Decode("input is empty"@))
    } else {
        None
    }
}

/// Checks the size of an input in bytes.
pub fn check_byte_limit(bytes: &[u8], limits: &Limits) -> (r: Result<(), AtxError>)
    ensures
        match r {
            Ok(_) => byte_fault(bytes@.len() as int, *limits) is None,
            Err(e) => byte_fault(bytes@.len() as int, *limits) == Some(e@),
        },
{
    let len: u64 = bytes.len() as u64;
    if len > limits.max_bytes {
        let got: String = dec(len);
        let max: String = dec(limits.max_bytes);
        return Err(
            AtxError::LimitExceeded(
                cat5("input is ", got.as_str(), " bytes, limit is ", max.as_str(), " bytes"),
            ),
        );
    }
    if len == 0 {
        return Err(AtxError::Decode("input is empty".to_owned()));
    }
    Ok(())
}

/// What is wrong with the size of an image in pixels.
pub open spec fn pixel_fault(width: u32, height: u32, limits: Limits) -> Option<Fault> {
    if width * height > limits.max_pixels {
        Some(
            Fault::LimitExceeded(
                "input is "@ + size_text(width, height) + " = "@ + decimal((width * height) as nat)
                    + " pixels, limit is "@ + decimal(limits.max_pixels as nat) + " pixels"@,
            ),
        )
    } else {
        None
    }
}

/// Checks the size of an image in pixels.
pub fn check_pixel_limit(width: u32, height: u32, limits: &Limits) -> (r: Result<(), AtxError>)
    ensures
        match r {
            Ok(_) => pixel_fault(width, height, *limits) is None,
            Err(e) => pixel_fault(width, height, *limits) == Some(e@),
        },
{
    proof {
        let (a, b) = (width as int, height as int);
        assert(0 <= a * b <= 0xFFFF_FFFF * 0xFFFF_FFFF) by (nonlinear_arith)
            requires
                0 <= a <= 0xFFFF_FFFF,
                0 <= b <= 0xFFFF_FFFF,
        ;
    }
    let pixels: u64 = width as u64 * height as u64;
    if pixels > limits.max_pixels {
        let size: String = show_size(width, height);
        let got: String = dec(pixels);
        let max: String = dec(limits.max_pixels);
        let mut m: String = cat5(
            "input is ",
            size.as_str(),
            " = ",
            got.as_str(),
            " pixels, limit is ",
        );
        m.append(max.as_str());
        m.append(" pixels");
        return Err(AtxError::LimitExceeded(m));
    }
    Ok(())
}

/// The formats that can be written as well as read; all others are alike.
#[derive(Clone, Copy, Debug, PartialEq, Eq, Structural)]
pub enum FormatKind {
    Jpeg,
    Png,
    WebP,
    Avif,
    Other,
}

/// The format of an input.
pub struct InputFormat {
    pub kind: FormatKind,
    /// Its media type.
    pub mime_type: String,
    /// Its name as messages show it.
    pub name: String,
}

/// The format of an input, with its texts as character sequences.
pub struct FormatView {
    pub kind: FormatKind,
    pub mime_type: Seq<char>,
    pub name: Seq<char>,
}

impl View for InputFormat {
    type V = FormatView;

    open spec fn view(&self) -> FormatView {
        FormatView { kind: self.kind, mime_type: self.mime_type@, name: self.name@ }
    }
}

/// The view of an input format that may be unknown.
pub open spec fn format_view(f: Option<InputFormat>) -> Option<FormatView> {
    match f {
        Some(f) => Some(f@),
        None => None,
    }
}

/// The format that the first bytes of an input announce.
pub uninterp spec fn format_guessed(bytes: Seq<u8>) -> Option<FormatView>;

/// The format that `image::guess_format` finds in the first bytes of an input, with its
/// media type and its name. It depends on the bytes alone: formats that are registered with
/// the crate play no part. It is named `format_guessed` here.
#[verifier::external_body]
pub(crate) fn guess_format(bytes: &[u8]) -> (r: Option<InputFormat>)
    ensures
        format_view(r) == format_guessed(bytes@),
{
    let format = image::guess_format(bytes).ok()?;
    let kind = match format {
        ImageFormat::Jpeg => FormatKind::Jpeg,
        ImageFormat::Png => FormatKind::Png,
        ImageFormat::WebP => FormatKind::WebP,
        ImageFormat::Avif => FormatKind::Avif,
        _ => FormatKind::Other,
    };
    let mime_type = format.to_mime_type().to_string();
    Some(InputFormat { kind, mime_type, name: format!("{format:?}") })
}

/// What the head of an image says.
pub struct Header {
    pub width: u32,
    pub height: u32,
    pub has_alpha: bool,
    pub icc: Option<Vec<u8>>,
}

/// What the head of an image says, with its bytes as a sequence.
pub struct HeaderView {
    pub width: u32,
    pub height: u32,
    pub has_alpha: bool,
    pub icc: Option<Seq<u8>>,
}

/// The view of bytes that may be missing.
pub open spec fn bytes_view(b: Option<Vec<u8>>) -> Option<Seq<u8>> {
    match b {
        Some(b) => Some(b@),
        None => None,
    }
}

impl View for Header {
    type V = HeaderView;

    open spec fn view(&self) -> HeaderView {
        HeaderView {
            width: self.width,
            height: self.height,
            has_alpha: self.has_alpha,
            icc: bytes_view(self.icc),
        }
    }
}

/// The outcome of reading a head, with its texts as character sequences.
pub open spec fn header_view(r: Result<Header, String>) -> Result<HeaderView, Seq<char>> {
    match r {
        Ok(h) => Ok(h@),
        Err(m) => Err(m@),
    }
}

/// What the head of an image says, or why it cannot be read.
pub uninterp spec fn header_decoded(bytes: Seq<u8>, max_alloc: u64) -> Result<
    HeaderView,
    Seq<char>,
>;

/// What `image::ImageReader::into_decoder`, for the format that `image::guess_format` finds,
/// reads in the head of an input: size, whether there is opacity, and the colour profile.
/// Decoders may use `max_alloc` bytes; the reader is made with a format of the crate itself,
/// so that registered decoders play no part. The outcome, with the text of the error, depends
/// on the bytes and on that number; it is named `header_decoded` here.
#[verifier::external_body]
fn decode_header(bytes: &[u8], max_alloc: u64) -> (r: Result<Header, String>)
    ensures
        header_view(r) == header_decoded(bytes@, max_alloc),
{
    let format = image::guess_format(bytes).map_err(|e| e.to_string())?;
    let mut reader = ImageReader::with_format(Cursor::new(bytes), format);
    let mut limits = image::Limits::default();
    limits.max_alloc = Some(max_alloc);
    reader.limits(limits);
    let mut decoder = reader.into_decoder().map_err(|e| e.to_string())?;
    let (width, height) = decoder.dimensions();
    let has_alpha = decoder.color_type().has_alpha();
    let icc = decoder.icc_profile().ok().flatten();
    Ok(Header { width, height, has_alpha, icc })
}

/// The pixels of an image as they are stored: four numbers for each, row by row.
pub enum Pixels {
    Bytes { width: u32, height: u32, data: Vec<u8> },
    Words { width: u32, height: u32, data: Vec<u16> },
}

/// The pixels of an image with their numbers as a sequence.
pub enum PixelsView {
    Bytes { width: u32, height: u32, data: Seq<u8> },
    Words { width: u32, height: u32, data: Seq<u16> },
}

impl View for Pixels {
    type V = PixelsView;

    open spec fn view(&self) -> PixelsView {
        match self {
            Pixels::Bytes { width, height, data } => PixelsView::Bytes {
                width: *width,
                height: *height,
                data: data@,
            },
            Pixels::Words { width, height, data } => PixelsView::Words {
                width: *width,
                height: *height,
                data: data@,
            },
        }
    }
}

/// There are four numbers for each pixel.
pub open spec fn complete(p: PixelsView) -> bool {
    match p {
        PixelsView::Bytes { width, height, data } => data.len() == 4 * (width * height),
        PixelsView::Words { width, height, data } => data.len() == 4 * (width * height),
    }
}

/// The outcome of reading pixels, with its texts as character sequences.
pub open spec fn pixels_view(r: Result<Pixels, String>) -> Result<PixelsView, Seq<char>> {
    match r {
        Ok(p) => Ok(p@),
        Err(m) => Err(m@),
    }
}

/// The pixels of an image, or why they cannot be read.
pub uninterp spec fn pixels_decoded(bytes: Seq<u8>, max_alloc: u64) -> Result<
    PixelsView,
    Seq<char>,
>;

/// The pixels that `image::DynamicImage::from_decoder` reads, for the format that
/// `image::guess_format` finds, as red, green, blue and opacity: in 16 bits where the image is
/// stored in 16 bits, else in bytes. There are four numbers for each pixel. The reader is made
/// with a format of the crate itself, so that registered decoders play no part. The outcome,
/// with the text of the error, depends on the bytes and on how much memory decoders may use;
/// it is named `pixels_decoded` here.
#[verifier::external_body]
fn decode_pixels(bytes: &[u8], max_alloc: u64) -> (r: Result<Pixels, String>)
    ensures
        pixels_view(r) == pixels_decoded(bytes@, max_alloc),
        r matches Ok(p) ==> complete(p@),
{
    let format = image::guess_format(bytes).map_err(|e| e.to_string())?;
    let mut reader = ImageReader::with_format(Cursor::new(bytes), format);
    let mut limits = image::Limits::default();
    limits.max_alloc = Some(max_alloc);
    reader.limits(limits);
    let decoded = reader.into_decoder().and_then(DynamicImage::from_decoder);
    let img = decoded.map_err(|e| e.to_string())?;
    let (width, height) = (img.width(), img.height());
    Ok(match img.color() {
        ColorType::L16 | ColorType::La16 | ColorType::Rgb16 | ColorType::Rgba16 => {
            Pixels::Words { width, height, data: img.to_rgba16().into_raw() }
        },
        _ => Pixels::Bytes { width, height, data: img.to_rgba8().into_raw() },
    })
}

/// How much memory decoders may use.
pub open spec fn memory_for(limits: Limits) -> u64 {
    if limits.max_pixels * 8 > u64::MAX {
        u64::MAX
    } else {
        (limits.max_pixels * 8) as u64
    }
}

/// How much memory decoders may use.
pub(crate) fn decoder_memory(limits: &Limits) -> (r: u64)
    ensures
        r == memory_for(*limits),
{
    if limits.max_pixels > 0x1FFF_FFFF_FFFF_FFFF {
        0xFFFF_FFFF_FFFF_FFFF
    } else {
        limits.max_pixels * 8
    }
}

/// What is wrong with an input before its pixels are read.
pub open spec fn head_fault(bytes: Seq<u8>, limits: Limits) -> Option<Fault> {
    if byte_fault(bytes.len() as int, limits) is Some {
        byte_fault(bytes.len() as int, limits)
    } else if format_guessed(bytes) is None {
        Some(
            Fault::Decode(
                "unrecognized image format (magic bytes did not match any supported format)"@,
            ),
        )
    } else {
        match header_decoded(bytes, memory_for(limits)) {
            Err(m) => Some(Fault::Decode(m)),
            Ok(h) => pixel_fault(h.width, h.height, limits),
        }
    }
}

/// Reads the head of an input, within the limits.
pub fn read_head(bytes: &[u8], limits: &Limits) -> (r: Result<(InputFormat, Header), AtxError>)
    ensures
        match r {
            Ok((f, h)) => {
                &&& head_fault(bytes@, *limits) is None
                &&& format_guessed(bytes@) == Some(f@)
                &&& header_decoded(bytes@, memory_for(*limits)) == Ok::<HeaderView, Seq<char>>(h@)
            },
            Err(e) => head_fault(bytes@, *limits) == Some(e@),
        },
{
    if let Err(e) = check_byte_limit(bytes, limits) {
        return Err(e);
    }
    let format: InputFormat = match guess_format(bytes) {
        Some(f) => f,
        None => {
            return Err(
                AtxError::Decode(
                    "unrecognized image format (magic bytes did not match any supported format)".to_owned(),
                ),
            );
        },
    };
    let header: Header = match decode_header(bytes, decoder_memory(limits)) {
        Ok(h) => h,
        Err(m) => return Err(AtxError::Decode(m)),
    };
    if let Err(e) = check_pixel_limit(header.width, header.height, limits) {
        return Err(e);
    }
    Ok((format, header))
}

/// What is wrong with an input, including its pixels.
pub open spec fn pixels_fault(bytes: Seq<u8>, limits: Limits) -> Option<Fault> {
    if head_fault(bytes, limits) is Some {
        head_fault(bytes, limits)
    } else {
        match pixels_decoded(bytes, memory_for(limits)) {
            Err(m) => Some(Fault::Decode(m)),
            Ok(_) => None,
        }
    }
}

/// Reads the pixels of an input, within the limits.
pub fn decode_checked(bytes: &[u8], limits: &Limits) -> (r: Result<
    (InputFormat, Header, Pixels),
    AtxError,
>)
    ensures
        match r {
            Ok((f, h, p)) => {
                &&& pixels_fault(bytes@, *limits) is None
                &&& format_guessed(bytes@) == Some(f@)
                &&& header_decoded(bytes@, memory_for(*limits)) == Ok::<HeaderView, Seq<char>>(h@)
                &&& pixels_decoded(bytes@, memory_for(*limits)) == Ok::<PixelsView, Seq<char>>(p@)
                &&& complete(p@)
            },
            Err(e) => pixels_fault(bytes@, *limits) == Some(e@),
        },
{
    let (format, header): (InputFormat, Header) = match read_head(bytes, limits) {
        Ok(v) => v,
        Err(e) => return Err(e),
    };
    match decode_pixels(bytes, decoder_memory(limits)) {
        Ok(p) => Ok((format, header, p)),
        Err(m) => Err(AtxError::Decode(m)),
    }
}

/// Pixel `i` of bytes in fours.
pub open spec fn byte_colour(data: Seq<u8>, i: int) -> Rgba {
    Rgba { r: data[4 * i], g: data[4 * i + 1], b: data[4 * i + 2], a: data[4 * i + 3] }
}

/// Pixel `i` of 16-bit numbers in fours.
pub open spec fn word_colour(data: Seq<u16>, i: int) -> Rgba16 {
    Rgba16 { r: data[4 * i], g: data[4 * i + 1], b: data[4 * i + 2], a: data[4 * i + 3] }
}

/// The image of bytes in fours.
pub fn image_of_bytes(width: u32, height: u32, data: &Vec<u8>) -> (r: Image<Rgba>)
    requires
        data@.len() == 4 * (width * height),
    ensures
        r.well_formed(),
        r.width == width,
        r.height == height,
        forall|i: int| 0 <= i < r.data@.len() ==> #[trigger] r.data@[i] == byte_colour(data@, i),
{
    let mut out: Vec<Rgba> = Vec::new();
    let ghost n = width * height;
    let mut i: usize = 0;
    let len: usize = data.len();
    while i < len
        invariant
            len == data@.len(),
            len == 4 * n,
            i <= len,
            i == 4 * out@.len(),
            forall|k: int| 0 <= k < out@.len() ==> #[trigger] out@[k] == byte_colour(data@, k),
        decreases len - i,
    {
        out.push(Rgba { r: data[i], g: data[i + 1], b: data[i + 2], a: data[i + 3] });
        i = i + 4;
    }
    Image { width, height, data: out }
}

/// The image of 16-bit numbers in fours.
pub fn image_of_words(width: u32, height: u32, data: &Vec<u16>) -> (r: Image<Rgba16>)
    requires
        data@.len() == 4 * (width * height),
    ensures
        r.well_formed(),
        r.width == width,
        r.height == height,
        forall|i: int| 0 <= i < r.data@.len() ==> #[trigger] r.data@[i] == word_colour(data@, i),
{
    let mut out: Vec<Rgba16> = Vec::new();
    let ghost n = width * height;
    let mut i: usize = 0;
    let len: usize = data.len();
    while i < len
        invariant
            len == data@.len(),
            len == 4 * n,
            i <= len,
            i == 4 * out@.len(),
            forall|k: int| 0 <= k < out@.len() ==> #[trigger] out@[k] == word_colour(data@, k),
        decreases len - i,
    {
        out.push(Rgba16 { r: data[i], g: data[i + 1], b: data[i + 2], a: data[i + 3] });
        i = i + 4;
    }
    Image { width, height, data: out }
}

/// The part of the EXIF data that a field belongs to.
#[derive(Clone, Copy, Debug, PartialEq, Eq, Structural)]
pub enum ExifContext {
    Tiff,
    Exif,
    Gps,
    Interop,
}

/// A field of the EXIF data.
pub struct ExifField {
    pub context: ExifContext,
    pub number: u16,
    /// The directory that it stands in: 0 for the image, 1 for its thumbnail.
    pub directory: u16,
    /// Its first value, where that is an unsigned whole number.
    pub first: Option<u32>,
    /// Its value in words, with its unit.
    pub shown: String,
}

/// A field of the EXIF data, with its text as a character sequence.
pub struct ExifFieldView {
    pub context: ExifContext,
    pub number: u16,
    pub directory: u16,
    pub first: Option<u32>,
    pub shown: Seq<char>,
}

impl View for ExifField {
    type V = ExifFieldView;

    open spec fn view(&self) -> ExifFieldView {
        ExifFieldView {
            context: self.context,
            number: self.number,
            directory: self.directory,
            first: self.first,
            shown: self.shown@,
        }
    }
}

/// The views of fields that may be missing.
pub open spec fn fields_view(f: Option<Vec<ExifField>>) -> Option<Seq<ExifFieldView>> {
    match f {
        Some(v) => Some(v@.map_values(|x: ExifField| x@)),
        None => None,
    }
}

/// The fields of the EXIF data of an input, where it has any that can be read.
pub uninterp spec fn exif_decoded(bytes: Seq<u8>) -> Option<Seq<ExifFieldView>>;

/// The fields that `exif::Reader::read_from_container` finds in an input, in its order,
/// each with its value in words by `display_value().with_unit(..)`. They depend on the
/// bytes alone; they are named `exif_decoded` here.
#[verifier::external_body]
fn exif_fields(bytes: &[u8]) -> (r: Option<Vec<ExifField>>)
    ensures
        fields_view(r) == exif_decoded(bytes@),
{
    let mut cursor = Cursor::new(bytes);
    let exif = exif::Reader::new().read_from_container(&mut cursor).ok()?;
    let plain = |f: &Field| ExifField {
        context: match f.tag.context() {
            Context::Exif => ExifContext::Exif,
            Context::Gps => ExifContext::Gps,
            Context::Interop => ExifContext::Interop,
            _ => ExifContext::Tiff,
        },
        number: f.tag.number(),
        directory: f.ifd_num.index(),
        first: f.value.get_uint(0),
        shown: f.display_value().with_unit(&exif).to_string(),
    };
    Some(exif.fields().map(plain).collect())
}

/// The last field with a context, a number and a directory.
pub open spec fn field_of(
    fields: Seq<ExifFieldView>,
    context: ExifContext,
    number: u16,
    directory: u16,
) -> Option<ExifFieldView>
    decreases fields.len(),
{
    if fields.len() == 0 {
        None
    } else if fields.last().context == context && fields.last().number == number
        && fields.last().directory == directory {
        Some(fields.last())
    } else {
        field_of(fields.drop_last(), context, number, directory)
    }
}

/// The place of the last field with a context, a number and a directory.
fn find_field(fields: &Vec<ExifField>, context: ExifContext, number: u16, directory: u16) -> (r:
    Option<usize>)
    ensures
        match r {
            Some(i) => i < fields@.len() && field_of(
                fields@.map_values(|x: ExifField| x@),
                context,
                number,
                directory,
            ) == Some(fields@[i as int]@),
            None => field_of(
                fields@.map_values(|x: ExifField| x@),
                context,
                number,
                directory,
            ) is None,
        },
{
    let ghost all = fields@.map_values(|x: ExifField| x@);
    let mut n: usize = fields.len();
    assert(all.take(n as int) =~= all);
    while n > 0
        invariant
            n <= fields@.len(),
            all == fields@.map_values(|x: ExifField| x@),
            field_of(all.take(n as int), context, number, directory) == field_of(
                all,
                context,
                number,
                directory,
            ),
        decreases n,
    {
        let f: &ExifField = &fields[n - 1];
        assert(all.take(n as int).last() == f@);
        assert(all.take(n as int).drop_last() =~= all.take(n - 1));
        if f.context == context && f.number == number && f.directory == directory {
            return Some(n - 1);
        }
        n = n - 1;
    }
    None
}

/// What is known of an image from its EXIF data.
pub struct ExifInfo {
    pub orientation: Option<u16>,
    pub has_gps: bool,
    pub has_any: bool,
    /// Names and values, in the order of the names.
    pub summary: Vec<(String, String)>,
}

/// The orientation, where it is one of the eight.
pub open spec fn orientation_of(fields: Seq<ExifFieldView>) -> Option<u16> {
    match field_of(fields, ExifContext::Tiff, 0x112, 0) {
        Some(f) => match f.first {
            Some(v) => if 1 <= v <= 8 {
                Some(v as u16)
            } else {
                None
            },
            None => None,
        },
        None => None,
    }
}

/// A value in words without the spaces and quotes around it.
pub open spec fn bare(s: Seq<char>) -> Seq<char> {
    let a = cut_back(cut_front(s, Cut::Spaces), Cut::Spaces);
    let b = cut_back(cut_front(a, Cut::Quotes), Cut::Quotes);
    cut_back(cut_front(b, Cut::Spaces), Cut::Spaces)
}

/// An entry of the summary: the field of the image, or else that of its thumbnail.
/// Nothing stands for an empty value.
pub open spec fn summary_entry(
    fields: Seq<ExifFieldView>,
    key: Seq<char>,
    context: ExifContext,
    number: u16,
) -> Seq<(Seq<char>, Seq<char>)> {
    let field = match field_of(fields, context, number, 0) {
        Some(f) => Some(f),
        None => field_of(fields, context, number, 1),
    };
    match field {
        Some(f) => if bare(f.shown).len() > 0 {
            seq![(key, bare(f.shown))]
        } else {
            Seq::empty()
        },
        None => Seq::empty(),
    }
}

/// The orientation as an entry of the summary.
pub open spec fn orientation_entry(fields: Seq<ExifFieldView>) -> Seq<(Seq<char>, Seq<char>)> {
    match orientation_of(fields) {
        Some(v) => seq![("orientation"@, decimal(v as nat))],
        None => Seq::empty(),
    }
}

/// The entries of the summary, in the order of their names.
pub open spec fn summary_of(fields: Seq<ExifFieldView>) -> Seq<(Seq<char>, Seq<char>)> {
    summary_entry(fields, "camera_make"@, ExifContext::Tiff, 0x10F) + summary_entry(
        fields,
        "camera_model"@,
        ExifContext::Tiff,
        0x110,
    ) + summary_entry(fields, "datetime"@, ExifContext::Tiff, 0x132) + summary_entry(
        fields,
        "datetime_original"@,
        ExifContext::Exif,
        0x9003,
    ) + summary_entry(fields, "exposure_time"@, ExifContext::Exif, 0x829A) + summary_entry(
        fields,
        "f_number"@,
        ExifContext::Exif,
        0x829D,
    ) + summary_entry(fields, "focal_length"@, ExifContext::Exif, 0x920A) + summary_entry(
        fields,
        "iso"@,
        ExifContext::Exif,
        0x8827,
    ) + summary_entry(fields, "lens_model"@, ExifContext::Exif, 0xA434) + orientation_entry(fields)
        + summary_entry(fields, "software"@, ExifContext::Tiff, 0x131)
}

/// The views of the entries of a summary.
pub open spec fn summary_view(s: Seq<(String, String)>) -> Seq<(Seq<char>, Seq<char>)> {
    s.map_values(|e: (String, String)| (e.0@, e.1@))
}

/// There is a field of the context of positions.
pub open spec fn any_gps(fields: Seq<ExifFieldView>) -> bool {
    exists|i: int| 0 <= i < fields.len() && (#[trigger] fields[i]).context == ExifContext::Gps
}

/// What EXIF fields say; without fields they say nothing.
pub open spec fn exif_says(fields: Option<Seq<ExifFieldView>>, info: ExifInfo) -> bool {
    match fields {
        None => info.orientation is None && !info.has_gps && !info.has_any && summary_view(
            info.summary@,
        ) == Seq::<(Seq<char>, Seq<char>)>::empty(),
        Some(f) => {
            &&& info.orientation == orientation_of(f)
            &&& info.has_gps == any_gps(f)
            &&& info.has_any == (f.len() > 0)
            &&& summary_view(info.summary@) == summary_of(f)
        },
    }
}

fn add_entry(
    out: &mut Vec<(String, String)>,
    fields: &Vec<ExifField>,
    key: &str,
    context: ExifContext,
    number: u16,
)
    ensures
        summary_view(final(out)@) == summary_view(old(out)@) + summary_entry(
            fields@.map_values(|x: ExifField| x@),
            key@,
            context,
            number,
        ),
{
    let at: Option<usize> = match find_field(fields, context, number, 0) {
        Some(i) => Some(i),
        None => find_field(fields, context, number, 1),
    };
    let ghost before = summary_view(out@);
    if let Some(i) = at {
        let text: Vec<char> = chars_of(fields[i].shown.as_str());
        let a: Vec<char> = cut_ends(&text, Cut::Spaces);
        let b: Vec<char> = cut_ends(&a, Cut::Quotes);
        let c: Vec<char> = cut_ends(&b, Cut::Spaces);
        if c.len() > 0 {
            let value: String = string_of(&c);
            let ghost entry = (key@, value@);
            out.push((key.to_owned(), value));
            assert(summary_view(out@) =~= before.push(entry));
        }
    }
    assert(summary_view(out@) =~= before + summary_entry(
        fields@.map_values(|x: ExifField| x@),
        key@,
        context,
        number,
    ));
}

fn find_orientation(fields: &Vec<ExifField>) -> (r: Option<u16>)
    ensures
        r == orientation_of(fields@.map_values(|x: ExifField| x@)),
{
    match find_field(fields, ExifContext::Tiff, 0x112, 0) {
        Some(i) => match fields[i].first {
            Some(v) => {
                if 1 <= v && v <= 8 {
                    Some(v as u16)
                } else {
                    None
                }
            },
            None => None,
        },
        None => None,
    }
}

fn has_gps(fields: &Vec<ExifField>) -> (r: bool)
    ensures
        r == any_gps(fields@.map_values(|x: ExifField| x@)),
{
    let ghost all = fields@.map_values(|x: ExifField| x@);
    let mut i: usize = 0;
    while i < fields.len()
        invariant
            i <= fields@.len(),
            all == fields@.map_values(|x: ExifField| x@),
            forall|k: int| 0 <= k < i ==> (#[trigger] all[k]).context != ExifContext::Gps,
        decreases fields.len() - i,
    {
        if fields[i].context == ExifContext::Gps {
            assert(all[i as int].context == ExifContext::Gps);
            return true;
        }
        i = i + 1;
    }
    false
}

/// What EXIF fields say of an image.
pub fn exif_info(fields: &Option<Vec<ExifField>>) -> (r: ExifInfo)
    ensures
        exif_says(fields_view(*fields), r),
{
    let mut summary: Vec<(String, String)> = Vec::new();
    let f: &Vec<ExifField> = match fields {
        None => {
            assert(summary_view(summary@) =~= Seq::empty());
            return ExifInfo { orientation: None, has_gps: false, has_any: false, summary };
        },
        Some(f) => f,
    };
    assert(summary_view(summary@) =~= Seq::empty());
    add_entry(&mut summary, f, "camera_make", ExifContext::Tiff, 0x10F);
    add_entry(&mut summary, f, "camera_model", ExifContext::Tiff, 0x110);
    add_entry(&mut summary, f, "datetime", ExifContext::Tiff, 0x132);
    add_entry(&mut summary, f, "datetime_original", ExifContext::Exif, 0x9003);
    add_entry(&mut summary, f, "exposure_time", ExifContext::Exif, 0x829A);
    add_entry(&mut summary, f, "f_number", ExifContext::Exif, 0x829D);
    add_entry(&mut summary, f, "focal_length", ExifContext::Exif, 0x920A);
    add_entry(&mut summary, f, "iso", ExifContext::Exif, 0x8827);
    add_entry(&mut summary, f, "lens_model", ExifContext::Exif, 0xA434);
    let orientation: Option<u16> = find_orientation(f);
    let ghost before = summary_view(summary@);
    let ghost all = f@.map_values(|x: ExifField| x@);
    if let Some(v) = orientation {
        summary.push(("orientation".to_owned(), dec(v as u64)));
    }
    assert(summary_view(summary@) =~= before + orientation_entry(all));
    add_entry(&mut summary, f, "software", ExifContext::Tiff, 0x131);
    assert(summary_view(summary@) =~= summary_of(all));
    ExifInfo { orientation, has_gps: has_gps(f), has_any: f.len() > 0, summary }
}

/// Reads the EXIF data of an input. Data that is missing or broken says nothing.
pub fn read_exif(bytes: &[u8]) -> (r: ExifInfo)
    ensures
        exif_says(exif_decoded(bytes@), r),
{
    let fields: Option<Vec<ExifField>> = exif_fields(bytes);
    exif_info(&fields)
}

/// What is known of an image without reading its pixels.
pub struct ImageInfo {
    pub width: u32,
    pub height: u32,
    pub mime_type: String,
    pub byte_size: u64,
    /// The EXIF orientation, from 1 to 8, where there is one.
    pub exif_orientation: Option<u16>,
    /// The size once the orientation is applied.
    pub oriented_width: u32,
    pub oriented_height: u32,
    pub has_alpha: bool,
    pub has_icc_profile: bool,
    /// Whether the EXIF data holds a position.
    pub has_gps: bool,
    /// Names and values of the main EXIF fields, in the order of the names.
    pub exif_summary: Vec<(String, String)>,
}

/// What an info says of an input that can be read.
pub open spec fn info_says(
    bytes: Seq<u8>,
    format: FormatView,
    header: HeaderView,
    info: ImageInfo,
) -> bool {
    &&& info.width == header.width
    &&& info.height == header.height
    &&& info.mime_type@ == format.mime_type
    &&& info.byte_size == bytes.len()
    &&& info.has_alpha == header.has_alpha
    &&& info.has_icc_profile == (header.icc matches Some(p) && p.len() > 0)
    &&& (info.oriented_width, info.oriented_height) == oriented_size(
        header.width,
        header.height,
        match info.exif_orientation {
            Some(o) => o,
            None => 1,
        },
    )
    &&& exists|e: ExifInfo|
        {
            &&& #[trigger] exif_says(exif_decoded(bytes), e)
            &&& info.exif_orientation == e.orientation
            &&& info.has_gps == e.has_gps
            &&& info.exif_summary == e.summary
        }
}

/// Puts together what is known of an image from its parts.
pub fn image_info(byte_size: u64, format: InputFormat, header: &Header, exif: ExifInfo) -> (r:
    ImageInfo)
    ensures
        r.width == header.width,
        r.height == header.height,
        r.mime_type == format.mime_type,
        r.byte_size == byte_size,
        r.exif_orientation == exif.orientation,
        (r.oriented_width, r.oriented_height) == oriented_size(
            header.width,
            header.height,
            match exif.orientation {
                Some(o) => o,
                None => 1,
            },
        ),
        r.has_alpha == header.has_alpha,
        r.has_icc_profile == (header.icc matches Some(p) && p@.len() > 0),
        r.has_gps == exif.has_gps,
        r.exif_summary == exif.summary,
{
    let orientation: u16 = match exif.orientation {
        Some(o) => o,
        None => 1,
    };
    let (oriented_width, oriented_height): (u32, u32) = oriented_dimensions(
        header.width,
        header.height,
        orientation,
    );
    let has_icc_profile: bool = match &header.icc {
        Some(p) => p.len() > 0,
        None => false,
    };
    ImageInfo {
        width: header.width,
        height: header.height,
        mime_type: format.mime_type,
        byte_size,
        exif_orientation: exif.orientation,
        oriented_width,
        oriented_height,
        has_alpha: header.has_alpha,
        has_icc_profile,
        has_gps: exif.has_gps,
        exif_summary: exif.summary,
    }
}

/// Looks at an input without reading its pixels. Limits are checked first: bytes, then
/// the format, then the size in pixels.
pub fn inspect_bytes(bytes: &[u8], limits: &Limits) -> (r: Result<ImageInfo, AtxError>)
    ensures
        match r {
            Ok(info) => {
                &&& head_fault(bytes@, *limits) is None
                &&& format_guessed(bytes@) matches Some(f)
                &&& header_decoded(bytes@, memory_for(*limits)) matches Ok(h)
                &&& info_says(bytes@, f, h, info)
            },
            Err(e) => head_fault(bytes@, *limits) == Some(e@),
        },
{
    let (format, header): (InputFormat, Header) = match read_head(bytes, limits) {
        Ok(v) => v,
        Err(e) => return Err(e),
    };
    let exif: ExifInfo = read_exif(bytes);
    assert(exif_says(exif_decoded(bytes@), exif));
    Ok(image_info(bytes.len() as u64, format, &header, exif))
}

} // verus!
