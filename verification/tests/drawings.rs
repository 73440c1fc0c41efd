//! Drawings and the fonts that they use.
use atx_core::binary::Real32;
use atx_core::error::AtxError;
use atx_core::linear::LinearImage;
use atx_core::ops::fonts::{font_from_asset, generic_family, text_family};
use atx_core::ops::svg::{
    apply, finish_raster, intrinsic_size, missing_glyph_chars, missing_glyph_warning, plan_raster,
    round_positive, source_text, validate_asset, XmlNode,
};
use atx_core::raster::{Image, Rgba32};
use atx_core::{svg_intrinsic_size, validate_font_asset, validate_svg_asset, BlendMode};
use resvg::tiny_skia::{Pixmap, Transform};
use resvg::usvg::{Options, Tree};

const BADGE: &str = r##"<svg xmlns="http://www.w3.org/2000/svg" width="8" height="4"><rect x="0" y="0" width="8" height="4" fill="#ff0000"/></svg>"##;

fn short(v: f32) -> Real32 {
    Real32 { bits: v.to_bits() }
}

fn single(v: Real32) -> f32 {
    f32::from_bits(v.bits)
}

fn plain(w: u32, h: u32, c: [f32; 4]) -> LinearImage {
    let p = Rgba32 { r: short(c[0]), g: short(c[1]), b: short(c[2]), a: short(c[3]) };
    Image::from_pixel(w, h, p)
}

fn parts(p: Rgba32) -> [f32; 4] {
    [single(p.r), single(p.g), single(p.b), single(p.a)]
}

fn rasterize(
    bytes: &[u8],
    width: Option<u32>,
    height: Option<u32>,
) -> Result<(LinearImage, Vec<String>), String> {
    let plan = plan_raster(bytes, width, height, &None)?;
    let tree = Tree::from_str(&plan.text, &Options::default()).map_err(|e| e.to_string())?;
    let rendered = Pixmap::new(plan.width, plan.height).map(|mut pixmap| {
        let scale = Transform::from_scale(
            plan.width as f32 / tree.size().width(),
            plan.height as f32 / tree.size().height(),
        );
        resvg::render(&tree, scale, &mut pixmap.as_mut());
        pixmap.take()
    });
    let img = finish_raster(plan.width, plan.height, &rendered)?;
    Ok((img, plan.warnings))
}

fn refused(r: Result<(LinearImage, Vec<String>), String>) -> String {
    match r {
        Ok(_) => panic!("drawn"),
        Err(e) => e,
    }
}

#[test]
fn intrinsic_size_reads_the_root_attributes() {
    assert_eq!(intrinsic_size(BADGE.as_bytes()), Some((8, 4)));
}

#[test]
fn viewbox_alone_is_an_intrinsic_size() {
    let svg = r#"<svg xmlns="http://www.w3.org/2000/svg" viewBox="0 0 20 10"><rect width="20" height="10"/></svg>"#;
    assert_eq!(intrinsic_size(svg.as_bytes()), Some((20, 10)));
}

#[test]
fn percent_size_without_viewbox_has_no_intrinsic_size() {
    let svg = r#"<svg xmlns="http://www.w3.org/2000/svg" width="100%" height="100%"><rect width="10" height="10"/></svg>"#;
    assert_eq!(intrinsic_size(svg.as_bytes()), None);
    let err = refused(rasterize(svg.as_bytes(), None, None));
    assert!(err.contains("no intrinsic size"), "{err}");
    assert!(rasterize(svg.as_bytes(), Some(4), Some(4)).is_ok());
}

#[test]
fn not_svg_and_not_xml_are_distinct_errors() {
    assert!(intrinsic_size(b"\x89PNG\r\n").is_none());
    let err = refused(rasterize(b"not xml at all", None, None));
    assert!(err.contains("not parseable XML"), "{err}");
    let err = refused(rasterize(b"<html><body/></html>", None, None));
    assert!(err.contains("not <svg>"), "{err}");
}

#[test]
fn width_only_preserves_the_aspect_ratio() {
    let (img, _) = rasterize(BADGE.as_bytes(), Some(16), None).unwrap();
    assert_eq!(img.dimensions(), (16, 8));
    let (img, _) = rasterize(BADGE.as_bytes(), None, Some(8)).unwrap();
    assert_eq!(img.dimensions(), (16, 8));
}

#[test]
fn opaque_fill_unpremultiplies_exactly() {
    let (img, warnings) = rasterize(BADGE.as_bytes(), None, None).unwrap();
    assert_eq!(img.dimensions(), (8, 4));
    assert_eq!(parts(img.get(4, 2)), [1.0, 0.0, 0.0, 1.0]);
    assert!(warnings.is_empty());
}

#[test]
fn text_elements_raise_a_warning() {
    let svg = r#"<svg xmlns="http://www.w3.org/2000/svg" width="8" height="4"><text x="0" y="3">hi</text></svg>"#;
    let (_, warnings) = rasterize(svg.as_bytes(), None, None).unwrap();
    assert_eq!(
        warnings,
        vec!["svg contains text elements; text is not rendered (convert text to paths for deterministic output)".to_string()]
    );
}

#[test]
fn extreme_negative_placement_clips_without_overflow() {
    let img = plain(4, 4, [0.0, 0.0, 0.0, 1.0]);
    let raster = plain(4, 4, [1.0, 1.0, 1.0, 1.0]);
    let most: i64 = 100_000_000;
    let img = apply(&img, &raster, -most, -most, BlendMode::Normal, short(1.0));
    assert_eq!(parts(img.get(0, 0)), [0.0, 0.0, 0.0, 1.0]);
    let img = apply(&img, &raster, i64::MAX, i64::MAX, BlendMode::Normal, short(1.0));
    assert_eq!(parts(img.get(3, 3)), [0.0, 0.0, 0.0, 1.0]);
}

#[test]
fn negative_placement_clips() {
    let img = plain(4, 4, [0.0, 0.0, 0.0, 1.0]);
    let raster = plain(4, 4, [1.0, 1.0, 1.0, 1.0]);
    let img = apply(&img, &raster, -2, -2, BlendMode::Normal, short(1.0));
    assert_eq!(parts(img.get(0, 0)), [1.0, 1.0, 1.0, 1.0]);
    assert_eq!(parts(img.get(1, 1)), [1.0, 1.0, 1.0, 1.0]);
    assert_eq!(parts(img.get(2, 2)), [0.0, 0.0, 0.0, 1.0]);
}

/// What is accepted as a drawing, under its other name, and what is said of the rest.
#[test]
fn assets_are_checked_when_they_come_in() {
    assert_eq!(validate_svg_asset(BADGE.as_bytes()), Ok(Some((8, 4))));
    assert_eq!(svg_intrinsic_size(BADGE.as_bytes()), Some((8, 4)));
    assert_eq!(source_text("\u{feff}<svg/>".as_bytes()), Some("<svg/>".to_string()));
    let err = validate_asset(&[0xFF, 0xFE, 0x00]).unwrap_err();
    assert!(err.contains("not valid UTF-8"), "{err}");
    let err = validate_asset(b"<html/>").unwrap_err();
    assert_eq!(err, "the root element is <html>, not <svg>");
    assert!(validate_asset(b"<svg").unwrap_err().contains("not parseable XML"));
    let bare = r#"<svg xmlns="http://www.w3.org/2000/svg" width="100%"><rect width="1" height="1"/></svg>"#;
    assert_eq!(validate_asset(bare.as_bytes()), Ok(None));
}

/// Images that a drawing refers to are named in a warning.
#[test]
fn external_images_raise_a_warning() {
    let svg = r#"<svg xmlns="http://www.w3.org/2000/svg" width="8" height="4"><image href="a.png" width="2" height="2"/></svg>"#;
    let plan = plan_raster(svg.as_bytes(), None, None, &None).unwrap();
    assert_eq!(plan.warnings.len(), 1);
    assert!(plan.warnings[0].contains("external"), "{}", plan.warnings[0]);
}

/// Rasters that are too large are refused before anything is drawn.
#[test]
fn large_rasters_are_refused() {
    let err = match plan_raster(BADGE.as_bytes(), Some(20_000), Some(20_000), &None) {
        Ok(_) => panic!("planned"),
        Err(e) => e,
    };
    assert!(err.contains("20000x20000 = 400000000 pixels"), "{err}");
    assert!(finish_raster(2, 2, &None).unwrap_err().contains("2x2"));
}

/// Sides are rounded to the nearest pixel, and at least one.
#[test]
fn sides_are_whole_and_positive() {
    let side = |v: f64| round_positive(atx_core::binary::Real { bits: v.to_bits() });
    assert_eq!(side(2.5), Some(3));
    assert_eq!(side(0.2), Some(1));
    assert_eq!(side(0.0), None);
    assert_eq!(side(-3.0), None);
    assert_eq!(side(f64::NAN), None);
    assert_eq!(side(5e9), None);
}

fn push16(out: &mut Vec<u8>, v: u16) {
    out.extend_from_slice(&v.to_be_bytes());
}

fn push32(out: &mut Vec<u8>, v: u32) {
    out.extend_from_slice(&v.to_be_bytes());
}

fn words(out: &mut Vec<u8>, list: &[u16]) {
    for v in list {
        push16(out, *v);
    }
}

/// A font file of tables, which are in the order of their names.
fn font_file(tables: &[(&[u8; 4], Vec<u8>)]) -> Vec<u8> {
    let mut font = Vec::new();
    push32(&mut font, 0x0001_0000);
    words(&mut font, &[tables.len() as u16, 0, 0, 0]);
    let mut offset = 12 + 16 * tables.len();
    for (tag, data) in tables {
        font.extend_from_slice(*tag);
        push32(&mut font, 0);
        push32(&mut font, offset as u32);
        push32(&mut font, data.len() as u32);
        offset += (data.len() + 3) / 4 * 4;
    }
    for (_, data) in tables {
        font.extend_from_slice(data);
        while font.len() % 4 != 0 {
            font.push(0);
        }
    }
    font
}

/// A table that maps `A` to the second glyph.
fn cmap_table() -> Vec<u8> {
    let mut cmap = Vec::new();
    words(&mut cmap, &[0, 1, 3, 1]);
    push32(&mut cmap, 12);
    words(&mut cmap, &[4, 32, 0, 4, 4, 1, 0, 65, 0xFFFF, 0, 65, 0xFFFF, 65472, 1, 0, 0]);
    cmap
}

fn name_table(family: &str) -> Vec<u8> {
    let text: Vec<u8> = family.encode_utf16().flat_map(|u| u.to_be_bytes()).collect();
    let mut name = Vec::new();
    words(&mut name, &[0, 2, 30]);
    for id in [1u16, 6] {
        words(&mut name, &[3, 1, 0x409, id, text.len() as u16, 0]);
    }
    name.extend_from_slice(&text);
    name
}

/// A font of two glyphs whose only character is `A`.
fn small_font(glyphs: u16, family: &str) -> Vec<u8> {
    let mut maxp = Vec::new();
    push32(&mut maxp, 0x0000_5000);
    push16(&mut maxp, glyphs);
    font_file(&[(b"cmap", cmap_table()), (b"maxp", maxp), (b"name", name_table(family))])
}

/// A font whose `A` is a box, as wide as it says, on a square of 100.
fn drawn_font(wide: u16, family: &str) -> Vec<u8> {
    let back = 0u16.wrapping_sub(wide);
    let mut glyf = Vec::new();
    words(&mut glyf, &[1, 0, 0, wide, 70, 3, 0]);
    glyf.extend_from_slice(&[1, 1, 1, 1]);
    words(&mut glyf, &[0, wide, 0, back, 0, 0, 70, 0]);
    let mut head = Vec::new();
    push32(&mut head, 0x0001_0000);
    push32(&mut head, 0x0001_0000);
    push32(&mut head, 0);
    push32(&mut head, 0x5F0F_3CF5);
    words(&mut head, &[0, 100, 0, 0, 0, 0, 0, 0, 0, 0, 0, 0, wide, 70, 0, 8, 2, 0, 0]);
    let mut hhea = Vec::new();
    push32(&mut hhea, 0x0001_0000);
    words(&mut hhea, &[80, 0u16.wrapping_sub(20), 0, wide, 0, 0, wide, 1, 0, 0, 0, 0, 0, 0, 0, 2]);
    let mut hmtx = Vec::new();
    words(&mut hmtx, &[wide, 0, wide, 0]);
    let mut loca = Vec::new();
    words(&mut loca, &[0, 0, glyf.len() as u16 / 2]);
    let mut maxp = Vec::new();
    push32(&mut maxp, 0x0001_0000);
    words(&mut maxp, &[2, 4, 1, 0, 0, 2, 0, 0, 0, 0, 0, 0, 0, 0]);
    font_file(&[
        (b"cmap", cmap_table()),
        (b"glyf", glyf),
        (b"head", head),
        (b"hhea", hhea),
        (b"hmtx", hmtx),
        (b"loca", loca),
        (b"maxp", maxp),
        (b"name", name_table(family)),
    ])
}

/// A drawing whose box cannot be used is as large as what it draws, text that is drawn with
/// the given fonts among it.
#[test]
fn text_takes_part_in_the_size() {
    let svg = r#"<svg xmlns="http://www.w3.org/2000/svg" viewBox="0 0 0 0"><text x="0" y="90" font-family="Plain" font-size="100">AA</text></svg>"#;
    let plan = |fonts: Option<Vec<Vec<u8>>>| {
        let p = plan_raster(svg.as_bytes(), None, None, &fonts).unwrap();
        (p.width, p.height)
    };
    let narrow = plan(Some(vec![drawn_font(60, "Plain")]));
    let broad = plan(Some(vec![drawn_font(70, "Plain")]));
    assert_eq!(narrow.0, 120);
    assert_eq!(broad.0, 140);
    assert_eq!(narrow.1, broad.1);
    assert_eq!(plan(None), (100, 100));
    // The family of the first font stands for one that is not there.
    let other = svg.replace("Plain", "Nowhere");
    let fonts = Some(vec![drawn_font(70, "Plain")]);
    assert_eq!(plan_raster(other.as_bytes(), None, None, &fonts).unwrap().width, 140);
}

/// A font asset is handed on, or refused under its name.
#[test]
fn font_assets_are_refused_by_name() {
    let font = small_font(2, "Plain");
    assert_eq!(font_from_asset("rev_f", Ok(font.clone())).unwrap(), font);
    let e = font_from_asset("rev_f", Ok(b"OT".to_vec())).unwrap_err().message();
    assert!(e.contains("font asset rev_f: the file is too short"), "{e}");
    let gone = Err(AtxError::Io("gone".to_string()));
    let e = font_from_asset("rev_f", gone).unwrap_err().message();
    assert!(e.contains("gone") && !e.contains("font asset"), "{e}");
    assert_eq!(text_family(&vec![font]), "Plain");
    assert_eq!(text_family(&vec![]), "Roboto");
}

/// A font tells its families and how many glyphs it has.
#[test]
fn fonts_are_checked_when_they_come_in() {
    let info = validate_font_asset(&small_font(2, "Plain")).unwrap();
    assert_eq!(info.families, vec!["Plain".to_string()]);
    assert_eq!(info.glyph_count, 2);
    let err = validate_font_asset(&small_font(0, "Plain")).unwrap_err();
    assert!(err.contains("declares no glyphs"), "{err}");
    assert!(validate_font_asset(b"OT").unwrap_err().contains("too short"));
    assert!(validate_font_asset(b"ttcf\0\0\0\0").unwrap_err().contains("collection"));
    assert!(validate_font_asset(b"wOFF\0\0\0\0").unwrap_err().contains("signature"));
    assert!(validate_font_asset(&[0, 1, 0, 0]).unwrap_err().contains("not parseable"));
}

/// Characters that no font has a glyph for are counted, each once.
#[test]
fn missing_glyphs_are_counted() {
    let font = small_font(2, "Plain");
    let svg = r#"<svg xmlns="http://www.w3.org/2000/svg" width="8" height="4"><text x="0" y="3">ABBA C</text></svg>"#;
    let plan = plan_raster(svg.as_bytes(), None, None, &Some(vec![font])).unwrap();
    assert!(plan.with_fonts);
    assert_eq!(plan.warnings, vec![missing_glyph_warning(2)]);
    let none: Vec<XmlNode> = vec![];
    assert_eq!(missing_glyph_chars(&none, &vec![]), 0);
}

/// The first family of the first face stands for every generic one.
#[test]
fn one_family_stands_for_all() {
    let name = |s: &str| s.to_string();
    assert_eq!(generic_family(&vec![vec![name("Plain"), name("Other")], vec![name("Last")]]), "Plain");
    assert_eq!(generic_family(&vec![vec![], vec![name("Last")]]), "Roboto");
    assert_eq!(generic_family(&vec![]), "Roboto");
}
