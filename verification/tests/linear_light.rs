//! Light and encoded colours.
use atx_core::binary::{Real, Real32};
use atx_core::linear::{
    byte_to_unit, code_table, encoded_to_rgba8, ensure_space, eotf_base, from_rgba16_srgb,
    from_rgba8, from_rgba8_srgb, light_table, premultiplied, quantize_1e9, sample_conv_lut,
    srgb_eotf, srgb_oetf, table_step, unit_to_u16, unit_to_u8, unpremultiply, word_to_unit,
    LinearImage, Rgba16, Space, Tables,
};
use atx_core::raster::{Image, Rgba, Rgba32};

fn wide(v: f64) -> Real {
    Real { bits: v.to_bits() }
}

fn short(v: f32) -> Real32 {
    Real32 { bits: v.to_bits() }
}

fn double(v: Real) -> f64 {
    f64::from_bits(v.bits)
}

fn single(v: Real32) -> f32 {
    f32::from_bits(v.bits)
}

fn colour(c: [f32; 4]) -> Rgba32 {
    Rgba32 { r: short(c[0]), g: short(c[1]), b: short(c[2]), a: short(c[3]) }
}

fn light_powers(last: u32) -> Vec<Real> {
    (0..=last).map(|i| wide(double(eotf_base(table_step(i, last))).powf(2.4))).collect()
}

fn code_powers(last: u32) -> Vec<Real> {
    (0..=last).map(|i| wide(double(table_step(i, last)).powf(1.0 / 2.4))).collect()
}

fn tables() -> Tables {
    Tables {
        eotf_u8: light_table(&light_powers(255)),
        eotf_u16: light_table(&light_powers(65535)),
        eotf: light_table(&light_powers(4095)),
        oetf: code_table(&code_powers(4095)),
    }
}

#[test]
fn u8_srgb_linear_roundtrip_is_byte_exact() {
    let t = tables();
    for i in 0..=255u8 {
        let linear = t.eotf_u8[i as usize];
        let encoded = sample_conv_lut(&t.oetf, linear);
        let back = sample_conv_lut(&t.eotf, encoded);
        assert_eq!(unit_to_u8(sample_conv_lut(&t.oetf, back)), i, "roundtrip failed at {i}");
        assert_eq!(unit_to_u8(encoded), i, "single-pass encode failed at {i}");
    }
}

#[test]
fn conv_lut_interpolation_error_is_small() {
    let oetf = code_table(&code_powers(4095));
    let mut worst = 0.0f64;
    for i in 0..=20_000u32 {
        let l = i as f64 / 20_000.0 * 0.02;
        let approx = single(sample_conv_lut(&oetf, short(l as f32))) as f64;
        let exact = double(srgb_oetf(wide(l), wide(l.powf(1.0 / 2.4))));
        worst = worst.max((approx - exact).abs());
    }
    assert!(worst < 5e-5, "worst OETF interpolation error {worst} is too large");
}

#[test]
fn premultiply_roundtrip_preserves_opaque_pixels() {
    let img: LinearImage = Image::from_pixel(2, 2, colour([0.25, 0.5, 0.75, 1.0]));
    let pre = premultiplied(&img);
    assert_eq!(pre.data[0], colour([0.25, 0.5, 0.75, 1.0]));
    let img = unpremultiply(&pre);
    assert_eq!(img.data[0], colour([0.25, 0.5, 0.75, 1.0]));
}

#[test]
fn transparent_pixels_lose_rgb_on_unpremultiply() {
    let img: LinearImage = Image::from_pixel(1, 1, colour([0.5, 0.5, 0.5, 0.0]));
    let img = unpremultiply(&img);
    assert_eq!(img.data[0], colour([0.0, 0.0, 0.0, 0.0]));
}

/// The tables hold what the same formulas give in hardware arithmetic.
#[test]
fn tables_match_hardware_arithmetic() {
    let t = tables();
    let grid = |v: f64| (v * 1e9).round() / 1e9;
    for i in 0..4096u32 {
        let c = i as f64 / 4095.0;
        let light = if c <= 0.040_45 { c / 12.92 } else { ((c + 0.055) / 1.055).powf(2.4) };
        let code =
            if c <= 0.003_130_8 { c * 12.92 } else { 1.055 * c.powf(1.0 / 2.4) - 0.055 };
        assert_eq!(single(t.eotf[i as usize]), grid(light) as f32, "light at {i}");
        assert_eq!(single(t.oetf[i as usize]), grid(code) as f32, "code at {i}");
    }
    assert_eq!(double(quantize_1e9(wide(0.123_456_789_4))), 0.123_456_789);
    assert_eq!(double(srgb_eotf(wide(0.04), wide(9.0))), 0.04 / 12.92);
    assert_eq!(double(srgb_eotf(wide(0.5), wide(0.25))), 0.25);
}

/// Every byte and every 16-bit number survives the way to a number and back.
#[test]
fn every_byte_and_word_comes_back() {
    for b in 0..=255u8 {
        assert_eq!(unit_to_u8(byte_to_unit(b)), b);
        assert_eq!(single(byte_to_unit(b)), b as f32 / 255.0);
    }
    for w in (0..=65535u16).step_by(13) {
        assert_eq!(unit_to_u16(word_to_unit(w)), w);
    }
    assert_eq!(unit_to_u8(short(-1.0)), 0);
    assert_eq!(unit_to_u8(short(7.0)), 255);
    assert_eq!(unit_to_u8(short(0.5)), 128);
    assert_eq!(unit_to_u16(short(1.0)), 65535);
}

/// An image of bytes survives the way to encoded numbers and back, and the way to light.
#[test]
fn images_come_back_from_numbers() {
    let t = tables();
    let img = Image {
        width: 2,
        height: 1,
        data: vec![Rgba { r: 1, g: 2, b: 3, a: 4 }, Rgba { r: 250, g: 128, b: 0, a: 255 }],
    };
    assert_eq!(encoded_to_rgba8(&from_rgba8_srgb(&img)).data, img.data);
    let light = from_rgba8(&img, &t);
    assert_eq!(light.data[1].r, t.eotf_u8[250]);
    let back = ensure_space(light, Space::Linear, Space::Srgb, &t);
    assert_eq!(encoded_to_rgba8(&back).data, img.data);
    let deep = Image {
        width: 1,
        height: 1,
        data: vec![Rgba16 { r: 65535, g: 0, b: 32768, a: 65535 }],
    };
    let seen = from_rgba16_srgb(&deep);
    assert_eq!(single(seen.data[0].r), 1.0);
    assert_eq!(single(seen.data[0].b), 32768.0 / 65535.0);
}
