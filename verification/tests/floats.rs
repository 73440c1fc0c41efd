//! The arithmetic of binary numbers, against that of the machine.
use atx_core::binary::{Real, Real32};

/// Patterns of every kind: zeros, subnormals, ends of the range, infinities, NaNs, and
/// pseudo-random ones.
fn patterns() -> Vec<u64> {
    let mut v = vec![
        0,
        1,
        0x8000_0000_0000_0000,
        0x8000_0000_0000_0001,
        0x000F_FFFF_FFFF_FFFF,
        0x0010_0000_0000_0000,
        0x3FF0_0000_0000_0000,
        0xBFF0_0000_0000_0000,
        0x3FE0_0000_0000_0000,
        0x4340_0000_0000_0000,
        0x43E0_0000_0000_0000,
        0x7FEF_FFFF_FFFF_FFFF,
        0x7FF0_0000_0000_0000,
        0xFFF0_0000_0000_0000,
        0x7FF8_0000_0000_0000,
    ];
    let mut s: u64 = 0x1234_5678_9ABC_DEF1;
    for i in 0..120u64 {
        s ^= s << 13;
        s ^= s >> 7;
        s ^= s << 17;
        v.push(s);
        v.push((s & 0x800F_FFFF_FFFF_FFFF) | ((1000 + i) << 52));
    }
    v
}

fn short_patterns() -> Vec<u32> {
    let mut v: Vec<u32> = vec![
        0,
        1,
        0x8000_0000,
        0x8000_0001,
        0x007F_FFFF,
        0x0080_0000,
        0x3F80_0000,
        0xBF80_0000,
        0x3F00_0000,
        0x7F7F_FFFF,
        0x7F80_0000,
        0xFF80_0000,
        0x7FC0_0000,
    ];
    for p in patterns() {
        v.push((p >> 20) as u32);
        v.push(((p >> 9) as u32 & 0x807F_FFFF) | (((p as u32) % 24 + 115) << 23));
    }
    v
}

fn agree(mine: Real, theirs: f64, what: &str) {
    let m = f64::from_bits(mine.bits);
    let same = mine.bits == theirs.to_bits() || (m.is_nan() && theirs.is_nan());
    assert!(same, "{what}: {:#x} against {:#x}", mine.bits, theirs.to_bits());
}

fn agree_short(mine: Real32, theirs: f32, what: &str) {
    let m = f32::from_bits(mine.bits);
    let same = mine.bits == theirs.to_bits() || (m.is_nan() && theirs.is_nan());
    assert!(same, "{what}: {:#x} against {:#x}", mine.bits, theirs.to_bits());
}

#[test]
fn double_arithmetic_is_that_of_the_machine() {
    for a in patterns() {
        for b in patterns() {
            let (x, y) = (Real { bits: a }, Real { bits: b });
            let (f, g) = (f64::from_bits(a), f64::from_bits(b));
            agree(x.plus(y), f + g, "sum");
            agree(x.minus(y), f - g, "difference");
            agree(x.times(y), f * g, "product");
            agree(x.over(y), f / g, "quotient");
            assert_eq!(x.below(y), f < g);
            assert_eq!(x.same(y), f == g);
            assert_eq!(x.at_most(y), f <= g);
        }
    }
}

#[test]
fn single_arithmetic_is_that_of_the_machine() {
    for a in short_patterns() {
        for b in short_patterns().into_iter().step_by(5) {
            let (x, y) = (Real32 { bits: a }, Real32 { bits: b });
            let (f, g) = (f32::from_bits(a), f32::from_bits(b));
            agree_short(x.plus(y), f + g, "sum");
            agree_short(x.minus(y), f - g, "difference");
            agree_short(x.times(y), f * g, "product");
            agree_short(x.over(y), f / g, "quotient");
            assert_eq!(x.below(y), f < g);
            assert_eq!(x.same(y), f == g);
        }
    }
}

#[test]
fn remainders_are_those_of_the_machine() {
    for a in patterns() {
        for b in patterns().into_iter().step_by(7) {
            let (f, g) = (f64::from_bits(a), f64::from_bits(b));
            agree((Real { bits: a }).left_of(Real { bits: b }), f % g, "remainder");
        }
    }
}

#[test]
fn roots_and_roundings_are_those_of_the_machine() {
    for a in patterns() {
        let (x, f) = (Real { bits: a }, f64::from_bits(a));
        agree(x.root(), f.sqrt(), "root");
        agree(x.floor(), f.floor(), "floor");
        agree(x.ceiling(), f.ceil(), "ceiling");
        agree(x.round(), f.round(), "round");
        agree(x.negated(), -f, "negation");
        agree(x.absolute(), f.abs(), "absolute value");
        assert_eq!(x.floor_integer(), f.floor() as i64);
        assert_eq!(x.ceiling_integer(), f.ceil() as i64);
        assert_eq!(x.round_integer(), f.round() as i64);
        agree_short(x.narrowed(), f as f32, "narrowing");
        assert_eq!(x.is_nan(), f.is_nan());
    }
    for a in short_patterns() {
        let (x, f) = (Real32 { bits: a }, f32::from_bits(a));
        agree_short(x.root(), f.sqrt(), "root");
        agree_short(x.floor(), f.floor(), "floor");
        agree_short(x.ceiling(), f.ceil(), "ceiling");
        agree_short(x.round(), f.round(), "round");
        agree_short(x.negated(), -f, "negation");
        agree(x.widened(), f as f64, "widening");
        assert_eq!(x.round_integer(), f.round() as i64);
    }
}

#[test]
fn whole_numbers_become_the_nearest_ones() {
    for n in [0i64, 1, -1, 7, 1 << 53, (1 << 53) + 1, i64::MAX, i64::MIN, -123_456_789_012_345_678]
    {
        agree(Real::from_integer(n), n as f64, "integer");
        agree_short(Real32::from_integer(n), n as f32, "short integer");
    }
    for n in [0u128, 5, 1 << 70, (1 << 100) + 12345] {
        agree(Real::from_whole(n), n as f64, "whole");
    }
    for b in 0..=255u8 {
        agree(Real::of_byte(b), b as f64, "byte");
        assert_eq!(Real::of_byte(b).to_byte(), b);
    }
}

#[test]
fn extremes_follow_the_machine() {
    for (a, b) in [(1.0f64, 2.0), (-0.0, 0.0), (f64::NAN, 1.0), (1.0, f64::NAN), (-3.0, -4.0)] {
        let (x, y) = (Real { bits: a.to_bits() }, Real { bits: b.to_bits() });
        assert_eq!(f64::from_bits(x.larger(y).bits), a.max(b));
        assert_eq!(f64::from_bits(x.smaller(y).bits), a.min(b));
    }
    let at = |v: f64| {
        let (lo, hi) = (0.25f64, 0.75f64);
        let r = (Real { bits: v.to_bits() })
            .clamped(Real { bits: lo.to_bits() }, Real { bits: hi.to_bits() });
        agree(r, v.clamp(lo, hi), "clamp");
    };
    for v in [0.0, 0.25, 0.5, 0.75, 1.0, -1.0, f64::INFINITY, f64::NAN] {
        at(v);
    }
}
