//! Gradient map.
use vstd::prelude::*;

use vstd::utf8::{encode_scalar, encode_utf8, has_width_1_encoding};

use crate::binary::{Real, Real32, Triple};
use crate::error::{op_error, op_fault, verdict, AtxError, Fault};
use crate::linear::LinearImage;
use crate::number::{is_below, is_within, rank, within, BYTE_MAX, ONE, ZERO};
use crate::raster::{is_mapped, map_pixels, Rgba32};
use crate::recipe::{hex_color_value, parse_hex_color, GradientStop};
use crate::stats::{LUMA_B, LUMA_G, LUMA_R};
use crate::text::{cat2, cat4, cat5, dec, decimal, debug_text, quoted};

verus! {

/// How many hash signs a text begins with.
pub open spec fn hashes(s: Seq<char>) -> int
    decreases s.len(),
{
    if s.len() > 0 && s[0] == '#' {
        1 + hashes(s.skip(1))
    } else {
        0
    }
}

/// How many bytes a text has behind the hash signs that it begins with.
pub open spec fn bytes_after_hashes(s: Seq<char>) -> int {
    encode_utf8(s.skip(hashes(s))).len() as int
}

/// What is wrong with the stops of a gradient from place `i` on.
pub open spec fn stop_fault(index: int, stops: Seq<GradientStop>, i: int) -> Option<Fault>
    decreases stops.len() - i,
{
    if i >= stops.len() {
        None
    } else if !within(stops[i].position.bits, ZERO, ONE) {
        op_fault(
            index,
            "gradient_map"@,
            "stops["@ + decimal(i as nat)
                + "].position must be finite and within 0.0..=1.0, got "@
                + stops[i].position.text@,
        )
    } else if i > 0 && rank(stops[i].position.bits) <= rank(stops[i - 1].position.bits) {
        op_fault(
            index,
            "gradient_map"@,
            "stops["@ + decimal(i as nat) + "].position must be strictly increasing, got "@
                + stops[i].position.text@ + " after "@ + stops[i - 1].position.text@,
        )
    } else if bytes_after_hashes(stops[i].color@) == 8 {
        op_fault(
            index,
            "gradient_map"@,
            "stops["@ + decimal(i as nat)
                + "].color: 8-digit hex (#rrggbbaa) is not accepted here (gradient_map stops are opaque colors; pixel alpha is preserved unchanged separately), got "@
                + debug_text(stops[i].color@),
        )
    } else if hex_color_value(stops[i].color@) is None {
        op_fault(
            index,
            "gradient_map"@,
            "stops["@ + decimal(i as nat)
                + "].color must be a CSS hex color (#rgb / #rrggbb), got "@ + debug_text(
                stops[i].color@,
            ),
        )
    } else {
        stop_fault(index, stops, i + 1)
    }
}

/// What is wrong with the stops of a gradient: 2 to 8 of them, with positions from 0
/// to 1 that strictly increase, and colours without alpha.
pub open spec fn stops_fault(index: int, stops: Seq<GradientStop>) -> Option<Fault> {
    if stops.len() < 2 || stops.len() > 8 {
        op_fault(
            index,
            "gradient_map"@,
            "stops must have 2..=8 entries, got "@ + decimal(stops.len()),
        )
    } else {
        stop_fault(index, stops, 0)
    }
}

/// The length of a text in bytes without its leading hash signs.
fn length_after_hashes(s: &str) -> (r: usize)
    ensures
        r == bytes_after_hashes(s@),
{
    let n: usize = s.unicode_len();
    let all: usize = s.as_bytes().len();
    let mut k: usize = 0;
    assert(s@.skip(0) =~= s@);
    while k < n && s.get_char(k) == '#'
        invariant
            k <= n,
            n == s@.len(),
            all == encode_utf8(s@).len(),
            encode_utf8(s@).len() == k + encode_utf8(s@.skip(k as int)).len(),
            hashes(s@) == k + hashes(s@.skip(k as int)),
        decreases n - k,
    {
        proof {
            let rest = s@.skip(k as int);
            assert(rest[0] == '#');
            assert(rest.drop_first() =~= s@.skip(k + 1));
            assert(rest.skip(1) =~= s@.skip(k + 1));
            assert(has_width_1_encoding('#' as u32));
            assert(encode_scalar('#' as u32).len() == 1);
        }
        k = k + 1;
    }
    proof {
        let rest = s@.skip(k as int);
        if k < n {
            assert(rest[0] == s@[k as int]);
        }
        assert(hashes(rest) == 0);
    }
    all - k
}

/// Checks the stops of a gradient.
pub fn validate_stops(index: usize, stops: &Vec<GradientStop>) -> (r: Result<(), AtxError>)
    ensures
        verdict(r) == stops_fault(index as int, stops@),
{
    if stops.len() < 2 || stops.len() > 8 {
        let number: String = dec(stops.len() as u64);
        let message: String = cat2("stops must have 2..=8 entries, got ", number.as_str());
        return Err(op_error(index, "gradient_map", message.as_str()));
    }
    let mut i: usize = 0;
    while i < stops.len()
        invariant
            i <= stops.len(),
            2 <= stops@.len() <= 8,
            stops_fault(index as int, stops@) == stop_fault(index as int, stops@, i as int),
        decreases stops.len() - i,
    {
        let stop: &GradientStop = &stops[i];
        let number: String = dec(i as u64);
        if !is_within(stop.position.bits, ZERO, ONE) {
            let message: String = cat4(
                "stops[",
                number.as_str(),
                "].position must be finite and within 0.0..=1.0, got ",
                stop.position.text.as_str(),
            );
            return Err(op_error(index, "gradient_map", message.as_str()));
        }
        if i > 0 && !is_below(stops[i - 1].position.bits, stop.position.bits) {
            let message: String = cat5(
                "stops[",
                number.as_str(),
                "].position must be strictly increasing, got ",
                stop.position.text.as_str(),
                " after ",
            );
            let message: String = cat2(message.as_str(), stops[i - 1].position.text.as_str());
            return Err(op_error(index, "gradient_map", message.as_str()));
        }
        if length_after_hashes(stop.color.as_str()) == 8 {
            let color: String = quoted(stop.color.as_str());
            let message: String = cat4(
                "stops[",
                number.as_str(),
                "].color: 8-digit hex (#rrggbbaa) is not accepted here (gradient_map stops are opaque colors; pixel alpha is preserved unchanged separately), got ",
                color.as_str(),
            );
            return Err(op_error(index, "gradient_map", message.as_str()));
        }
        if parse_hex_color(stop.color.as_str()).is_none() {
            let color: String = quoted(stop.color.as_str());
            let message: String = cat4(
                "stops[",
                number.as_str(),
                "].color must be a CSS hex color (#rgb / #rrggbb), got ",
                color.as_str(),
            );
            return Err(op_error(index, "gradient_map", message.as_str()));
        }
        i = i + 1;
    }
    Ok(())
}

/// A stop with its colour from 0 to 1.
#[derive(Clone, Copy, Debug, PartialEq, Eq, Structural)]
pub struct Stop {
    pub position: Real,
    pub color: Triple,
}

/// A byte as a part of 255.
#[verifier::allow_in_spec]
pub fn colour_part(v: u8) -> Real
    returns
        Real::of_byte(v).over(Real { bits: BYTE_MAX }),
{
    Real::of_byte(v).over(Real { bits: BYTE_MAX })
}

/// A stop with its colour from 0 to 1; a colour that is none is black.
pub open spec fn prepared(stop: GradientStop) -> Stop {
    let c = match hex_color_value(stop.color@) {
        Some(v) => v,
        None => seq![0u8, 0u8, 0u8, 255u8],
    };
    Stop {
        position: Real { bits: stop.position.bits },
        color: Triple { r: colour_part(c[0]), g: colour_part(c[1]), b: colour_part(c[2]) },
    }
}

/// The stops with their colours from 0 to 1.
pub open spec fn all_prepared(stops: Seq<GradientStop>) -> Seq<Stop> {
    stops.map_values(|s: GradientStop| prepared(s))
}

/// The stops with their colours from 0 to 1.
pub fn prepare_stops(stops: &Vec<GradientStop>) -> (r: Vec<Stop>)
    ensures
        r@ == all_prepared(stops@),
{
    let mut r: Vec<Stop> = Vec::new();
    let mut i: usize = 0;
    while i < stops.len()
        invariant
            i <= stops@.len(),
            r@ =~= all_prepared(stops@).take(i as int),
        decreases stops.len() - i,
    {
        let c: [u8; 4] = match parse_hex_color(stops[i].color.as_str()) {
            Some(v) => v,
            None => [0, 0, 0, 255],
        };
        let stop: Stop = Stop {
            position: Real { bits: stops[i].position.bits },
            color: Triple { r: colour_part(c[0]), g: colour_part(c[1]), b: colour_part(c[2]) },
        };
        assert(stop == prepared(stops@[i as int]));
        r.push(stop);
        i = i + 1;
    }
    assert(r@ =~= all_prepared(stops@));
    r
}

/// A colour in the shorter format.
#[verifier::allow_in_spec]
pub fn shortened(c: Triple, a: Real32) -> Rgba32
    returns
        (Rgba32 { r: c.r.narrowed(), g: c.g.narrowed(), b: c.b.narrowed(), a }),
{
    Rgba32 { r: c.r.narrowed(), g: c.g.narrowed(), b: c.b.narrowed(), a }
}

/// The colour between two stops.
pub open spec fn between_stops(p: Stop, q: Stop, luma: Real) -> Triple {
    let span = q.position.minus(p.position);
    let t = if (Real { bits: ZERO }).below(span) {
        luma.minus(p.position).over(span)
    } else {
        Real { bits: ZERO }
    };
    Triple {
        r: p.color.r.plus(t.times(q.color.r.minus(p.color.r))),
        g: p.color.g.plus(t.times(q.color.g.minus(p.color.g))),
        b: p.color.b.plus(t.times(q.color.b.minus(p.color.b))),
    }
}

fn mix_stops(p: Stop, q: Stop, luma: Real) -> (r: Triple)
    ensures
        r == between_stops(p, q, luma),
{
    let zero: Real = Real { bits: ZERO };
    let span: Real = q.position.minus(p.position);
    let t: Real = if zero.below(span) {
        luma.minus(p.position).over(span)
    } else {
        zero
    };
    Triple {
        r: p.color.r.plus(t.times(q.color.r.minus(p.color.r))),
        g: p.color.g.plus(t.times(q.color.g.minus(p.color.g))),
        b: p.color.b.plus(t.times(q.color.b.minus(p.color.b))),
    }
}

/// The colour in the first stretch from stop `i` on that holds `luma`.
pub open spec fn colour_from(stops: Seq<Stop>, luma: Real, i: int) -> Triple
    decreases stops.len() - i,
{
    if i + 1 >= stops.len() {
        stops[stops.len() - 1].color
    } else if stops[i].position.at_most(luma) && luma.at_most(stops[i + 1].position) {
        between_stops(stops[i], stops[i + 1], luma)
    } else {
        colour_from(stops, luma, i + 1)
    }
}

/// The colour of a luminance: that of the end stops beyond them, else a straight line
/// between two.
pub open spec fn gradient_colour(stops: Seq<Stop>, luma: Real) -> Triple {
    if luma.at_most(stops[0].position) {
        stops[0].color
    } else if stops[stops.len() - 1].position.at_most(luma) {
        stops[stops.len() - 1].color
    } else {
        colour_from(stops, luma, 0)
    }
}

/// The colour of a luminance.
pub fn color_at(stops: &Vec<Stop>, luma: Real) -> (r: Triple)
    requires
        stops@.len() > 0,
    ensures
        r == gradient_colour(stops@, luma),
{
    let n: usize = stops.len();
    if luma.at_most(stops[0].position) {
        return stops[0].color;
    }
    if stops[n - 1].position.at_most(luma) {
        return stops[n - 1].color;
    }
    let mut i: usize = 0;
    while i < n - 1
        invariant
            n == stops@.len(),
            n > 0,
            i <= n - 1,
            !luma.at_most(stops@[0].position),
            !stops@[n - 1].position.at_most(luma),
            colour_from(stops@, luma, 0) == colour_from(stops@, luma, i as int),
        decreases n - 1 - i,
    {
        if stops[i].position.at_most(luma) && luma.at_most(stops[i + 1].position) {
            return mix_stops(stops[i], stops[i + 1], luma);
        }
        i = i + 1;
    }
    stops[n - 1].color
}

/// The luminance of a colour.
#[verifier::allow_in_spec]
pub fn luma_of(p: Rgba32) -> Real
    returns
        (Real { bits: LUMA_R }).times(p.r.widened()).plus(
            (Real { bits: LUMA_G }).times(p.g.widened()),
        ).plus((Real { bits: LUMA_B }).times(p.b.widened())),
{
    let (r, g, b): (Real, Real, Real) = (
        Real { bits: LUMA_R },
        Real { bits: LUMA_G },
        Real { bits: LUMA_B },
    );
    r.times(p.r.widened()).plus(g.times(p.g.widened())).plus(b.times(p.b.widened()))
}

/// A colour replaced by that of its luminance. Opacity stays, and so does everything
/// where there are fewer than two stops.
pub open spec fn mapped_colour(stops: Seq<Stop>, p: Rgba32) -> Rgba32 {
    if stops.len() < 2 {
        p
    } else {
        shortened(gradient_colour(stops, luma_of(p)), p.a)
    }
}

/// Replaces each colour by that of its luminance.
pub fn apply(img: &LinearImage, stops: &Vec<GradientStop>) -> (r: LinearImage)
    requires
        img.well_formed(),
    ensures
        is_mapped(*img, r, |p: Rgba32| mapped_colour(all_prepared(stops@), p)),
{
    let ready: Vec<Stop> = prepare_stops(stops);
    let f = |p: Rgba32| -> (q: Rgba32)
        ensures
            q == mapped_colour(ready@, p),
        {
            if ready.len() < 2 {
                p
            } else {
                shortened(color_at(&ready, luma_of(p)), p.a)
            }
        };
    map_pixels(img, f, Ghost(|p: Rgba32| mapped_colour(all_prepared(stops@), p)))
}

} // verus!
