//! Perspective correction.
use vstd::prelude::*;

use crate::binary::{Real, Real32};
use crate::error::{first_fault, op_error, op_fault, verdict, AtxError, Fault};
use crate::number::{
    finite, is_finite, is_within, within, Number, FORTY_FIVE, HALF, HUNDRED, MINUS_FORTY_FIVE, ONE,
    TWO, ZERO,
};
use crate::pixel_ops::{length_or_none, show_size, size_text, to_length_or_none};
use crate::raster::Rgba;
use crate::recipe::{hex_color_value, parse_hex_color, Quad};
use crate::resize::AT_ZERO;
use crate::rotate::{middle, percent_text, show_percent};
use crate::text::{cat2, cat3, cat4, cat5, dec, decimal, debug_text, quoted};
use crate::transform::{is_bounded, quantize_1e6, Point, Row, Transform};

verus! {

/// The corners of a quadrilateral.
#[derive(Clone, Copy, Debug, PartialEq, Eq, Structural)]
pub struct Outline {
    pub tl: Point,
    pub tr: Point,
    pub br: Point,
    pub bl: Point,
}

/// Whether the way from `a` by `b` to `c` turns clockwise on the screen.
#[verifier::allow_in_spec]
pub fn turns(a: Point, b: Point, c: Point) -> bool
    returns
        (Real { bits: ZERO }).below(
            b.x.minus(a.x).times(c.y.minus(b.y)).minus(b.y.minus(a.y).times(c.x.minus(b.x))),
        ),
{
    let zero: Real = Real { bits: ZERO };
    zero.below(b.x.minus(a.x).times(c.y.minus(b.y)).minus(b.y.minus(a.y).times(c.x.minus(b.x))))
}

impl Outline {
    /// Whether the corners, in their order, turn clockwise at each of them.
    #[verifier::allow_in_spec]
    pub fn turns_clockwise(self) -> bool
        returns
            (turns(self.tl, self.tr, self.br) && turns(self.tr, self.br, self.bl) && turns(
                self.br,
                self.bl,
                self.tl,
            ) && turns(self.bl, self.tl, self.tr)),
    {
        turns(self.tl, self.tr, self.br) && turns(self.tr, self.br, self.bl) && turns(
            self.br,
            self.bl,
            self.tl,
        ) && turns(self.bl, self.tl, self.tr)
    }
}

/// A corner as a point.
pub open spec fn corner(p: [Number; 2]) -> Point {
    Point { x: Real { bits: p[0].bits }, y: Real { bits: p[1].bits } }
}

fn to_corner(p: &[Number; 2]) -> (r: Point)
    ensures
        r == corner(*p),
{
    Point { x: Real { bits: p[0].bits }, y: Real { bits: p[1].bits } }
}

/// The corners of a quadrilateral as points.
pub open spec fn outline(q: Quad) -> Outline {
    Outline {
        tl: corner(q.corners@[0]),
        tr: corner(q.corners@[1]),
        br: corner(q.corners@[2]),
        bl: corner(q.corners@[3]),
    }
}

/// The corners of a quadrilateral as points.
pub fn to_outline(q: &Quad) -> (r: Outline)
    ensures
        r == outline(*q),
{
    Outline {
        tl: to_corner(&q.corners[0]),
        tr: to_corner(&q.corners[1]),
        br: to_corner(&q.corners[2]),
        bl: to_corner(&q.corners[3]),
    }
}

/// What is wrong with the corners of a quadrilateral from place `i` on.
pub open spec fn corner_fault(index: int, corners: Seq<[Number; 2]>, i: int) -> Option<Fault>
    decreases corners.len() - i,
{
    if i >= corners.len() {
        None
    } else if !finite(corners[i][0].bits) || !finite(corners[i][1].bits) {
        op_fault(
            index,
            "perspective"@,
            "quad["@ + decimal(i as nat) + "] has a non-finite coordinate ("@
                + corners[i][0].text@ + ", "@ + corners[i][1].text@ + ")"@,
        )
    } else {
        corner_fault(index, corners, i + 1)
    }
}

/// What is wrong with a quadrilateral.
pub open spec fn quad_fault(index: int, quad: Option<Quad>) -> Option<Fault> {
    match quad {
        None => None,
        Some(q) => first_fault(
            corner_fault(index, q.corners@, 0),
            if outline(q).turns_clockwise() {
                None
            } else {
                op_fault(
                    index,
                    "perspective"@,
                    "quad must be a strictly convex quadrilateral listed as tl, tr, br, bl (clockwise on screen, y pointing down); got "@
                        + q.text@
                        + " which is concave, self-intersecting, degenerate, or in the wrong order"@,
                )
            },
        ),
    }
}

/// What is wrong with a keystone angle.
pub open spec fn keystone_fault(index: int, name: Seq<char>, degrees: Option<Number>) -> Option<
    Fault,
> {
    match degrees {
        None => None,
        Some(d) => if within(d.bits, MINUS_FORTY_FIVE, FORTY_FIVE) {
            None
        } else {
            op_fault(index, "perspective"@, name + " must be within -45..=45, got "@ + d.text@)
        },
    }
}

/// What is wrong with a padding colour.
pub open spec fn pad_color_fault(index: int, pad_color: Option<String>) -> Option<Fault> {
    match pad_color {
        None => None,
        Some(c) => if hex_color_value(c@) is Some {
            None
        } else {
            op_fault(
                index,
                "perspective"@,
                "pad_color must be a CSS hex color (\"#rgb\" / \"#rrggbb\" / \"#rrggbbaa\"), got "@
                    + debug_text(c@),
            )
        },
    }
}

/// What is wrong with the parameters of `perspective`: either a quadrilateral or
/// angles, not both.
pub open spec fn perspective_fault(
    index: int,
    quad: Option<Quad>,
    vertical_degrees: Option<Number>,
    horizontal_degrees: Option<Number>,
    pad_color: Option<String>,
) -> Option<Fault> {
    let keystone = vertical_degrees is Some || horizontal_degrees is Some;
    if quad is Some && keystone {
        op_fault(
            index,
            "perspective"@,
            "specify exactly one form — either quad or vertical_degrees/horizontal_degrees, not both"@,
        )
    } else if quad is None && !keystone {
        op_fault(
            index,
            "perspective"@,
            "one form is required — quad (4 points, tl/tr/br/bl) or vertical_degrees/horizontal_degrees"@,
        )
    } else {
        first_fault(
            quad_fault(index, quad),
            first_fault(
                keystone_fault(index, "vertical_degrees"@, vertical_degrees),
                first_fault(
                    keystone_fault(index, "horizontal_degrees"@, horizontal_degrees),
                    pad_color_fault(index, pad_color),
                ),
            ),
        )
    }
}

/// Checks a quadrilateral.
fn validate_quad(index: usize, quad: &Option<Quad>) -> (r: Result<(), AtxError>)
    ensures
        verdict(r) == quad_fault(index as int, *quad),
{
    let q: &Quad = match quad {
        None => {
            return Ok(());
        },
        Some(q) => q,
    };
    let mut i: usize = 0;
    while i < 4
        invariant
            i <= 4,
            q.corners@.len() == 4,
            *quad == Some(*q),
            corner_fault(index as int, q.corners@, 0) == corner_fault(
                index as int,
                q.corners@,
                i as int,
            ),
        decreases 4 - i,
    {
        let corner: &[Number; 2] = &q.corners[i];
        if !is_finite(corner[0].bits) || !is_finite(corner[1].bits) {
            let number: String = dec(i as u64);
            let message: String = cat5(
                "quad[",
                number.as_str(),
                "] has a non-finite coordinate (",
                corner[0].text.as_str(),
                ", ",
            );
            let message: String = cat3(message.as_str(), corner[1].text.as_str(), ")");
            return Err(op_error(index, "perspective", message.as_str()));
        }
        i = i + 1;
    }
    if !to_outline(q).turns_clockwise() {
        let message: String = cat3(
            "quad must be a strictly convex quadrilateral listed as tl, tr, br, bl (clockwise on screen, y pointing down); got ",
            q.text.as_str(),
            " which is concave, self-intersecting, degenerate, or in the wrong order",
        );
        return Err(op_error(index, "perspective", message.as_str()));
    }
    Ok(())
}

/// Checks a keystone angle.
fn validate_keystone(index: usize, name: &str, degrees: &Option<Number>) -> (r: Result<
    (),
    AtxError,
>)
    ensures
        verdict(r) == keystone_fault(index as int, name@, *degrees),
{
    match degrees {
        None => {},
        Some(d) => {
            if !is_within(d.bits, MINUS_FORTY_FIVE, FORTY_FIVE) {
                let message: String = cat3(
                    name,
                    " must be within -45..=45, got ",
                    d.text.as_str(),
                );
                return Err(op_error(index, "perspective", message.as_str()));
            }
        },
    }
    Ok(())
}

/// Checks the parameters of `perspective`.
pub fn validate(
    index: usize,
    quad: &Option<Quad>,
    vertical_degrees: &Option<Number>,
    horizontal_degrees: &Option<Number>,
    pad_color: &Option<String>,
) -> (r: Result<(), AtxError>)
    ensures
        verdict(r) == perspective_fault(
            index as int,
            *quad,
            *vertical_degrees,
            *horizontal_degrees,
            *pad_color,
        ),
{
    let keystone: bool = vertical_degrees.is_some() || horizontal_degrees.is_some();
    if quad.is_some() && keystone {
        return Err(
            op_error(
                index,
                "perspective",
                "specify exactly one form — either quad or vertical_degrees/horizontal_degrees, not both",
            ),
        );
    }
    if quad.is_none() && !keystone {
        return Err(
            op_error(
                index,
                "perspective",
                "one form is required — quad (4 points, tl/tr/br/bl) or vertical_degrees/horizontal_degrees",
            ),
        );
    }
    match validate_quad(index, quad) {
        Err(e) => return Err(e),
        Ok(_) => {},
    }
    match validate_keystone(index, "vertical_degrees", vertical_degrees) {
        Err(e) => return Err(e),
        Ok(_) => {},
    }
    match validate_keystone(index, "horizontal_degrees", horizontal_degrees) {
        Err(e) => return Err(e),
        Ok(_) => {},
    }
    match pad_color {
        None => {},
        Some(c) => {
            if parse_hex_color(c.as_str()).is_none() {
                let color: String = quoted(c.as_str());
                let message: String = cat2(
                    "pad_color must be a CSS hex color (\"#rgb\" / \"#rrggbb\" / \"#rrggbbaa\"), got ",
                    color.as_str(),
                );
                return Err(op_error(index, "perspective", message.as_str()));
            }
        },
    }
    Ok(())
}

// The mapping. It is built in units of the longer side of the image, put on the grid, and
// then scaled to pixels.

/// The length of the unit: the longer side.
pub open spec fn unit_length(w: u32, h: u32) -> Real {
    Real::nearest_to(
        if w > h {
            w as int
        } else {
            h as int
        },
    )
}

fn norm_scale(w: u32, h: u32) -> (r: Real)
    ensures
        r == unit_length(w, h),
{
    let side: u32 = if w > h {
        w
    } else {
        h
    };
    Real::from_integer(side as i64)
}

/// A mapping between points in units as one between pixels.
#[verifier::allow_in_spec]
pub fn denormalize(h: Transform, s: Real) -> Transform
    returns
        Transform::projective(
            Transform {
                across: Row { x: h.across.x, y: h.across.y, one: h.across.one.times(s) },
                down: Row { x: h.down.x, y: h.down.y, one: h.down.one.times(s) },
                depth: Row { x: h.depth.x.over(s), y: h.depth.y.over(s), one: h.depth.one },
            },
        ),
{
    Transform::projective(
        Transform {
            across: Row { x: h.across.x, y: h.across.y, one: h.across.one.times(s) },
            down: Row { x: h.down.x, y: h.down.y, one: h.down.one.times(s) },
            depth: Row { x: h.depth.x.over(s), y: h.depth.y.over(s), one: h.depth.one },
        },
    )
}

/// The mapping that takes out a keystone: everything is divided by
/// `1 + (tan_h X + tan_v Y) / f`, where `X` and `Y` are measured from the middle and `f` is
/// the longer side.
pub open spec fn keystone(tan_v: Real, tan_h: Real, w: u32, h: u32) -> Transform {
    let tilt = Transform {
        depth: Row { x: quantize_1e6(tan_h), y: quantize_1e6(tan_v), one: Real { bits: ONE } },
        ..Transform::identity()
    };
    let m = middle(w, h);
    Transform::translate(m.x.negated(), m.y.negated()).followed_by(
        denormalize(Transform::projective(tilt).quantized(), unit_length(w, h)),
    ).followed_by(Transform::translate(m.x, m.y))
}

/// The mapping that takes out a keystone. The tangents of the angles are given.
pub fn keystone_homography(tan_v: Real, tan_h: Real, w: u32, h: u32) -> (r: Transform)
    ensures
        r == keystone(tan_v, tan_h, w, h),
{
    let plain: Transform = Transform::identity();
    let tilt: Transform = Transform {
        across: plain.across,
        down: plain.down,
        depth: Row { x: quantize_1e6(tan_h), y: quantize_1e6(tan_v), one: Real { bits: ONE } },
    };
    let normalized: Transform = Transform::projective(tilt).quantized();
    let centered: Transform = denormalize(normalized, norm_scale(w, h));
    let m: Point = middle(w, h);
    Transform::translate(m.x.negated(), m.y.negated()).followed_by(centered).followed_by(
        Transform::translate(m.x, m.y),
    )
}

/// The distance between two points, on the grid.
#[verifier::allow_in_spec]
pub fn edge(a: Point, b: Point) -> Real
    returns
        quantize_1e6(
            b.x.minus(a.x).times(b.x.minus(a.x)).plus(
                b.y.minus(a.y).times(b.y.minus(a.y)),
            ).root(),
        ),
{
    let dx: Real = b.x.minus(a.x);
    let dy: Real = b.y.minus(a.y);
    quantize_1e6(dx.times(dx).plus(dy.times(dy)).root())
}

/// The mean of two lengths.
#[verifier::allow_in_spec]
pub fn mean(a: Real, b: Real) -> Real
    returns
        a.plus(b).over(Real { bits: TWO }),
{
    a.plus(b).over(Real { bits: TWO })
}

/// The size of the rectangle that a quadrilateral becomes: the means of opposite sides.
pub open spec fn straight_size(q: Outline) -> (u32, u32) {
    (
        length_or_none(mean(edge(q.tl, q.tr), edge(q.bl, q.br))),
        length_or_none(mean(edge(q.tl, q.bl), edge(q.tr, q.br))),
    )
}

/// A point in units.
#[verifier::allow_in_spec]
pub fn point_over(p: Point, s: Real) -> Point
    returns
        (Point { x: p.x.over(s), y: p.y.over(s) }),
{
    Point { x: p.x.over(s), y: p.y.over(s) }
}

/// A quadrilateral in units.
#[verifier::allow_in_spec]
pub fn outline_over(q: Outline, s: Real) -> Outline
    returns
        (Outline {
            tl: point_over(q.tl, s),
            tr: point_over(q.tr, s),
            br: point_over(q.br, s),
            bl: point_over(q.bl, s),
        }),
{
    Outline {
        tl: point_over(q.tl, s),
        tr: point_over(q.tr, s),
        br: point_over(q.br, s),
        bl: point_over(q.bl, s),
    }
}

/// An upright rectangle at the origin.
#[verifier::allow_in_spec]
pub fn upright(w: Real, h: Real) -> Outline
    returns
        (Outline {
            tl: Point { x: Real { bits: ZERO }, y: Real { bits: ZERO } },
            tr: Point { x: w, y: Real { bits: ZERO } },
            br: Point { x: w, y: h },
            bl: Point { x: Real { bits: ZERO }, y: h },
        }),
{
    let o: Real = Real { bits: ZERO };
    Outline {
        tl: Point { x: o, y: o },
        tr: Point { x: w, y: o },
        br: Point { x: w, y: h },
        bl: Point { x: o, y: h },
    }
}

// Four pairs of points give eight linear equations for the entries of a mapping. They are
// solved by elimination with the largest pivot. A system is held row by row, nine numbers
// each: eight factors and the right-hand side.

/// Entry `c` of row `r` of the equations.
pub open spec fn equation(from: Outline, to: Outline, r: int, c: int) -> Real {
    let p = corner_at(from, r / 2);
    let q = corner_at(to, r / 2);
    let zero = Real { bits: ZERO };
    let one = Real { bits: ONE };
    let target = if r % 2 == 0 {
        q.x
    } else {
        q.y
    };
    let k = if r % 2 == 0 {
        c
    } else {
        c - 3
    };
    if c == 6 {
        target.negated().times(p.x)
    } else if c == 7 {
        target.negated().times(p.y)
    } else if c == 8 {
        target
    } else if k == 0 {
        p.x
    } else if k == 1 {
        p.y
    } else if k == 2 {
        one
    } else {
        zero
    }
}

/// Corner `i` of a quadrilateral.
pub open spec fn corner_at(q: Outline, i: int) -> Point {
    if i == 0 {
        q.tl
    } else if i == 1 {
        q.tr
    } else if i == 2 {
        q.br
    } else {
        q.bl
    }
}

/// The equations.
pub open spec fn equations(from: Outline, to: Outline) -> Seq<Real> {
    Seq::new(72, |i: int| equation(from, to, i / 9, i % 9))
}

/// The row from `col` up to `end` whose entry in column `col` is the largest; the first one
/// of equals.
pub open spec fn pivot_row(m: Seq<Real>, col: int, end: int) -> int
    decreases end - col,
{
    if end <= col + 1 {
        col
    } else {
        let best = pivot_row(m, col, end - 1);
        if m[9 * best + col].absolute().below(m[9 * (end - 1) + col].absolute()) {
            end - 1
        } else {
            best
        }
    }
}

/// Two rows exchanged.
pub open spec fn exchanged(m: Seq<Real>, a: int, b: int) -> Seq<Real> {
    Seq::new(
        72,
        |i: int|
            if i / 9 == a {
                m[9 * b + i % 9]
            } else if i / 9 == b {
                m[9 * a + i % 9]
            } else {
                m[i]
            },
    )
}

/// An entry after row `col` has been taken from the rows below it.
pub open spec fn reduced_entry(m: Seq<Real>, col: int, i: int) -> Real {
    let factor = m[9 * (i / 9) + col].over(m[9 * col + col]);
    if i / 9 > col && i % 9 >= col && !factor.same(Real { bits: ZERO }) {
        m[i].minus(factor.times(m[9 * col + i % 9]))
    } else {
        m[i]
    }
}

/// The system after row `col` has been taken from the rows below it.
pub open spec fn reduced(m: Seq<Real>, col: int) -> Seq<Real> {
    Seq::new(72, |i: int| reduced_entry(m, col, i))
}

/// The system after the first `n` columns; none where a pivot is too small.
pub open spec fn eliminated(m: Seq<Real>, n: nat) -> Option<Seq<Real>>
    decreases n,
{
    if n == 0 {
        Some(m)
    } else {
        let col = n - 1;
        match eliminated(m, (n - 1) as nat) {
            None => None,
            Some(before) => {
                let p = pivot_row(before, col, 8);
                if before[9 * p + col].absolute().below(Real { bits: AT_ZERO }) {
                    None
                } else {
                    Some(reduced(exchanged(before, col, p), col))
                }
            },
        }
    }
}

/// The right-hand side of row `col` less the first `n` known terms; `known` are the unknowns
/// from `col + 1` on.
pub open spec fn rest(m: Seq<Real>, col: int, known: Seq<Real>, n: nat) -> Real
    decreases n,
{
    if n == 0 {
        m[9 * col + 8]
    } else {
        rest(m, col, known, (n - 1) as nat).minus(m[9 * col + col + n].times(known[n - 1]))
    }
}

/// The unknowns from `8 - n` on.
pub open spec fn unknowns(m: Seq<Real>, n: nat) -> Seq<Real>
    decreases n,
{
    if n == 0 {
        Seq::empty()
    } else {
        let col = 8 - n;
        let known = unknowns(m, (n - 1) as nat);
        seq![rest(m, col, known, (n - 1) as nat).over(m[9 * col + col])] + known
    }
}

/// Every number is finite.
pub open spec fn all_bounded(s: Seq<Real>) -> bool {
    forall|i: int| 0 <= i < s.len() ==> is_bounded(#[trigger] s[i])
}

/// The mapping with eight given entries, and 1 for the last.
pub open spec fn mapping_of(x: Seq<Real>) -> Transform {
    Transform::projective(
        Transform {
            across: Row { x: x[0], y: x[1], one: x[2] },
            down: Row { x: x[3], y: x[4], one: x[5] },
            depth: Row { x: x[6], y: x[7], one: Real { bits: ONE } },
        },
    )
}

/// The mapping that takes four points to four others; none where the equations do not give
/// one.
pub open spec fn mapping_between(from: Outline, to: Outline) -> Option<Transform> {
    match eliminated(equations(from, to), 8) {
        None => None,
        Some(m) => if all_bounded(unknowns(m, 8)) {
            Some(mapping_of(unknowns(m, 8)))
        } else {
            None
        },
    }
}

fn find_corner(q: Outline, i: usize) -> (r: Point)
    ensures
        r == corner_at(q, i as int),
{
    if i == 0 {
        q.tl
    } else if i == 1 {
        q.tr
    } else if i == 2 {
        q.br
    } else {
        q.bl
    }
}

fn find_entry(from: Outline, to: Outline, r: usize, c: usize) -> (e: Real)
    requires
        r < 8,
        c < 9,
    ensures
        e == equation(from, to, r as int, c as int),
{
    let p: Point = find_corner(from, r / 2);
    let q: Point = find_corner(to, r / 2);
    let target: Real = if r % 2 == 0 {
        q.x
    } else {
        q.y
    };
    let shift: usize = if r % 2 == 0 {
        0
    } else {
        3
    };
    if c == 6 {
        target.negated().times(p.x)
    } else if c == 7 {
        target.negated().times(p.y)
    } else if c == 8 {
        target
    } else if c == shift {
        p.x
    } else if c == shift + 1 {
        p.y
    } else if c == shift + 2 {
        Real { bits: ONE }
    } else {
        Real { bits: ZERO }
    }
}

fn write_equations(from: Outline, to: Outline) -> (r: Vec<Real>)
    ensures
        r@ == equations(from, to),
{
    let mut r: Vec<Real> = Vec::new();
    let mut i: usize = 0;
    while i < 72
        invariant
            i <= 72,
            r@ == equations(from, to).take(i as int),
        decreases 72 - i,
    {
        r.push(find_entry(from, to, i / 9, i % 9));
        i = i + 1;
        assert(r@ =~= equations(from, to).take(i as int));
    }
    assert(r@ =~= equations(from, to));
    r
}

fn find_pivot(m: &Vec<Real>, col: usize) -> (r: usize)
    requires
        m@.len() == 72,
        col < 8,
    ensures
        r == pivot_row(m@, col as int, 8),
        col <= r < 8,
{
    let mut best: usize = col;
    let mut row: usize = col + 1;
    while row < 8
        invariant
            m@.len() == 72,
            col < row <= 8,
            col <= best < row,
            best == pivot_row(m@, col as int, row as int),
        decreases 8 - row,
    {
        if m[9 * best + col].absolute().below(m[9 * row + col].absolute()) {
            best = row;
        }
        row = row + 1;
    }
    best
}

fn exchange(m: &Vec<Real>, a: usize, b: usize) -> (r: Vec<Real>)
    requires
        m@.len() == 72,
        a < 8,
        b < 8,
    ensures
        r@ == exchanged(m@, a as int, b as int),
{
    let mut r: Vec<Real> = Vec::new();
    let mut i: usize = 0;
    while i < 72
        invariant
            m@.len() == 72,
            a < 8,
            b < 8,
            i <= 72,
            r@ == exchanged(m@, a as int, b as int).take(i as int),
        decreases 72 - i,
    {
        if i / 9 == a {
            r.push(m[9 * b + i % 9]);
        } else if i / 9 == b {
            r.push(m[9 * a + i % 9]);
        } else {
            r.push(m[i]);
        }
        i = i + 1;
        assert(r@ =~= exchanged(m@, a as int, b as int).take(i as int));
    }
    assert(r@ =~= exchanged(m@, a as int, b as int));
    r
}

fn reduce(m: &Vec<Real>, col: usize) -> (r: Vec<Real>)
    requires
        m@.len() == 72,
        col < 8,
    ensures
        r@ == reduced(m@, col as int),
{
    let mut r: Vec<Real> = Vec::new();
    let mut i: usize = 0;
    while i < 72
        invariant
            m@.len() == 72,
            col < 8,
            i <= 72,
            r@ == reduced(m@, col as int).take(i as int),
        decreases 72 - i,
    {
        let factor: Real = m[9 * (i / 9) + col].over(m[9 * col + col]);
        if i / 9 > col && i % 9 >= col && !factor.same(Real { bits: ZERO }) {
            r.push(m[i].minus(factor.times(m[9 * col + i % 9])));
        } else {
            r.push(m[i]);
        }
        i = i + 1;
        assert(r@ =~= reduced(m@, col as int).take(i as int));
    }
    assert(r@ =~= reduced(m@, col as int));
    r
}

proof fn elimination_fails(m: Seq<Real>, a: nat, b: nat)
    requires
        a <= b,
        eliminated(m, a) is None,
    ensures
        eliminated(m, b) is None,
    decreases b,
{
    if a < b {
        elimination_fails(m, a, (b - 1) as nat);
    }
}

fn eliminate(m: Vec<Real>) -> (r: Option<Vec<Real>>)
    requires
        m@.len() == 72,
    ensures
        match r {
            Some(v) => eliminated(m@, 8) == Some(v@) && v@.len() == 72,
            None => eliminated(m@, 8) is None,
        },
{
    let ghost first = m@;
    let mut now: Vec<Real> = m;
    let mut col: usize = 0;
    while col < 8
        invariant
            col <= 8,
            now@.len() == 72,
            first == m@,
            eliminated(first, col as nat) == Some(now@),
        decreases 8 - col,
    {
        let p: usize = find_pivot(&now, col);
        if now[9 * p + col].absolute().below(Real { bits: AT_ZERO }) {
            proof {
                assert(eliminated(first, (col + 1) as nat) is None);
                elimination_fails(first, (col + 1) as nat, 8);
            }
            return None;
        }
        now = reduce(&exchange(&now, col, p), col);
        col = col + 1;
    }
    Some(now)
}

fn find_unknowns(m: &Vec<Real>) -> (r: [Real; 8])
    requires
        m@.len() == 72,
    ensures
        r@ == unknowns(m@, 8),
{
    let zero: Real = Real { bits: ZERO };
    let mut x: [Real; 8] = [zero, zero, zero, zero, zero, zero, zero, zero];
    let mut n: usize = 0;
    while n < 8
        invariant
            m@.len() == 72,
            n <= 8,
            x@.len() == 8,
            x@.skip(8 - n) == unknowns(m@, n as nat),
        decreases 8 - n,
    {
        let col: usize = 7 - n;
        let ghost known = unknowns(m@, n as nat);
        let mut acc: Real = m[9 * col + 8];
        let mut k: usize = 0;
        while k < n
            invariant
                m@.len() == 72,
                n < 8,
                col == 7 - n,
                k <= n,
                x@.len() == 8,
                known == x@.skip(8 - n),
                acc == rest(m@, col as int, known, k as nat),
            decreases n - k,
        {
            assert(known[k as int] == x@[8 - n + k]);
            acc = acc.minus(m[9 * col + col + k + 1].times(x[8 - n + k]));
            k = k + 1;
        }
        x[col] = acc.over(m[9 * col + col]);
        n = n + 1;
        assert(x@.skip(8 - n) =~= unknowns(m@, n as nat));
    }
    assert(x@.skip(0) =~= x@);
    x
}

/// The mapping that takes four points to four others; none where the equations do not give
/// one.
pub fn homography_from_points(from: Outline, to: Outline) -> (r: Option<Transform>)
    ensures
        r == mapping_between(from, to),
{
    let m: Vec<Real> = match eliminate(write_equations(from, to)) {
        Some(m) => m,
        None => {
            return None;
        },
    };
    let x: [Real; 8] = find_unknowns(&m);
    let mut i: usize = 0;
    while i < 8
        invariant
            i <= 8,
            x@.len() == 8,
            x@ == unknowns(m@, 8),
            eliminated(equations(from, to), 8) == Some(m@),
            forall|k: int| 0 <= k < i ==> is_bounded(#[trigger] x@[k]),
        decreases 8 - i,
    {
        if !is_bounded(x[i]) {
            assert(!is_bounded(unknowns(m@, 8)[i as int]));
            return None;
        }
        i = i + 1;
    }
    assert(all_bounded(unknowns(m@, 8)));
    Some(
        Transform::projective(
            Transform {
                across: Row { x: x[0], y: x[1], one: x[2] },
                down: Row { x: x[3], y: x[4], one: x[5] },
                depth: Row { x: x[6], y: x[7], one: Real { bits: ONE } },
            },
        ),
    )
}

/// The mapping that makes a quadrilateral upright, in pixels.
pub open spec fn straightened(q: Outline, w: u32, h: u32) -> Transform {
    let s = unit_length(w, h);
    let size = straight_size(q);
    let to = upright(
        Real::nearest_to(size.0 as int).over(s),
        Real::nearest_to(size.1 as int).over(s),
    );
    denormalize(
        match mapping_between(outline_over(q, s), to) {
            Some(t) => t.quantized(),
            None => Transform::identity(),
        },
        s,
    )
}

/// The mapping that makes a quadrilateral upright, and the size of what it becomes.
pub fn quad_homography(q: Outline, w: u32, h: u32) -> (r: (Transform, u32, u32))
    ensures
        r.0 == straightened(q, w, h),
        (r.1, r.2) == straight_size(q),
{
    let out_w: u32 = to_length_or_none(mean(edge(q.tl, q.tr), edge(q.bl, q.br)));
    let out_h: u32 = to_length_or_none(mean(edge(q.tl, q.bl), edge(q.tr, q.br)));
    let s: Real = norm_scale(w, h);
    let to: Outline = upright(
        Real::from_integer(out_w as i64).over(s),
        Real::from_integer(out_h as i64).over(s),
    );
    let normalized: Transform = match homography_from_points(outline_over(q, s), to) {
        Some(t) => t.quantized(),
        None => Transform::identity(),
    };
    (denormalize(normalized, s), out_w, out_h)
}

/// What a correction does: its mapping and the way back, the size of the result and the
/// colour of what has no source.
#[derive(Clone, Copy, Debug, PartialEq, Eq, Structural)]
pub struct Plan {
    pub step: Transform,
    pub inverse: Transform,
    pub out_w: u32,
    pub out_h: u32,
    pub pad: Rgba,
}

/// The mapping of a correction and the size of its result. The tangents of the keystone
/// angles are given.
pub open spec fn correction(quad: Option<Quad>, tan_v: Real, tan_h: Real, w: u32, h: u32) -> (
    Transform,
    (u32, u32),
) {
    match quad {
        Some(q) => (straightened(outline(q), w, h), straight_size(outline(q))),
        None => (keystone(tan_v, tan_h, w, h), (w, h)),
    }
}

/// The padding colour: white where none is given.
pub open spec fn padding(pad_color: Option<String>) -> Option<Rgba> {
    match pad_color {
        None => Some(Rgba { r: 255, g: 255, b: 255, a: 255 }),
        Some(c) => match hex_color_value(c@) {
            Some(v) => Some(Rgba { r: v[0], g: v[1], b: v[2], a: v[3] }),
            None => None,
        },
    }
}

/// Reads the padding colour.
pub(crate) fn read_padding(pad_color: &Option<String>) -> (r: Option<Rgba>)
    ensures
        r == padding(*pad_color),
{
    match pad_color {
        None => Some(Rgba { r: 255, g: 255, b: 255, a: 255 }),
        Some(c) => match parse_hex_color(c.as_str()) {
            Some(v) => Some(Rgba { r: v[0], g: v[1], b: v[2], a: v[3] }),
            None => None,
        },
    }
}

/// What stops a correction.
pub open spec fn plan_fault(
    w: u32,
    h: u32,
    quad: Option<Quad>,
    tan_v: Real,
    tan_h: Real,
    pad_color: Option<String>,
) -> Option<Fault> {
    if w == 0 || h == 0 {
        Some(Fault::InvalidRecipe("perspective: input image is empty"@))
    } else if padding(pad_color) is None {
        Some(
            Fault::InvalidRecipe("perspective: invalid pad_color "@ + debug_text(pad_color->0@)),
        )
    } else if correction(quad, tan_v, tan_h, w, h).0.inverted() is None {
        Some(Fault::InvalidRecipe("perspective: the transform is singular"@))
    } else {
        None
    }
}

/// Finds out what a correction does.
pub fn plan(
    w: u32,
    h: u32,
    quad: &Option<Quad>,
    tan_v: Real,
    tan_h: Real,
    pad_color: &Option<String>,
) -> (r: Result<Plan, AtxError>)
    ensures
        match r {
            Ok(p) => {
                &&& plan_fault(w, h, *quad, tan_v, tan_h, *pad_color) is None
                &&& (p.step, (p.out_w, p.out_h)) == correction(*quad, tan_v, tan_h, w, h)
                &&& Some(p.inverse) == p.step.inverted()
                &&& Some(p.pad) == padding(*pad_color)
            },
            Err(e) => plan_fault(w, h, *quad, tan_v, tan_h, *pad_color) == Some(e@),
        },
{
    if w == 0 || h == 0 {
        return Err(AtxError::InvalidRecipe("perspective: input image is empty".to_owned()));
    }
    let pad: Rgba = match read_padding(pad_color) {
        Some(p) => p,
        None => {
            match pad_color {
                Some(c) => {
                    let color: String = quoted(c.as_str());
                    return Err(
                        AtxError::InvalidRecipe(
                            cat2("perspective: invalid pad_color ", color.as_str()),
                        ),
                    );
                },
                None => {
                    return Err(AtxError::InvalidRecipe(String::new()));
                },
            }
        },
    };
    let (step, out_w, out_h): (Transform, u32, u32) = match quad {
        Some(q) => quad_homography(to_outline(q), w, h),
        None => (keystone_homography(tan_v, tan_h, w, h), w, h),
    };
    match step.inverse() {
        None => Err(AtxError::InvalidRecipe("perspective: the transform is singular".to_owned())),
        Some(inverse) => Ok(Plan { step, inverse, out_w, out_h, pad }),
    }
}

/// The mapping of pixel centres, whose coordinates are half a pixel less.
#[verifier::allow_in_spec]
pub fn index_space(step: Transform) -> Transform
    returns
        Transform::translate(Real { bits: HALF }, Real { bits: HALF }).followed_by(
            step,
        ).followed_by(
            Transform::translate(
                (Real { bits: HALF }).negated(),
                (Real { bits: HALF }).negated(),
            ),
        ),
{
    let half: Real = Real { bits: HALF };
    Transform::translate(half, half).followed_by(step).followed_by(
        Transform::translate(half.negated(), half.negated()),
    )
}

/// The nine entries of a matrix in binary32, row by row.
pub open spec fn short_matrix(m: Transform) -> Seq<Real32> {
    seq![
        m.across.x.narrowed(),
        m.across.y.narrowed(),
        m.across.one.narrowed(),
        m.down.x.narrowed(),
        m.down.y.narrowed(),
        m.down.one.narrowed(),
        m.depth.x.narrowed(),
        m.depth.y.narrowed(),
        m.depth.one.narrowed(),
    ]
}

/// The matrix that the interpolation works with.
pub fn warp_matrix(step: Transform) -> (r: [Real32; 9])
    ensures
        r@ == short_matrix(index_space(step)),
{
    let m: Transform = index_space(step);
    let r: [Real32; 9] = [
        m.across.x.narrowed(),
        m.across.y.narrowed(),
        m.across.one.narrowed(),
        m.down.x.narrowed(),
        m.down.y.narrowed(),
        m.down.one.narrowed(),
        m.depth.x.narrowed(),
        m.depth.y.narrowed(),
        m.depth.one.narrowed(),
    ];
    assert(r@ =~= short_matrix(m));
    r
}

/// Whether a pixel of the result has no source: its middle is not mapped back into the image.
#[verifier::allow_in_spec]
pub fn is_padding(inverse: Transform, in_w: u32, in_h: u32, x: u32, y: u32) -> bool
    returns
        ({
            let p = inverse.map(
                Real::nearest_to(x as int).plus(Real { bits: HALF }),
                Real::nearest_to(y as int).plus(Real { bits: HALF }),
            );
            !is_bounded(p.x) || !is_bounded(p.y) || p.x.below(Real { bits: ZERO }) || p.y.below(
                Real { bits: ZERO },
            ) || Real::nearest_to(in_w as int).at_most(p.x) || Real::nearest_to(
                in_h as int,
            ).at_most(p.y)
        }),
{
    let half: Real = Real { bits: HALF };
    let zero: Real = Real { bits: ZERO };
    let p: Point = inverse.map(
        Real::from_integer(x as i64).plus(half),
        Real::from_integer(y as i64).plus(half),
    );
    !is_bounded(p.x) || !is_bounded(p.y) || p.x.below(zero) || p.y.below(zero)
        || Real::from_integer(in_w as i64).at_most(p.x) || Real::from_integer(
        in_h as i64,
    ).at_most(p.y)
}

/// How many pixels have no source, in the rows before `y` and in row `y` before column `x`.
pub open spec fn padded_before(
    inverse: Transform,
    plan: Plan,
    in_w: u32,
    in_h: u32,
    y: nat,
    x: nat,
) -> nat
    decreases y, x,
{
    if x > 0 {
        padded_before(inverse, plan, in_w, in_h, y, (x - 1) as nat) + (if is_padding(
            inverse,
            in_w,
            in_h,
            (x - 1) as u32,
            y as u32,
        ) {
            1nat
        } else {
            0nat
        })
    } else if y > 0 {
        padded_before(inverse, plan, in_w, in_h, (y - 1) as nat, plan.out_w as nat)
    } else {
        0
    }
}

/// The part of the result that has no source.
pub open spec fn padded_part(plan: Plan, in_w: u32, in_h: u32) -> Real {
    Real::nearest_to(
        padded_before(plan.inverse, plan, in_w, in_h, plan.out_h as nat, 0) as int,
    ).over(Real::nearest_to(plan.out_w as int).times(Real::nearest_to(plan.out_h as int)))
}

/// The part of the result that has no source.
pub fn padding_ratio(plan: Plan, in_w: u32, in_h: u32) -> (r: Real)
    ensures
        r == padded_part(plan, in_w, in_h),
{
    let inverse: Transform = plan.inverse;
    let w: u32 = plan.out_w;
    let h: u32 = plan.out_h;
    let mut padded: u64 = 0;
    let mut y: u32 = 0;
    proof {
        assert(0 * w == 0) by (nonlinear_arith);
    }
    while y < h
        invariant
            inverse == plan.inverse,
            w == plan.out_w,
            h == plan.out_h,
            y <= h,
            padded == padded_before(inverse, plan, in_w, in_h, y as nat, 0),
            padded <= y * w,
        decreases h - y,
    {
        let mut x: u32 = 0;
        while x < w
            invariant
                inverse == plan.inverse,
                w == plan.out_w,
                h == plan.out_h,
                y < h,
                x <= w,
                padded == padded_before(inverse, plan, in_w, in_h, y as nat, x as nat),
                padded <= y * w + x,
            decreases w - x,
        {
            proof {
                assert(y * w + x < 0xFFFF_FFFF_FFFF_FFFF) by (nonlinear_arith)
                    requires
                        y < 0xFFFF_FFFF,
                        w <= 0xFFFF_FFFF,
                        x < w,
                ;
            }
            if is_padding(inverse, in_w, in_h, x, y) {
                padded = padded + 1;
            }
            x = x + 1;
        }
        proof {
            assert(y * w + w == (y + 1) * w) by (nonlinear_arith);
        }
        y = y + 1;
    }
    Real::from_whole(padded as u128).over(
        Real::from_integer(w as i64).times(Real::from_integer(h as i64)),
    )
}

/// What is said of a result that has parts without a source.
pub open spec fn padding_text(part: Real, w: u32, h: u32) -> Seq<char> {
    percent_text(part.times(Real { bits: HUNDRED })) + "% of the "@ + size_text(w, h)
        + " output is padding (areas with no source pixel behind them)"@
}

/// Warns of a result that has parts without a source.
pub fn padding_warning(plan: Plan, in_w: u32, in_h: u32) -> (r: Option<String>)
    ensures
        ({
            let part = padded_part(plan, in_w, in_h);
            match r {
                Some(m) => (Real { bits: ZERO }).below(part) && m@ == padding_text(
                    part,
                    plan.out_w,
                    plan.out_h,
                ),
                None => !(Real { bits: ZERO }).below(part),
            }
        }),
{
    let part: Real = padding_ratio(plan, in_w, in_h);
    let zero: Real = Real { bits: ZERO };
    if !zero.below(part) {
        return None;
    }
    let percent: String = show_percent(part.times(Real { bits: HUNDRED }));
    let size: String = show_size(plan.out_w, plan.out_h);
    Some(
        cat4(
            percent.as_str(),
            "% of the ",
            size.as_str(),
            " output is padding (areas with no source pixel behind them)",
        ),
    )
}

/// What is said where the interpolation cannot turn the mapping round.
pub fn not_invertible() -> (r: AtxError)
    ensures
        r@ == Fault::InvalidRecipe("perspective: the transform is not invertible"@),
{
    AtxError::InvalidRecipe("perspective: the transform is not invertible".to_owned())
}

} // verus!
