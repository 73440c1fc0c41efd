//! Mappings of the plane: what the steps of a pipeline do to coordinates.
//!
//! Coordinates are continuous: a pixel covers a unit square, and an image of `w` by `h`
//! pixels covers the rectangle from 0 to `w` and from 0 to `h`.
use vstd::prelude::*;

use crate::binary::Real;
use crate::number::{INFINITE, MILLION, ONE, ZERO};
use crate::pixel_ops::{rect_fits, rect_text, show_rect, show_size, size_text};
use crate::recipe::Rect;
use crate::text::{cat2, cat3, cat4, cat5, signed_dec, signed_decimal};

verus! {

/// One row of a mapping: `x` times a column, `y` times a row, and a constant.
#[derive(Clone, Copy, Debug, PartialEq, Eq, Structural)]
pub struct Row {
    pub x: Real,
    pub y: Real,
    pub one: Real,
}

/// A projective mapping of the plane, by its homogeneous matrix. The image of `(x, y)` is
/// the first and the second row at it, each over the third.
#[derive(Clone, Copy, Debug, PartialEq, Eq, Structural)]
pub struct Transform {
    pub across: Row,
    pub down: Row,
    pub depth: Row,
}

/// A mapping whose third row is `0 0 1`.
pub type Affine = Transform;

/// A point.
#[derive(Clone, Copy, Debug, PartialEq, Eq, Structural)]
pub struct Point {
    pub x: Real,
    pub y: Real,
}

/// A point in homogeneous coordinates.
#[derive(Clone, Copy, Debug, PartialEq, Eq, Structural)]
pub struct Homogeneous {
    pub x: Real,
    pub y: Real,
    pub w: Real,
}

/// The ends of a box.
#[derive(Clone, Copy, Debug, PartialEq, Eq, Structural)]
pub struct Bounds {
    pub left: Real,
    pub top: Real,
    pub right: Real,
    pub bottom: Real,
}

/// 2^53, beyond which every number is whole.
pub const MAX_EXACT: u64 = 0x4340_0000_0000_0000;

/// Minus infinity.
pub const MINUS_INFINITE: u64 = 0xFFF0_0000_0000_0000;

/// A number that is neither infinite nor a NaN.
#[verifier::allow_in_spec]
pub fn is_bounded(v: Real) -> bool
    returns
        v.absolute().below(Real { bits: INFINITE }),
{
    v.absolute().below(Real { bits: INFINITE })
}

/// The number on a grid of 1e-6 that is nearest to another; halves go away from zero. A
/// number that the grid cannot hold stays as it is.
#[verifier::allow_in_spec]
pub fn quantize_1e6(v: Real) -> Real
    returns
        (if !is_bounded(v) {
            v
        } else if !v.times(Real { bits: MILLION }).absolute().below(Real { bits: MAX_EXACT }) {
            v
        } else {
            v.times(Real { bits: MILLION }).round().over(Real { bits: MILLION })
        }),
{
    let million: Real = Real { bits: MILLION };
    let scaled: Real = v.times(million);
    if !is_bounded(v) {
        v
    } else if !scaled.absolute().below(Real { bits: MAX_EXACT }) {
        v
    } else {
        scaled.round().over(million)
    }
}

impl Row {
    /// The row at a point.
    #[verifier::allow_in_spec]
    pub fn at(self, x: Real, y: Real) -> Real
        returns
            self.x.times(x).plus(self.y.times(y)).plus(self.one),
    {
        self.x.times(x).plus(self.y.times(y)).plus(self.one)
    }

    /// Every entry over a number.
    #[verifier::allow_in_spec]
    pub fn over(self, d: Real) -> Row
        returns
            (Row { x: self.x.over(d), y: self.y.over(d), one: self.one.over(d) }),
    {
        Row { x: self.x.over(d), y: self.y.over(d), one: self.one.over(d) }
    }

    /// Every entry on the grid.
    #[verifier::allow_in_spec]
    pub fn quantized(self) -> Row
        returns
            (Row {
                x: quantize_1e6(self.x),
                y: quantize_1e6(self.y),
                one: quantize_1e6(self.one),
            }),
    {
        Row { x: quantize_1e6(self.x), y: quantize_1e6(self.y), one: quantize_1e6(self.one) }
    }

    /// This row of a mapping that follows another mapping.
    #[verifier::allow_in_spec]
    pub fn after(self, first: Transform) -> Row
        returns
            (Row {
                x: self.x.times(first.across.x).plus(self.y.times(first.down.x)).plus(
                    self.one.times(first.depth.x),
                ),
                y: self.x.times(first.across.y).plus(self.y.times(first.down.y)).plus(
                    self.one.times(first.depth.y),
                ),
                one: self.x.times(first.across.one).plus(self.y.times(first.down.one)).plus(
                    self.one.times(first.depth.one),
                ),
            }),
    {
        Row {
            x: self.x.times(first.across.x).plus(self.y.times(first.down.x)).plus(
                self.one.times(first.depth.x),
            ),
            y: self.x.times(first.across.y).plus(self.y.times(first.down.y)).plus(
                self.one.times(first.depth.y),
            ),
            one: self.x.times(first.across.one).plus(self.y.times(first.down.one)).plus(
                self.one.times(first.depth.one),
            ),
        }
    }
}

/// The product of two numbers less that of two others.
#[verifier::allow_in_spec]
pub fn minor(a: Real, b: Real, c: Real, d: Real) -> Real
    returns
        a.times(b).minus(c.times(d)),
{
    a.times(b).minus(c.times(d))
}

impl Transform {
    /// The mapping that leaves every point in place.
    #[verifier::allow_in_spec]
    pub fn identity() -> Transform
        returns
            (Transform {
                across: Row { x: Real { bits: ONE }, y: Real { bits: ZERO }, one: Real { bits: ZERO } },
                down: Row { x: Real { bits: ZERO }, y: Real { bits: ONE }, one: Real { bits: ZERO } },
                depth: Row { x: Real { bits: ZERO }, y: Real { bits: ZERO }, one: Real { bits: ONE } },
            }),
    {
        let o: Real = Real { bits: ZERO };
        let i: Real = Real { bits: ONE };
        Transform {
            across: Row { x: i, y: o, one: o },
            down: Row { x: o, y: i, one: o },
            depth: Row { x: o, y: o, one: i },
        }
    }

    /// The affine mapping to `(a x + b y + tx, c x + d y + ty)`.
    #[verifier::allow_in_spec]
    pub fn linear(a: Real, b: Real, tx: Real, c: Real, d: Real, ty: Real) -> Transform
        returns
            (Transform {
                across: Row { x: a, y: b, one: tx },
                down: Row { x: c, y: d, one: ty },
                depth: Transform::identity().depth,
            }),
    {
        Transform {
            across: Row { x: a, y: b, one: tx },
            down: Row { x: c, y: d, one: ty },
            depth: Transform::identity().depth,
        }
    }

    /// A shift.
    #[verifier::allow_in_spec]
    pub fn translate(dx: Real, dy: Real) -> Transform
        returns
            Transform::linear(
                Real { bits: ONE },
                Real { bits: ZERO },
                dx,
                Real { bits: ZERO },
                Real { bits: ONE },
                dy,
            ),
    {
        let o: Real = Real { bits: ZERO };
        let i: Real = Real { bits: ONE };
        Transform::linear(i, o, dx, o, i, dy)
    }

    /// A change of scale about the origin.
    #[verifier::allow_in_spec]
    pub fn scale(sx: Real, sy: Real) -> Transform
        returns
            Transform::linear(
                sx,
                Real { bits: ZERO },
                Real { bits: ZERO },
                Real { bits: ZERO },
                sy,
                Real { bits: ZERO },
            ),
    {
        let o: Real = Real { bits: ZERO };
        Transform::linear(sx, o, o, o, sy, o)
    }

    /// A mapping with its matrix divided by its last entry, where that can be done.
    #[verifier::allow_in_spec]
    pub fn projective(m: Transform) -> Transform
        returns
            (if is_bounded(m.depth.one) && !m.depth.one.same(Real { bits: ZERO })
                && !m.depth.one.same(Real { bits: ONE }) {
                Transform {
                    across: m.across.over(m.depth.one),
                    down: m.down.over(m.depth.one),
                    depth: m.depth.over(m.depth.one),
                }
            } else {
                m
            }),
    {
        let d: Real = m.depth.one;
        if is_bounded(d) && !d.same(Real { bits: ZERO }) && !d.same(Real { bits: ONE }) {
            Transform {
                across: m.across.over(d),
                down: m.down.over(d),
                depth: m.depth.over(d),
            }
        } else {
            m
        }
    }

    /// A turn about `from` that puts it at `to`. The sine and the cosine of the angle are
    /// given; a positive angle turns clockwise on an image.
    #[verifier::allow_in_spec]
    pub fn rotate_about(sine: Real, cosine: Real, from: Point, to: Point) -> Transform
        returns
            Transform::linear(
                cosine,
                sine.negated(),
                to.x.minus(cosine.times(from.x).minus(sine.times(from.y))),
                sine,
                cosine,
                to.y.minus(sine.times(from.x).plus(cosine.times(from.y))),
            ),
    {
        Transform::linear(
            cosine,
            sine.negated(),
            to.x.minus(cosine.times(from.x).minus(sine.times(from.y))),
            sine,
            cosine,
            to.y.minus(sine.times(from.x).plus(cosine.times(from.y))),
        )
    }

    /// This mapping and another one after it.
    #[verifier::allow_in_spec]
    pub fn followed_by(self, next: Transform) -> Transform
        returns
            (Transform {
                across: next.across.after(self),
                down: next.down.after(self),
                depth: next.depth.after(self),
            }),
    {
        Transform {
            across: next.across.after(self),
            down: next.down.after(self),
            depth: next.depth.after(self),
        }
    }

    /// The image of a point in homogeneous coordinates.
    #[verifier::allow_in_spec]
    pub fn map_homogeneous(self, x: Real, y: Real) -> Homogeneous
        returns
            (Homogeneous {
                x: self.across.at(x, y),
                y: self.down.at(x, y),
                w: self.depth.at(x, y),
            }),
    {
        Homogeneous { x: self.across.at(x, y), y: self.down.at(x, y), w: self.depth.at(x, y) }
    }

    /// The image of a point.
    #[verifier::allow_in_spec]
    pub fn map(self, x: Real, y: Real) -> Point
        returns
            (Point {
                x: self.across.at(x, y).over(self.depth.at(x, y)),
                y: self.down.at(x, y).over(self.depth.at(x, y)),
            }),
    {
        let h: Homogeneous = self.map_homogeneous(x, y);
        Point { x: h.x.over(h.w), y: h.y.over(h.w) }
    }

    /// The matrix of cofactors, turned over.
    #[verifier::allow_in_spec]
    pub fn adjugate(self) -> Transform
        returns
            (Transform {
                across: Row {
                    x: minor(self.down.y, self.depth.one, self.down.one, self.depth.y),
                    y: minor(self.across.one, self.depth.y, self.across.y, self.depth.one),
                    one: minor(self.across.y, self.down.one, self.across.one, self.down.y),
                },
                down: Row {
                    x: minor(self.down.one, self.depth.x, self.down.x, self.depth.one),
                    y: minor(self.across.x, self.depth.one, self.across.one, self.depth.x),
                    one: minor(self.across.one, self.down.x, self.across.x, self.down.one),
                },
                depth: Row {
                    x: minor(self.down.x, self.depth.y, self.down.y, self.depth.x),
                    y: minor(self.across.y, self.depth.x, self.across.x, self.depth.y),
                    one: minor(self.across.x, self.down.y, self.across.y, self.down.x),
                },
            }),
    {
        let a: Row = self.across;
        let b: Row = self.down;
        let c: Row = self.depth;
        Transform {
            across: Row {
                x: minor(b.y, c.one, b.one, c.y),
                y: minor(a.one, c.y, a.y, c.one),
                one: minor(a.y, b.one, a.one, b.y),
            },
            down: Row {
                x: minor(b.one, c.x, b.x, c.one),
                y: minor(a.x, c.one, a.one, c.x),
                one: minor(a.one, b.x, a.x, b.one),
            },
            depth: Row {
                x: minor(b.x, c.y, b.y, c.x),
                y: minor(a.y, c.x, a.x, c.y),
                one: minor(a.x, b.y, a.y, b.x),
            },
        }
    }

    /// The determinant, from the matrix of cofactors.
    #[verifier::allow_in_spec]
    pub fn determinant(self, adjugate: Transform) -> Real
        returns
            self.across.x.times(adjugate.across.x).plus(
                self.across.y.times(adjugate.down.x),
            ).plus(self.across.one.times(adjugate.depth.x)),
    {
        self.across.x.times(adjugate.across.x).plus(self.across.y.times(adjugate.down.x)).plus(
            self.across.one.times(adjugate.depth.x),
        )
    }

    /// The mapping back; none where the determinant is zero or not finite.
    pub open spec fn inverted(self) -> Option<Transform> {
        let c = self.adjugate();
        let det = self.determinant(c);
        if !is_bounded(det) || det.same(Real { bits: ZERO }) {
            None
        } else {
            Some(
                Transform::projective(
                    Transform {
                        across: c.across.over(det),
                        down: c.down.over(det),
                        depth: c.depth.over(det),
                    },
                ),
            )
        }
    }

    /// The mapping back; none where the determinant is zero or not finite.
    pub fn inverse(self) -> (r: Option<Transform>)
        ensures
            r == self.inverted(),
    {
        let c: Transform = self.adjugate();
        let det: Real = self.determinant(c);
        if !is_bounded(det) || det.same(Real { bits: ZERO }) {
            return None;
        }
        Some(
            Transform::projective(
                Transform {
                    across: c.across.over(det),
                    down: c.down.over(det),
                    depth: c.depth.over(det),
                },
            ),
        )
    }

    /// Whether the third row is `0 0 1`.
    #[verifier::allow_in_spec]
    pub fn is_affine(self) -> bool
        returns
            (self.depth.x.same(Real { bits: ZERO }) && self.depth.y.same(Real { bits: ZERO })
                && self.depth.one.same(Real { bits: ONE })),
    {
        self.depth.x.same(Real { bits: ZERO }) && self.depth.y.same(Real { bits: ZERO })
            && self.depth.one.same(Real { bits: ONE })
    }

    /// The mapping with its matrix divided by its last entry and put on a grid of 1e-6.
    #[verifier::allow_in_spec]
    pub fn quantized(self) -> Transform
        returns
            (Transform {
                across: Transform::projective(self).across.quantized(),
                down: Transform::projective(self).down.quantized(),
                depth: Transform::projective(self).depth.quantized(),
            }),
    {
        let n: Transform = Transform::projective(self);
        Transform {
            across: n.across.quantized(),
            down: n.down.quantized(),
            depth: n.depth.quantized(),
        }
    }

    /// Whether the image of a point lies in front of the horizon.
    #[verifier::allow_in_spec]
    pub fn is_in_front(self, x: Real, y: Real) -> bool
        returns
            (is_bounded(self.depth.at(x, y)) && (Real { bits: ZERO }).below(self.depth.at(x, y))),
    {
        let w: Real = self.depth.at(x, y);
        let zero: Real = Real { bits: ZERO };
        is_bounded(w) && zero.below(w)
    }

    /// The box round the images of the four corners of a rectangle; none where a corner does
    /// not lie in front of the horizon.
    pub open spec fn box_of(self, x: Real, y: Real, w: Real, h: Real) -> Option<Bounds> {
        let right = x.plus(w);
        let bottom = y.plus(h);
        if !self.is_in_front(x, y) || !self.is_in_front(right, y) || !self.is_in_front(x, bottom)
            || !self.is_in_front(right, bottom) {
            None
        } else {
            Some(
                nothing().with(self.map(x, y)).with(self.map(right, y)).with(
                    self.map(x, bottom),
                ).with(self.map(right, bottom)),
            )
        }
    }

    /// The box round the images of the four corners of a rectangle; none where a corner does
    /// not lie in front of the horizon.
    pub fn map_box(self, x: Real, y: Real, w: Real, h: Real) -> (r: Option<Bounds>)
        ensures
            r == self.box_of(x, y, w, h),
    {
        let right: Real = x.plus(w);
        let bottom: Real = y.plus(h);
        if !self.is_in_front(x, y) || !self.is_in_front(right, y) || !self.is_in_front(x, bottom)
            || !self.is_in_front(right, bottom) {
            return None;
        }
        Some(
            nothing().with(self.map(x, y)).with(self.map(right, y)).with(self.map(x, bottom)).with(
                self.map(right, bottom),
            ),
        )
    }
}

/// The box round no point.
#[verifier::allow_in_spec]
pub fn nothing() -> Bounds
    returns
        (Bounds {
            left: Real { bits: INFINITE },
            top: Real { bits: INFINITE },
            right: Real { bits: MINUS_INFINITE },
            bottom: Real { bits: MINUS_INFINITE },
        }),
{
    Bounds {
        left: Real { bits: INFINITE },
        top: Real { bits: INFINITE },
        right: Real { bits: MINUS_INFINITE },
        bottom: Real { bits: MINUS_INFINITE },
    }
}

impl Bounds {
    /// The box widened to hold a point.
    #[verifier::allow_in_spec]
    pub fn with(self, p: Point) -> Bounds
        returns
            (Bounds {
                left: self.left.smaller(p.x),
                top: self.top.smaller(p.y),
                right: self.right.larger(p.x),
                bottom: self.bottom.larger(p.y),
            }),
    {
        Bounds {
            left: self.left.smaller(p.x),
            top: self.top.smaller(p.y),
            right: self.right.larger(p.x),
            bottom: self.bottom.larger(p.y),
        }
    }

    /// Whether every end is finite.
    #[verifier::allow_in_spec]
    pub fn is_finite(self) -> bool
        returns
            (is_bounded(self.left) && is_bounded(self.top) && is_bounded(self.right)
                && is_bounded(self.bottom)),
    {
        is_bounded(self.left) && is_bounded(self.top) && is_bounded(self.right) && is_bounded(
            self.bottom,
        )
    }
}

/// The ends of a rectangle in whole pixels.
#[derive(Clone, Copy, Debug, PartialEq, Eq, Structural)]
pub struct Ends {
    pub left: i64,
    pub top: i64,
    pub right: i64,
    pub bottom: i64,
}

/// A rectangle of the source in the coordinates of the current image.
#[derive(Clone, Copy, Debug)]
pub struct MappedRect {
    /// The part of it inside the current image.
    pub rect: Rect,
    /// Whether part of it lay outside.
    pub clamped: bool,
    /// Where it lay, before it was cut to the image.
    pub raw: Ends,
}

/// A coordinate, or the end of the range from 0 to `size` that it is beyond.
#[verifier::allow_in_spec]
pub fn in_range(v: i64, size: u32) -> i64
    returns
        (if v < 0 {
            0i64
        } else if v > size {
            size as i64
        } else {
            v
        }),
{
    if v < 0 {
        0
    } else if v > size as i64 {
        size as i64
    } else {
        v
    }
}

/// The nearest whole ends of a box; halves go away from zero.
#[verifier::allow_in_spec]
pub fn whole_ends(b: Bounds) -> Ends
    returns
        (Ends {
            left: b.left.round_integer(),
            top: b.top.round_integer(),
            right: b.right.round_integer(),
            bottom: b.bottom.round_integer(),
        }),
{
    Ends {
        left: b.left.round_integer(),
        top: b.top.round_integer(),
        right: b.right.round_integer(),
        bottom: b.bottom.round_integer(),
    }
}

/// Ends cut to an image.
#[verifier::allow_in_spec]
pub fn inner_ends(raw: Ends, cur_w: u32, cur_h: u32) -> Ends
    returns
        (Ends {
            left: in_range(raw.left, cur_w),
            top: in_range(raw.top, cur_h),
            right: in_range(raw.right, cur_w),
            bottom: in_range(raw.bottom, cur_h),
        }),
{
    Ends {
        left: in_range(raw.left, cur_w),
        top: in_range(raw.top, cur_h),
        right: in_range(raw.right, cur_w),
        bottom: in_range(raw.bottom, cur_h),
    }
}

/// What is said of a rectangle that crosses the horizon.
pub open spec fn horizon_text(rect: Rect) -> Seq<char> {
    "source-space crop rect "@ + rect_text(rect)
        + " maps across the horizon of the pipeline's projective transform (a corner lands behind the camera); use coordinate_space \"current\" or a milder perspective correction"@
}

/// What is said of a rectangle whose image is not finite.
pub open spec fn degenerate_text(rect: Rect) -> Seq<char> {
    "source-space crop rect "@ + rect_text(rect)
        + " mapped to a non-finite region (the pipeline transform is degenerate)"@
}

/// Where the ends lie: `[left, right]x[top, bottom]`.
pub open spec fn ends_text(raw: Ends) -> Seq<char> {
    "["@ + signed_decimal(raw.left as int) + ", "@ + signed_decimal(
        raw.right as int,
    ) + "]x["@ + signed_decimal(raw.top as int) + ", "@ + signed_decimal(
        raw.bottom as int,
    ) + "]"@
}

/// What is said of a rectangle that lies outside the current image.
pub open spec fn outside_text(rect: Rect, raw: Ends, cur_w: u32, cur_h: u32) -> Seq<char> {
    "source-space crop rect "@ + rect_text(rect) + " maps to "@ + ends_text(raw)
        + " in the current "@ + size_text(cur_w, cur_h)
        + " image, which does not intersect it; use coordinate_space \"current\" or widen the rect"@
}

pub(crate) fn show_ends(raw: Ends) -> (r: String)
    ensures
        r@ == ends_text(raw),
{
    let left: String = signed_dec(raw.left);
    let right: String = signed_dec(raw.right);
    let top: String = signed_dec(raw.top);
    let bottom: String = signed_dec(raw.bottom);
    let head: String = cat5("[", left.as_str(), ", ", right.as_str(), "]x[");
    cat5(head.as_str(), top.as_str(), ", ", bottom.as_str(), "]")
}

/// Where a rectangle of the source lies: the box round its image.
pub open spec fn source_box(xf: Transform, rect: Rect) -> Option<Bounds> {
    xf.box_of(
        Real::nearest_to(rect.x as int),
        Real::nearest_to(rect.y as int),
        Real::nearest_to(rect.width as int),
        Real::nearest_to(rect.height as int),
    )
}

/// A rectangle of the source in the current image, or what is wrong with it.
pub open spec fn source_rect(xf: Transform, rect: Rect, cur_w: u32, cur_h: u32) -> Result<
    MappedRect,
    Seq<char>,
> {
    match source_box(xf, rect) {
        None => Err(horizon_text(rect)),
        Some(b) => {
            let raw = whole_ends(b);
            let inner = inner_ends(raw, cur_w, cur_h);
            if !b.is_finite() {
                Err(degenerate_text(rect))
            } else if inner.right <= inner.left || inner.bottom <= inner.top {
                Err(outside_text(rect, raw, cur_w, cur_h))
            } else {
                Ok(
                    MappedRect {
                        rect: Rect {
                            x: inner.left as u32,
                            y: inner.top as u32,
                            width: (inner.right - inner.left) as u32,
                            height: (inner.bottom - inner.top) as u32,
                        },
                        clamped: raw != inner,
                        raw,
                    },
                )
            }
        },
    }
}

/// Maps a rectangle of the source to the current image and cuts it to that image.
pub fn map_source_rect(xf: Transform, rect: Rect, cur_w: u32, cur_h: u32) -> (r: Result<
    MappedRect,
    String,
>)
    ensures
        match r {
            Ok(m) => source_rect(xf, rect, cur_w, cur_h) == Ok::<MappedRect, Seq<char>>(m),
            Err(e) => source_rect(xf, rect, cur_w, cur_h) == Err::<MappedRect, Seq<char>>(e@),
        },
{
    let mapped: Option<Bounds> = xf.map_box(
        Real::from_integer(rect.x as i64),
        Real::from_integer(rect.y as i64),
        Real::from_integer(rect.width as i64),
        Real::from_integer(rect.height as i64),
    );
    let place: String = show_rect(rect);
    let start: String = cat2("source-space crop rect ", place.as_str());
    let b: Bounds = match mapped {
        Some(b) => b,
        None => {
            return Err(
                cat2(
                    start.as_str(),
                    " maps across the horizon of the pipeline's projective transform (a corner lands behind the camera); use coordinate_space \"current\" or a milder perspective correction",
                ),
            );
        },
    };
    if !b.is_finite() {
        return Err(
            cat2(
                start.as_str(),
                " mapped to a non-finite region (the pipeline transform is degenerate)",
            ),
        );
    }
    let raw: Ends = whole_ends(b);
    let inner: Ends = inner_ends(raw, cur_w, cur_h);
    if inner.right <= inner.left || inner.bottom <= inner.top {
        let ends: String = show_ends(raw);
        let size: String = show_size(cur_w, cur_h);
        let head: String = cat4(start.as_str(), " maps to ", ends.as_str(), " in the current ");
        return Err(
            cat3(
                head.as_str(),
                size.as_str(),
                " image, which does not intersect it; use coordinate_space \"current\" or widen the rect",
            ),
        );
    }
    Ok(
        MappedRect {
            rect: Rect {
                x: inner.left as u32,
                y: inner.top as u32,
                width: (inner.right - inner.left) as u32,
                height: (inner.bottom - inner.top) as u32,
            },
            clamped: raw != inner,
            raw,
        },
    )
}

/// A rectangle that is mapped to the current image has pixels, and all of them lie in it.
pub proof fn mapped_rect_is_inside(xf: Transform, rect: Rect, cur_w: u32, cur_h: u32, m: MappedRect)
    requires
        source_rect(xf, rect, cur_w, cur_h) == Ok::<MappedRect, Seq<char>>(m),
    ensures
        m.rect.width > 0,
        m.rect.height > 0,
        rect_fits(m.rect, cur_w, cur_h),
{
}

} // verus!
