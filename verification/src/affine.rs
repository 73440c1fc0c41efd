//! Laws of affine mappings: nothing is divided, and the identity moves nothing.
use vstd::arithmetic::power2::pow2;
use vstd::prelude::*;

use crate::binary::Real;
use crate::exact::{
    is_number, parts_of, product_by_one, product_by_zero, quotient_by_one, sum_of_zeros,
    sum_with_zero,
};
use crate::float::Width;
use crate::number::{ONE, ZERO};
use crate::pixel_ops::rect_fits;
use crate::recipe::Rect;
use crate::transform::{nothing, source_rect, MappedRect, Point, Transform};
use crate::wholes::{wholes_add, wholes_are_in_order, wholes_round_to_themselves};

verus! {

/// An affine mapping divides by 1, so that a point goes to the first two rows at it, to the
/// last bit.
pub proof fn affine_mappings_do_not_divide(xf: Transform, x: Real, y: Real)
    requires
        xf.is_affine(),
        is_number(x),
        is_number(y),
        is_number(xf.across.at(x, y)),
        is_number(xf.down.at(x, y)),
    ensures
        xf.map(x, y) == (Point { x: xf.across.at(x, y), y: xf.down.at(x, y) }),
{
    let w = Width::Double;
    reveal(Real::spec_times);
    reveal(Real::spec_plus);
    reveal(Real::spec_over);
    product_by_zero(w, x.bits, xf.depth.x.bits);
    product_by_zero(w, y.bits, xf.depth.y.bits);
    let (a, b) = (xf.depth.x.times(x), xf.depth.y.times(y));
    sum_of_zeros(w, a.bits, b.bits);
    sum_with_zero(w, xf.depth.one.bits, a.plus(b).bits);
    quotient_by_one(w, xf.across.at(x, y).bits);
    quotient_by_one(w, xf.down.at(x, y).bits);
}

/// The identity leaves a whole point in place.
proof fn identity_keeps_points(x: nat, y: nat)
    requires
        x < 0x2_0000_0000,
        y < 0x2_0000_0000,
    ensures
        ({
            let xf = Transform::identity();
            let (a, b) = (Real::nearest_to(x as int), Real::nearest_to(y as int));
            &&& xf.map(a, b) == (Point { x: a, y: b })
            &&& xf.is_in_front(a, b)
        }),
{
    let w = Width::Double;
    let xf = Transform::identity();
    let (a, b) = (Real::nearest_to(x as int), Real::nearest_to(y as int));
    let o = Real { bits: ZERO };
    wholes_are_in_order(x, y);
    wholes_are_in_order(y, x);
    reveal(Real::spec_times);
    reveal(Real::spec_plus);
    reveal(Real::spec_over);
    product_by_one(w, a.bits);
    product_by_one(w, b.bits);
    product_by_zero(w, a.bits, ZERO);
    product_by_zero(w, b.bits, ZERO);
    assert(o.times(a) == o && o.times(b) == o);
    assert(o.plus(o) == o) by {
        parts_of(w, ZERO);
        let n = pow2(0);
        assert(0 * n == 0) by (nonlinear_arith);
    }
    if x > 0 {
        sum_with_zero(w, a.bits, ZERO);
    } else {
        assert(a == o) by {
            reveal(Real::nearest_to);
        }
    }
    if y > 0 {
        sum_with_zero(w, b.bits, ZERO);
    } else {
        assert(b == o) by {
            reveal(Real::nearest_to);
        }
    }
    sum_with_zero(w, ONE, ZERO);
    assert(xf.depth.at(a, b) == (Real { bits: ONE }));
    assert(xf.across.at(a, b) == a);
    assert(xf.down.at(a, b) == b);
    quotient_by_one(w, a.bits);
    quotient_by_one(w, b.bits);
}

/// The identity leaves every rectangle inside the image as it is.
pub proof fn identity_keeps_rectangles(rect: Rect, w: u32, h: u32, m: MappedRect)
    requires
        rect.width > 0,
        rect.height > 0,
        rect_fits(rect, w, h),
    ensures
        source_rect(Transform::identity(), rect, w, h) is Ok,
        source_rect(Transform::identity(), rect, w, h) == Ok::<MappedRect, Seq<char>>(m)
            ==> m.rect == rect && !m.clamped,
{
    let (x, y) = (rect.x as nat, rect.y as nat);
    let (r, b) = (rect.x as nat + rect.width as nat, rect.y as nat + rect.height as nat);
    wholes_add(x, rect.width as nat);
    wholes_add(y, rect.height as nat);
    identity_keeps_points(x, y);
    identity_keeps_points(r, y);
    identity_keeps_points(x, b);
    identity_keeps_points(r, b);
    wholes_are_in_order(x, r);
    wholes_are_in_order(r, x);
    wholes_are_in_order(y, b);
    wholes_are_in_order(b, y);
    wholes_are_in_order(x, x);
    wholes_are_in_order(y, y);
    wholes_are_in_order(r, r);
    wholes_are_in_order(b, b);
    wholes_round_to_themselves(x);
    wholes_round_to_themselves(y);
    wholes_round_to_themselves(r);
    wholes_round_to_themselves(b);
    let (left, top) = (Real::nearest_to(x as int), Real::nearest_to(y as int));
    let first = nothing().with(Point { x: left, y: top });
    assert(first.left == left && first.top == top && first.right == left && first.bottom == top);
}

} // verus!
