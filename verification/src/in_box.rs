//! A resize keeps to the box that was asked for.
use vstd::prelude::*;

use crate::at_rest::{
    by_a_hair, hair, is_target, multiples_keep_order, target_is, width_for, width_is,
};
use crate::binary::Real;
use crate::number::ONE;
use crate::pixel_ops::{has_sides, keeps_to_box, length_of, real_of, resize_scale, resize_sizes};
use crate::recipe::Fit;
use crate::value::{order_is_by_value, some_values, value};

verus! {

/// A side that is scaled to no more than a length, but for a hair, is no longer than it.
proof fn is_no_longer(b: u32, s: Real, w: u32)
    requires
        b >= 1,
        w >= 1,
        is_target(s),
        b as real * value(s) <= w as real * (1real + hair()),
    ensures
        1 <= length_of(real_of(b).times(s)) <= w,
{
    width_is(b, s);
    let n = width_for(b, s);
    let (x, y, e) = (b as real * value(s), w as real, hair());
    by_a_hair(y);
    if n > w {
        let up = y + y * e;
        multiples_keep_order(x, up, 1real + e);
        by_a_hair(up);
    }
}

/// A side that is scaled to no less than a length, but for a hair, is no shorter than it.
proof fn is_no_shorter(b: u32, s: Real, w: u32)
    requires
        b >= 1,
        w >= 1,
        is_target(s),
        w as real * (1real - hair()) <= b as real * value(s),
    ensures
        length_of(real_of(b).times(s)) >= w,
{
    width_is(b, s);
    by_a_hair(w as real);
}

proof fn one_is_a_target()
    ensures
        is_target(Real { bits: ONE }),
        value(Real { bits: ONE }) == 1real,
{
    some_values();
}

/// A scale that is no larger than another keeps a side no longer.
proof fn smaller_scale(b: u32, s: Real, a: Real, w: u32)
    requires
        b >= 1,
        w >= 1,
        is_target(s),
        value(s) <= value(a),
        b as real * value(a) <= w as real * (1real + hair()),
    ensures
        1 <= length_of(real_of(b).times(s)) <= w,
{
    let (x, v, u) = (b as real, value(s), value(a));
    multiples_keep_order(v, u, x);
    assert(v * x == x * v && u * x == x * u) by (nonlinear_arith);
    is_no_longer(b, s, w);
}

/// A scale that is no smaller than another keeps a side no shorter.
proof fn larger_scale(b: u32, s: Real, a: Real, w: u32)
    requires
        b >= 1,
        w >= 1,
        is_target(s),
        value(a) <= value(s),
        w as real * (1real - hair()) <= b as real * value(a),
    ensures
        length_of(real_of(b).times(s)) >= w,
{
    let (x, v, u) = (b as real, value(s), value(a));
    multiples_keep_order(u, v, x);
    assert(v * x == x * v && u * x == x * u) by (nonlinear_arith);
    is_no_shorter(b, s, w);
}

/// A scale of at most one makes no side longer.
proof fn no_enlargement(b: u32, s: Real)
    requires
        b >= 1,
        is_target(s),
        value(s) <= 1real,
    ensures
        1 <= length_of(real_of(b).times(s)) <= b,
{
    one_is_a_target();
    by_a_hair(b as real);
    smaller_scale(b, s, Real { bits: ONE }, b);
}

/// A resize keeps to what was asked for, where no side is zero: without enlargement no side
/// grows, what is to be contained stays in the box, and a cover that may enlarge fills it.
pub proof fn resizing_keeps_to_box(
    iw: u32,
    ih: u32,
    width: Option<u32>,
    height: Option<u32>,
    fit: Fit,
    without_enlargement: bool,
)
    requires
        has_sides(iw, ih, width, height),
    ensures
        ({
            let r = resize_sizes(iw, ih, width, height, fit, without_enlargement);
            keeps_to_box(iw, ih, width, height, fit, without_enlargement, r.0, r.1)
        }),
{
    if fit != Fit::Fill {
        let one = Real { bits: ONE };
        let s = resize_scale(iw, ih, width, height, fit, without_enlargement);
        one_is_a_target();
        if width is Some {
            target_is(width->0, iw);
        }
        if height is Some {
            target_is(height->0, ih);
        }
        let a = real_of(width->0).over(real_of(iw));
        let b = real_of(height->0).over(real_of(ih));
        if width is Some && height is Some {
            order_is_by_value(a, b);
            order_is_by_value(b, a);
        }
        let free = resize_scale(iw, ih, width, height, fit, false);
        assert(is_target(free));
        order_is_by_value(one, free);
        assert(is_target(s) && value(s) <= value(free));
        width_is(iw, s);
        width_is(ih, s);
        if without_enlargement {
            no_enlargement(iw, s);
            no_enlargement(ih, s);
        }
        if fit == Fit::Contain {
            if width is Some {
                smaller_scale(iw, s, a, width->0);
            }
            if height is Some {
                smaller_scale(ih, s, b, height->0);
            }
        }
        if fit == Fit::Cover && !without_enlargement && width is Some && height is Some {
            larger_scale(iw, s, a, width->0);
            larger_scale(ih, s, b, height->0);
        }
    }
}

} // verus!
