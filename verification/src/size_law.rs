//! An upright quadrilateral becomes a rectangle of its own size.
use vstd::prelude::*;

use crate::binary::Real;
use crate::exact::{difference_with_itself, product_by_zero, sum_with_zero};
use crate::float::Width;
use crate::nearness::{grain, near, near_sum, slack_is_small};
use crate::number::{TWO, ZERO};
use crate::ops::perspective::{edge, mean, straight_size, Outline};
use crate::ordering::{on_grid_is_near, order_is_that_of_values};
use crate::pixel_ops::length_or_none;
use crate::roots::{root_at_most, root_is_near};
use crate::transform::{quantize_1e6, Point};
use crate::value::{
    magnitude_by_parts, quotient_rounds, some_values, value, wholes_are_themselves, zero_is_zero,
};
use crate::whole_steps::{round_is_near, wholes_subtract};
use crate::wholes::wholes_multiply;

verus! {

/// A point at whole coordinates.
pub open spec fn at(x: nat, y: nat) -> Point {
    Point { x: Real::nearest_to(x as int), y: Real::nearest_to(y as int) }
}

/// The length of a side that runs along one axis, from its square.
proof fn root_of_square(n: nat)
    requires
        1 <= n <= 100000,
    ensures
        near(Real::nearest_to((n * n) as int).root(), n as real, 1real / 1000000real),
{
    let m = n * n;
    assert(1 <= m <= 10000000000) by (nonlinear_arith)
        requires
            m == n * n,
            1 <= n <= 100000,
    ;
    wholes_are_themselves(n);
    wholes_are_themselves(m);
    slack_is_small(0real, 0real);
    let a = Real::nearest_to(m as int);
    root_is_near(a);
    root_at_most(m, n);
    let r = a.root();
    order_is_that_of_values(Real::nearest_to(n as int), r);
    let (x, k) = (value(r), n as real);
    assert(m as real == k * k) by (nonlinear_arith)
        requires
            m == n * n,
            k == n as real,
    ;
    let d = k - x;
    let f = k * k / 1099511627776real;
    assert(k * k - x * x == d * (k + x)) by (nonlinear_arith)
        requires
            d == k - x,
    ;
    assert(k * (k / 1099511627776real) == f) by (nonlinear_arith)
        requires
            f == k * k / 1099511627776real,
    ;
    let g = k / 1099511627776real;
    if d > g {
        assert(d * (k + x) > g * k) by (nonlinear_arith)
            requires
                d > g,
                g >= 0real,
                k >= 1real,
                x >= 0real,
        {
            assert(d * (k + x) >= d * k);
            assert(d * k > g * k);
        }
        assert(g * k == k * g) by (nonlinear_arith);
    }
}

/// The length of a side along the first axis, and along the second.
proof fn side_is_near(x0: nat, x1: nat, y: nat)
    requires
        x0 < x1 < 100000,
        y < 100000,
    ensures
        near(edge(at(x0, y), at(x1, y)), (x1 - x0) as real, 1real / 100000real),
        near(edge(at(y, x0), at(y, x1)), (x1 - x0) as real, 1real / 100000real),
{
    let w = Width::Double;
    let n = (x1 - x0) as nat;
    let (a, b, c) = (
        Real::nearest_to(x0 as int),
        Real::nearest_to(x1 as int),
        Real::nearest_to(y as int),
    );
    wholes_are_themselves(x0);
    wholes_are_themselves(x1);
    wholes_are_themselves(y);
    wholes_are_themselves(n);
    wholes_subtract(x1, x0);
    let d = b.minus(a);
    let m = n * n;
    assert(1 <= m <= 10000000000) by (nonlinear_arith)
        requires
            m == n * n,
            1 <= n <= 100000,
    ;
    wholes_are_themselves(m);
    let square = d.times(d);
    assert(square == Real::nearest_to(m as int)) by {
        reveal(Real::nearest_to);
        reveal(Real::spec_times);
        wholes_multiply(n, n);
    }
    let z = c.minus(c);
    let nothing = Real { bits: ZERO };
    assert(z == nothing) by {
        reveal(Real::spec_plus);
        reveal(Real::spec_negated);
        difference_with_itself(w, c.bits);
    }
    let none = z.times(z);
    zero_is_zero();
    order_is_that_of_values(square, nothing);
    assert(square.plus(none) == square && none.plus(square) == square) by {
        reveal(Real::spec_plus);
        reveal(Real::spec_times);
        product_by_zero(w, z.bits, z.bits);
        sum_with_zero(w, square.bits, none.bits);
    }
    root_of_square(n);
    let r = square.root();
    on_grid_is_near(r, n as real, 1real / 1000000real);
    assert(near(quantize_1e6(r), n as real, 1real / 100000real));
}

/// The mean of two lengths of one whole number of pixels is that length.
proof fn mean_is(a: Real, b: Real, n: nat)
    requires
        near(a, n as real, 1real / 100000real),
        near(b, n as real, 1real / 100000real),
        1 <= n <= 100000,
    ensures
        length_or_none(mean(a, b)) == n,
{
    some_values();
    slack_is_small(0real, 0real);
    let e = 1real / 100000real;
    let (k, two) = (n as real, Real { bits: TWO });
    assert((2real * 200000real + 1real) * grain() <= e && (200000real + 1real) * grain() <= e)
        by (nonlinear_arith)
        requires
            grain() == 1real / 9007199254740992real,
            e == 1real / 100000real,
    ;
    near_sum(a, k, e, b, k, e, 200000real, 3real * e);
    let s = a.plus(b);
    quotient_rounds(s, two);
    let q = value(s) / 2real;
    slack_is_small(q, 200000real);
    let m = mean(a, b);
    magnitude_by_parts(m.bits);
    let j = round_is_near(m);
    assert(j == n);
    assert(m.round_integer() == n);
    assert(!m.is_nan());
}

/// A quadrilateral whose sides run along the axes, with corners at whole numbers, becomes a
/// rectangle as wide and as high as it is.
pub proof fn upright_quads_keep_their_size(x0: nat, y0: nat, x1: nat, y1: nat)
    requires
        x0 < x1 < 100000,
        y0 < y1 < 100000,
    ensures
        straight_size(
            Outline { tl: at(x0, y0), tr: at(x1, y0), br: at(x1, y1), bl: at(x0, y1) },
        ) == ((x1 - x0) as u32, (y1 - y0) as u32),
{
    side_is_near(x0, x1, y0);
    side_is_near(x0, x1, y1);
    side_is_near(y0, y1, x0);
    side_is_near(y0, y1, x1);
    mean_is(edge(at(x0, y0), at(x1, y0)), edge(at(x0, y1), at(x1, y1)), (x1 - x0) as nat);
    mean_is(edge(at(x0, y0), at(x0, y1)), edge(at(x1, y0), at(x1, y1)), (y1 - y0) as nat);
}

} // verus!
