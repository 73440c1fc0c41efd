//! Rows of a colour matrix that hold a one and zeros keep a channel.
use vstd::prelude::*;

use crate::binary::Real;
use crate::curve_shape::{fine, fine_product, fine_sum};
use crate::float::{negative, Width};
use crate::hue_trip::{below_zero, byte_is, part_is_near};
use crate::nearness::near;
use crate::number::{ONE, ZERO};
use crate::ops::color::{matrix_pixel, matrix_row};
use crate::ops::hsl::part;
use crate::raster::Rgba;
use crate::value::{order_is_by_value, some_values, zero_is_zero};

verus! {

/// A zero or a one.
spec fn unit(yes: bool) -> Real {
    if yes {
        Real { bits: ONE }
    } else {
        Real { bits: ZERO }
    }
}

/// A part of 255, or nothing.
spec fn picked(yes: bool, v: u8) -> real {
    if yes {
        v as real / 255real
    } else {
        0real
    }
}

proof fn part_is_small(v: u8)
    ensures
        0real <= v as real / 255real <= 1real,
{
}

/// One times a part is near the part, and zero times it is near zero.
proof fn term_is_near(yes: bool, v: u8)
    ensures
        near(unit(yes).times(part(v)), picked(yes, v), 6real * fine()),
        0real <= picked(yes, v) <= 1real,
{
    some_values();
    zero_is_zero();
    part_is_near(v);
    part_is_small(v);
    assert(0real * fine() == 0real);
    let x = v as real / 255real;
    let one = if yes {
        1real
    } else {
        0real
    };
    fine_product(unit(yes), one, 0real, 2real, part(v), x, 1real, 2real, 6real);
    assert(one * x == picked(yes, v)) by (nonlinear_arith)
        requires
            yes ==> one == 1real && picked(yes, v) == x,
            !yes ==> one == 0real && picked(yes, v) == 0real,
    ;
}

/// A number near a part of 1 stays near it within its range.
pub proof fn clamped_is_near(v: Real, x: real, e: real)
    requires
        near(v, x, e),
        0real <= x <= 1real,
        e >= 0real,
    ensures
        near(v.clamped(Real { bits: ZERO }, Real { bits: ONE }), x, e),
{
    some_values();
    zero_is_zero();
    below_zero(v);
    if !negative(Width::Double, v.bits) {
        order_is_by_value(Real { bits: ONE }, v);
    }
}

/// A row that picks one channel gives its byte.
proof fn row_picks(r: bool, g: bool, b: bool, a: bool, p: Rgba, y: u8)
    requires
        r ==> !g && !b && !a && y == p.r,
        g ==> !r && !b && !a && y == p.g,
        b ==> !r && !g && !a && y == p.b,
        a ==> !r && !g && !b && y == p.a,
        r || g || b || a,
    ensures
        matrix_row(unit(r), unit(g), unit(b), unit(a), Real { bits: ZERO }, p) == y,
{
    let zero = Real { bits: ZERO };
    zero_is_zero();
    term_is_near(r, p.r);
    term_is_near(g, p.g);
    term_is_near(b, p.b);
    term_is_near(a, p.a);
    part_is_small(y);
    assert(0real * fine() == 0real);
    let (m0, m1) = (unit(r).times(part(p.r)), unit(g).times(part(p.g)));
    let (m2, m3) = (unit(b).times(part(p.b)), unit(a).times(part(p.a)));
    let (x0, x1, x2, x3) = (picked(r, p.r), picked(g, p.g), picked(b, p.b), picked(a, p.a));
    fine_sum(m0, x0, 6real, m1, x1, 6real, 2real, 20real);
    let s1 = m0.plus(m1);
    fine_sum(s1, x0 + x1, 20real, m2, x2, 6real, 2real, 30real);
    let s2 = s1.plus(m2);
    fine_sum(s2, x0 + x1 + x2, 30real, m3, x3, 6real, 2real, 40real);
    let s3 = s2.plus(m3);
    fine_sum(s3, x0 + x1 + x2 + x3, 40real, zero, 0real, 0real, 2real, 50real);
    let s = s3.plus(zero);
    assert(50real * fine() <= 450000real * fine());
    clamped_is_near(s, y as real / 255real, 450000real * fine());
    byte_is(s.clamped(zero, Real { bits: ONE }), y);
}

/// A matrix whose last row is 0, 0, 0, 1, 0 keeps the opacity.
pub proof fn plain_last_row_keeps_opacity(m: Seq<Real>, p: Rgba)
    requires
        m.len() == 20,
        m[15] == (Real { bits: ZERO }),
        m[16] == (Real { bits: ZERO }),
        m[17] == (Real { bits: ZERO }),
        m[18] == (Real { bits: ONE }),
        m[19] == (Real { bits: ZERO }),
    ensures
        matrix_pixel(m, p).a == p.a,
{
    row_picks(false, false, false, true, p, p.a);
}

/// The identity matrix: ones where the row and the column are the same.
pub open spec fn identity_matrix() -> Seq<Real> {
    Seq::new(
        20,
        |i: int|
            if i % 6 == 0 {
                Real { bits: ONE }
            } else {
                Real { bits: ZERO }
            },
    )
}

/// The identity matrix keeps every colour.
pub proof fn identity_matrix_changes_nothing(p: Rgba)
    ensures
        matrix_pixel(identity_matrix(), p) == p,
{
    row_picks(true, false, false, false, p, p.r);
    row_picks(false, true, false, false, p, p.g);
    row_picks(false, false, true, false, p, p.b);
    row_picks(false, false, false, true, p, p.a);
}

} // verus!
