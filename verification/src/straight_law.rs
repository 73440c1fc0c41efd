//! Straightening a quadrilateral takes its corners to those of the result.
use vstd::prelude::*;

use crate::binary::Real;
use crate::elimination::{are_found, found, is_system, solution_fits, term, terms};
use crate::exact::is_number;
use crate::float::{negative, unsigned, Width};
use crate::horizon::one_stays;
use crate::nearness::{grain, near, slack_is_small};
use crate::number::ONE;
use crate::ops::perspective::{
    corner_at, denormalize, eliminated, equation, equations, mapping_between, mapping_of,
    outline_over, straight_size, straightened, unit_length, unknowns, upright, Outline,
};
use crate::ordering::{close, on_grid_is_near, order_is_that_of_values};
use crate::tolerance::{near_by, trace};
use crate::transform::{quantize_1e6, Row, Transform};
use crate::units::units;
use crate::value::{
    product_rounds, quotient_rounds, size, slack, some_values, value, wholes_are_themselves,
    zero_is_zero,
};

verus! {

/// A row of a mapping at a point, over the real numbers.
pub open spec fn row_at(r: Row, x: real, y: real) -> real {
    value(r.x) * x + value(r.y) * y + value(r.one)
}

/// The corners of a quadrilateral are numbers of at most a bound.
pub open spec fn is_outline(q: Outline, bound: real) -> bool {
    forall|i: int|
        0 <= i < 4 ==> {
            let p = #[trigger] corner_at(q, i);
            &&& is_number(p.x) && -bound <= value(p.x) <= bound
            &&& is_number(p.y) && -bound <= value(p.y) <= bound
        }
}

/// The other sign.
pub proof fn negated_value(v: Real)
    requires
        is_number(v),
    ensures
        is_number(v.negated()),
        value(v.negated()) == -value(v),
{
    let w = Width::Double;
    reveal(Real::spec_negated);
    let c = v.negated();
    assert(unsigned(w, c.bits) == unsigned(w, v.bits));
    assert(negative(w, c.bits) != negative(w, v.bits));
    assert(units(w, c.bits) == units(w, v.bits));
}

/// A part of an equation that holds a product.
proof fn product_entry(t: Real, p: Real)
    requires
        is_number(t) && -(3real / 2real) <= value(t) <= 3real / 2real,
        is_number(p) && -(3real / 2real) <= value(p) <= 3real / 2real,
    ensures
        near(t.negated().times(p), -(value(t) * value(p)), trace()),
        -(9real / 4real) <= value(t) * value(p) <= 9real / 4real,
{
    negated_value(t);
    let (x, y) = (value(t), value(p));
    near_by(t.negated(), -x, 0real, 2real, p, y, 0real, 2real, trace());
    assert((-x) * y == -(x * y)) by (nonlinear_arith);
    assert(-(9real / 4real) <= x * y <= 9real / 4real) by (nonlinear_arith)
        requires
            -(3real / 2real) <= x <= 3real / 2real,
            -(3real / 2real) <= y <= 3real / 2real,
    ;
}

/// The equations of two quadrilaterals have entries of known size.
proof fn equations_are_system(from: Outline, to: Outline)
    requires
        is_outline(from, 149real / 100real),
        is_outline(to, 149real / 100real),
    ensures
        is_system(equations(from, to), 9real / 4real),
{
    let m = equations(from, to);
    some_values();
    zero_is_zero();
    assert forall|i: int| 0 <= i < 72 implies is_number(#[trigger] m[i]) && -(9real / 4real)
        <= value(m[i]) <= 9real / 4real by {
        let (r, c) = (i / 9, i % 9);
        let (p, q) = (corner_at(from, r / 2), corner_at(to, r / 2));
        let t = if r % 2 == 0 {
            q.x
        } else {
            q.y
        };
        product_entry(t, p.x);
        product_entry(t, p.y);
        let (x, y, z) = (value(t), value(p.x), value(p.y));
        assert(-(9real / 4real - 1real / 100real) <= x * y <= 9real / 4real - 1real / 100real)
            by (nonlinear_arith)
            requires
                -(149real / 100real) <= x <= 149real / 100real,
                -(149real / 100real) <= y <= 149real / 100real,
        ;
        assert(-(9real / 4real - 1real / 100real) <= x * z <= 9real / 4real - 1real / 100real)
            by (nonlinear_arith)
            requires
                -(149real / 100real) <= x <= 149real / 100real,
                -(149real / 100real) <= z <= 149real / 100real,
        ;
        assert(m[i] == equation(from, to, r, c));
    }
}

/// What an equation says of the unknowns.
spec fn said(x: Seq<real>, r: int, t: real, px: real, py: real) -> real {
    let k = if r % 2 == 0 {
        0int
    } else {
        3int
    };
    x[k] * px + x[k + 1] * py + x[k + 2] - t * (x[6] * px + x[7] * py + 1real)
}

proof fn apart(a: real, b: real, c: real)
    ensures
        (a + b) * c == a * c + b * c,
        c * (a + b) == a * c + b * c,
{
    assert((a + b) * c == a * c + b * c) by (nonlinear_arith);
    assert(c * (a + b) == (a + b) * c) by (nonlinear_arith);
}

proof fn turned(a: real, b: real, c: real)
    ensures
        (a * b) * c == (c * b) * a,
{
    assert((a * b) * c == (c * b) * a) by (nonlinear_arith);
}

/// All terms of an equation, one by one.
proof fn nine_terms(m: Seq<Real>, r: int, x: Seq<real>)
    ensures
        terms(m, r, x, 0, 9) == term(m, r, x, 0) + term(m, r, x, 1) + term(m, r, x, 2) + term(
            m,
            r,
            x,
            3,
        ) + term(m, r, x, 4) + term(m, r, x, 5) + term(m, r, x, 6) + term(m, r, x, 7) + term(
            m,
            r,
            x,
            8,
        ),
{
    reveal_with_fuel(terms, 10);
}

/// The terms of an equation are what it says.
proof fn equation_says(from: Outline, to: Outline, r: int, x: Seq<real>)
    requires
        is_outline(from, 149real / 100real),
        is_outline(to, 149real / 100real),
        0 <= r < 8,
        x.len() == 9,
        x[8] == -1real,
        -100real <= x[6] <= 100real,
        -100real <= x[7] <= 100real,
    ensures
        ({
            let (p, q) = (corner_at(from, r / 2), corner_at(to, r / 2));
            let t = if r % 2 == 0 {
                q.x
            } else {
                q.y
            };
            close(
                said(x, r, value(t), value(p.x), value(p.y)),
                terms(equations(from, to), r, x, 0, 9),
                200real * trace(),
            )
        }),
{
    some_values();
    zero_is_zero();
    let m = equations(from, to);
    let (p, q) = (corner_at(from, r / 2), corner_at(to, r / 2));
    let t = if r % 2 == 0 {
        q.x
    } else {
        q.y
    };
    assert forall|c: int| 0 <= c < 9 implies #[trigger] m[9 * r + c] == equation(from, to, r, c) by {
        let i = 9 * r + c;
        assert(i / 9 == r && i % 9 == c);
    }
    assert(m[9 * r + 0] == equation(from, to, r, 0) && m[9 * r + 1] == equation(from, to, r, 1));
    assert(m[9 * r + 2] == equation(from, to, r, 2) && m[9 * r + 3] == equation(from, to, r, 3));
    assert(m[9 * r + 4] == equation(from, to, r, 4) && m[9 * r + 5] == equation(from, to, r, 5));
    assert(m[9 * r + 6] == equation(from, to, r, 6) && m[9 * r + 7] == equation(from, to, r, 7));
    assert(m[9 * r + 8] == equation(from, to, r, 8));
    let (tv, px, py) = (value(t), value(p.x), value(p.y));
    let (g, h) = (x[6], x[7]);
    product_entry(t, p.x);
    product_entry(t, p.y);
    let (u, v) = (value(m[9 * r + 6]), value(m[9 * r + 7]));
    let (du, dv) = (u + tv * px, v + tv * py);
    let z = trace();
    assert(-(100real * z) <= du * g <= 100real * z) by (nonlinear_arith)
        requires
            -z <= du <= z,
            -100real <= g <= 100real,
            z >= 0real,
    ;
    assert(-(100real * z) <= dv * h <= 100real * z) by (nonlinear_arith)
        requires
            -z <= dv <= z,
            -100real <= h <= 100real,
            z >= 0real,
    ;
    apart(u, tv * px, g);
    apart(v, tv * py, h);
    turned(tv, px, g);
    turned(tv, py, h);
    apart(g * px, h * py, tv);
    apart(g * px + h * py, 1real, tv);
    assert(1real * tv == tv) by (nonlinear_arith);
    nine_terms(m, r, x);
    assert(tv * (-1real) == -tv) by (nonlinear_arith);
    assert(0real * x[0] == 0real && 0real * x[1] == 0real && 0real * x[2] == 0real) by (nonlinear_arith);
    assert(0real * x[3] == 0real && 0real * x[4] == 0real && 0real * x[5] == 0real) by (nonlinear_arith);
    assert(1real * x[2] == x[2] && 1real * x[5] == x[5]) by (nonlinear_arith);
    assert(px * x[0] == x[0] * px && py * x[1] == x[1] * py) by (nonlinear_arith);
    assert(px * x[3] == x[3] * px && py * x[4] == x[4] * py) by (nonlinear_arith);
}

/// The entries of a mapping are at most a bound.
pub open spec fn is_mild(t: Transform, bound: real) -> bool {
    &&& is_row(t.across, bound)
    &&& is_row(t.down, bound)
    &&& is_row(t.depth, bound)
}

/// The entries of a row are at most a bound.
pub open spec fn is_row(r: Row, bound: real) -> bool {
    &&& is_number(r.x) && -bound <= value(r.x) <= bound
    &&& is_number(r.y) && -bound <= value(r.y) <= bound
    &&& is_number(r.one) && -bound <= value(r.one) <= bound
}

/// A mapping between two quadrilaterals takes each corner of the first to that corner of the
/// second: the first and the second row at the corner are the coordinates of the target, each
/// times the third row.
pub proof fn mapping_takes_corners(from: Outline, to: Outline, i: int)
    requires
        is_outline(from, 149real / 100real),
        is_outline(to, 149real / 100real),
        mapping_between(from, to) is Some,
        is_mild(mapping_between(from, to)->0, 100real),
        0 <= i < 4,
    ensures
        ({
            let t = mapping_between(from, to)->0;
            let (p, q) = (corner_at(from, i), corner_at(to, i));
            let (x, y) = (value(p.x), value(p.y));
            let e = 3real / 1000000real;
            &&& close(row_at(t.across, x, y), value(q.x) * row_at(t.depth, x, y), e)
            &&& close(row_at(t.down, x, y), value(q.y) * row_at(t.depth, x, y), e)
            &&& value(t.depth.one) == 1real
        }),
{
    some_values();
    order_is_that_of_values(Real { bits: ONE }, Real { bits: ONE });
    let m = equations(from, to);
    equations_are_system(from, to);
    let last = eliminated(m, 8)->0;
    let u = unknowns(last, 8);
    let t = mapping_between(from, to)->0;
    assert(t == mapping_of(u));
    assert(t.across == (Row { x: u[0], y: u[1], one: u[2] }));
    assert(t.down == (Row { x: u[3], y: u[4], one: u[5] }));
    assert(t.depth == (Row { x: u[6], y: u[7], one: Real { bits: ONE } }));
    assert forall|c: int| 0 <= c < 8 implies is_number(#[trigger] u[c]) && -100real <= value(u[c])
        <= 100real by {
        assert(c == 0 || c == 1 || c == 2 || c == 3 || c == 4 || c == 5 || c == 6 || c == 7);
    }
    assert(are_found(last));
    let x = found(last);
    solution_fits(m, 2 * i);
    solution_fits(m, 2 * i + 1);
    equation_says(from, to, 2 * i, x);
    equation_says(from, to, 2 * i + 1, x);
    assert((2 * i) / 2 == i && (2 * i) % 2 == 0);
    assert((2 * i + 1) / 2 == i && (2 * i + 1) % 2 == 1);
}

/// Products of factors that are slightly off.
proof fn products_close(
    p: real,
    q: real,
    pp: real,
    qq: real,
    bound: real,
    other: real,
    ep: real,
    eq: real,
)
    requires
        -bound <= pp <= bound,
        -other <= q <= other,
        close(pp, p, ep),
        close(qq, q, eq),
        ep >= 0real,
        eq >= 0real,
    ensures
        close(pp * qq, p * q, bound * eq + other * ep),
{
    let (d, e) = (qq - q, pp - p);
    assert(-(bound * eq) <= pp * d <= bound * eq) by (nonlinear_arith)
        requires
            -bound <= pp <= bound,
            -eq <= d <= eq,
            eq >= 0real,
    ;
    assert(-(other * ep) <= e * q <= other * ep) by (nonlinear_arith)
        requires
            -other <= q <= other,
            -ep <= e <= ep,
            ep >= 0real,
    ;
    apart(q, d, pp);
    apart(p, e, q);
}

/// The grid moves an entry of a mapping by little.
pub proof fn grid_is_near(v: Real)
    requires
        is_number(v),
        -100real <= value(v) <= 100real,
    ensures
        near(quantize_1e6(v), value(v), 501real / 1000000000real),
{
    on_grid_is_near(v, value(v), 0real);
}

/// A coordinate in units.
proof fn in_units_is_near(p: Real, s: Real, top: real)
    requires
        is_number(p),
        is_number(s),
        1real <= value(s) <= 100000real,
        0real <= top <= 2real,
        -(top * value(s)) <= value(p) <= top * value(s),
    ensures
        near(p.over(s), value(p) / value(s), trace()),
        -top <= value(p) / value(s) <= top,
        value(p) / value(s) * value(s) == value(p),
{
    let (x, y) = (value(p), value(s));
    slack_is_small(0real, 0real);
    let u = x / y;
    assert(u * y == x) by (nonlinear_arith)
        requires
            u == x / y,
            y >= 1real,
    ;
    assert(-top <= u <= top) by (nonlinear_arith)
        requires
            u * y == x,
            y >= 1real,
            -(top * y) <= x <= top * y,
    ;
    assert(top * y <= 2real * y) by (nonlinear_arith)
        requires
            top <= 2real,
            y >= 1real,
    ;
    quotient_rounds(p, s);
    slack_is_small(u, 2real);
    assert((2real + 1real) * grain() <= trace());
}

/// An entry that counts in pixels.
proof fn pixel_entry(c: Real, s: Real)
    requires
        is_number(c),
        -101real <= value(c) <= 101real,
        is_number(s),
        1real <= value(s) <= 100000real,
    ensures
        is_number(c.times(s)),
        is_number(c.over(s)),
        close(value(c.times(s)) / value(s), value(c), 20real * trace()),
        value(c.times(s)) / value(s) * value(s) == value(c.times(s)),
        close(value(c.over(s)) * value(s), value(c), 20real * trace()),
{
    let (x, y) = (value(c), value(s));
    slack_is_small(0real, 0real);
    product_rounds(c, s);
    quotient_rounds(c, s);
    let (p, q) = (value(c.times(s)), value(c.over(s)));
    let (xy, z) = (x * y, x / y);
    assert(-(101real * y) <= xy <= 101real * y) by (nonlinear_arith)
        requires
            xy == x * y,
            -101real <= x <= 101real,
            y >= 1real,
    ;
    slack_is_small(xy, 101real * y);
    let g = grain();
    let w = p / y;
    assert(w * y == p) by (nonlinear_arith)
        requires
            w == p / y,
            y >= 1real,
    ;
    assert((101real * y + 1real) * g <= 102real * g * y) by (nonlinear_arith)
        requires
            y >= 1real,
            g >= 0real,
    ;
    let d = w - x;
    assert(d * y == p - xy) by (nonlinear_arith)
        requires
            d == w - x,
            w * y == p,
            xy == x * y,
    ;
    assert(-(102real * g) <= d <= 102real * g) by (nonlinear_arith)
        requires
            -(102real * g * y) <= d * y <= 102real * g * y,
            y >= 1real,
    ;
    assert(102real * g <= 20real * trace());
    // The quotient.
    assert(z * y == x) by (nonlinear_arith)
        requires
            z == x / y,
            y >= 1real,
    ;
    assert(-101real <= z <= 101real) by (nonlinear_arith)
        requires
            z * y == x,
            y >= 1real,
            -101real <= x <= 101real,
    ;
    slack_is_small(z, 101real);
    let f = q - z;
    assert(f * y == q * y - x) by (nonlinear_arith)
        requires
            f == q - z,
            z * y == x,
    ;
    // A small part of what the unit is.
    slack_of_quotient(z, y, x);
    let e = slack(z);
    assert(-(e * y) <= f * y <= e * y) by (nonlinear_arith)
        requires
            -e <= f <= e,
            y >= 1real,
    ;
}

/// Rounding a quotient moves it by little, counted in units.
proof fn slack_of_quotient(z: real, y: real, x: real)
    requires
        z * y == x,
        -101real <= x <= 101real,
        1real <= y <= 100000real,
    ensures
        0real <= slack(z) * y <= 20real * trace(),
{
    let sz = size(z);
    slack_is_small(z, sz);
    let g = grain();
    let e = slack(z);
    assert(sz * y <= 101real) by (nonlinear_arith)
        requires
            z * y == x,
            -101real <= x <= 101real,
            sz == z || sz == -z,
            y >= 1real,
    ;
    assert(e * y <= (sz + 1real) * g * y) by (nonlinear_arith)
        requires
            e <= (sz + 1real) * g,
            y >= 1real,
    ;
    assert((sz + 1real) * g * y == g * (sz * y) + g * y) by (nonlinear_arith);
    assert(g * (sz * y) <= g * 101real) by (nonlinear_arith)
        requires
            sz * y <= 101real,
            g >= 0real,
    ;
    assert(g * y <= g * 100000real) by (nonlinear_arith)
        requires
            y <= 100000real,
            g >= 0real,
    ;
    assert(e * y >= 0real) by (nonlinear_arith)
        requires
            e >= 0real,
            y >= 1real,
    ;
    assert(g * 100101real <= 20real * trace());
}

/// One coordinate of a corner in units: what holds of a mapping holds, nearly, once its entries
/// are on the grid and the corner is where it was.
proof fn corner_in_units(
    row: (real, real, real),
    depth: (real, real),
    grid: (real, real, real),
    deep: (real, real),
    x: real,
    y: real,
    u: real,
    v: real,
    t: real,
    tt: real,
)
    requires
        -100real <= row.0 <= 100real && close(grid.0, row.0, 502real / 1000000000real),
        -100real <= row.1 <= 100real && close(grid.1, row.1, 502real / 1000000000real),
        close(grid.2, row.2, 502real / 1000000000real),
        -100real <= depth.0 <= 100real && close(deep.0, depth.0, 502real / 1000000000real),
        -100real <= depth.1 <= 100real && close(deep.1, depth.1, 502real / 1000000000real),
        -(149real / 100real) <= x <= 149real / 100real && close(u, x, trace()),
        -(149real / 100real) <= y <= 149real / 100real && close(v, y, trace()),
        -(149real / 100real) <= t <= 149real / 100real && close(tt, t, trace()),
        close(
            row.0 * x + row.1 * y + row.2,
            t * (depth.0 * x + depth.1 * y + 1real),
            3real / 1000000real,
        ),
    ensures
        close(
            grid.0 * u + grid.1 * v + grid.2,
            tt * (deep.0 * u + deep.1 * v + 1real),
            1real / 100000real,
        ),
{
    let k = 502real / 1000000000real;
    let b = 149real / 100real;
    let z = trace();
    products_close(row.0, x, grid.0, u, 101real, b, k, z);
    products_close(row.1, y, grid.1, v, 101real, b, k, z);
    products_close(depth.0, x, deep.0, u, 101real, b, k, z);
    products_close(depth.1, y, deep.1, v, 101real, b, k, z);
    let (p, q) = (depth.0 * x, depth.1 * y);
    let (g, h) = (depth.0, depth.1);
    assert(-149real <= p <= 149real) by (nonlinear_arith)
        requires
            p == g * x,
            -100real <= g <= 100real,
            -(149real / 100real) <= x <= 149real / 100real,
    ;
    assert(-149real <= q <= 149real) by (nonlinear_arith)
        requires
            q == h * y,
            -100real <= h <= 100real,
            -(149real / 100real) <= y <= 149real / 100real,
    ;
    let (d, dd) = (p + q + 1real, deep.0 * u + deep.1 * v + 1real);
    products_close(t, d, tt, dd, 3real / 2real, 300real, z, 1600real / 1000000000real);
}

/// The side of an image that counts as the unit.
pub open spec fn longer(w: u32, h: u32) -> int {
    if w > h {
        w as int
    } else {
        h as int
    }
}

/// Where a corner of a quadrilateral comes to lie in a rectangle of a given size.
pub open spec fn goal(size: (u32, u32), i: int) -> (int, int) {
    (
        if i == 1 || i == 2 {
            size.0 as int
        } else {
            0
        },
        if i == 2 || i == 3 {
            size.1 as int
        } else {
            0
        },
    )
}

/// A mapping takes a point to another one, up to a distance: each of its first two rows at the
/// point is a coordinate of the other point, times the third row.
pub open spec fn takes(t: Transform, x: real, y: real, to: (int, int), e: real) -> bool {
    let depth = row_at(t.depth, x, y);
    &&& close(row_at(t.across, x, y), to.0 as real * depth, e)
    &&& close(row_at(t.down, x, y), to.1 as real * depth, e)
}

/// The mapping in units that a quadrilateral is straightened by.
pub open spec fn in_units_of(q: Outline, w: u32, h: u32) -> Option<Transform> {
    let s = unit_length(w, h);
    let size = straight_size(q);
    mapping_between(
        outline_over(q, s),
        upright(
            Real::nearest_to(size.0 as int).over(s),
            Real::nearest_to(size.1 as int).over(s),
        ),
    )
}

/// Straightening takes each corner of a quadrilateral to that corner of the rectangle that it
/// becomes, to within a hundred-thousandth of the longer side: the top left one to the origin,
/// and the others clockwise. The quadrilateral and the rectangle are not much larger than the
/// image, and the entries of the mapping in units are at most 100.
pub proof fn straightening_takes_corners(q: Outline, w: u32, h: u32, i: int)
    requires
        1 <= longer(w, h) <= 100000,
        is_outline(q, 148real / 100real * longer(w, h) as real),
        straight_size(q).0 as real <= 148real / 100real * longer(w, h) as real,
        straight_size(q).1 as real <= 148real / 100real * longer(w, h) as real,
        in_units_of(q, w, h) is Some,
        is_mild(in_units_of(q, w, h)->0, 100real),
        0 <= i < 4,
    ensures
        ({
            let p = corner_at(q, i);
            takes(
                straightened(q, w, h),
                value(p.x),
                value(p.y),
                goal(straight_size(q), i),
                longer(w, h) as real / 100000real,
            )
        }),
        value(straightened(q, w, h).depth.one) == 1real,
{
    let n = longer(w, h);
    let s = unit_length(w, h);
    wholes_are_themselves(n as nat);
    let y = n as real;
    assert(value(s) == y && is_number(s));
    let size = straight_size(q);
    let (wide, high) = (Real::nearest_to(size.0 as int), Real::nearest_to(size.1 as int));
    wholes_are_themselves(size.0 as nat);
    wholes_are_themselves(size.1 as nat);
    let top = 148real / 100real;
    in_units_is_near(wide, s, top);
    in_units_is_near(high, s, top);
    let from = outline_over(q, s);
    let to = upright(wide.over(s), high.over(s));
    zero_is_zero();
    some_values();
    assert forall|j: int| 0 <= j < 4 implies {
        let p = #[trigger] corner_at(from, j);
        &&& is_number(p.x) && -(149real / 100real) <= value(p.x) <= 149real / 100real
        &&& is_number(p.y) && -(149real / 100real) <= value(p.y) <= 149real / 100real
    } by {
        let p = corner_at(q, j);
        in_units_is_near(p.x, s, top);
        in_units_is_near(p.y, s, top);
    }
    assert(is_outline(from, 149real / 100real));
    assert(is_outline(to, 149real / 100real)) by {
        assert forall|j: int| 0 <= j < 4 implies {
            let p = #[trigger] corner_at(to, j);
            &&& is_number(p.x) && -(149real / 100real) <= value(p.x) <= 149real / 100real
            &&& is_number(p.y) && -(149real / 100real) <= value(p.y) <= 149real / 100real
        } by {
            assert(j == 0 || j == 1 || j == 2 || j == 3);
        }
    }
    let t = mapping_between(from, to)->0;
    mapping_takes_corners(from, to, i);
    let p = corner_at(q, i);
    in_units_is_near(p.x, s, top);
    in_units_is_near(p.y, s, top);
    let (c, g) = (corner_at(from, i), corner_at(to, i));
    let (u, v) = (value(p.x) / y, value(p.y) / y);
    let aim = goal(size, i);
    let (a, b) = (aim.0 as real / y, aim.1 as real / y);
    assert(0real / y == 0real) by (nonlinear_arith)
        requires
            y >= 1real,
    ;
    assert(a * y == aim.0 as real && b * y == aim.1 as real) by {
        assert(0real * y == 0real) by (nonlinear_arith);
    }
    assert(close(a, value(g.x), trace()) && close(b, value(g.y), trace()));
    // The mapping on the grid, and in pixels.
    let done = straightened(q, w, h);
    step_is(t, s);
    let k = t.quantized();
    assert(done == denormalize(k, s));
    grid_is_near(t.across.x);
    grid_is_near(t.across.y);
    grid_is_near(t.across.one);
    grid_is_near(t.down.x);
    grid_is_near(t.down.y);
    grid_is_near(t.down.one);
    grid_is_near(t.depth.x);
    grid_is_near(t.depth.y);
    pixel_entry(k.across.one, s);
    pixel_entry(k.down.one, s);
    pixel_entry(k.depth.x, s);
    pixel_entry(k.depth.y, s);
    let (gx, gy) = (value(done.depth.x) * y, value(done.depth.y) * y);
    let (ca, cd) = (value(done.across.one) / y, value(done.down.one) / y);
    let deep = (value(t.depth.x), value(t.depth.y));
    let (xx, yy) = (value(c.x), value(c.y));
    corner_in_units(
        (value(t.across.x), value(t.across.y), value(t.across.one)),
        deep,
        (value(done.across.x), value(done.across.y), ca),
        (gx, gy),
        xx,
        yy,
        u,
        v,
        value(g.x),
        a,
    );
    corner_in_units(
        (value(t.down.x), value(t.down.y), value(t.down.one)),
        deep,
        (value(done.down.x), value(done.down.y), cd),
        (gx, gy),
        xx,
        yy,
        u,
        v,
        value(g.y),
        b,
    );
    in_pixels(done.across, done.depth, value(p.x), value(p.y), aim.0 as real, y, u, v, a);
    in_pixels(done.down, done.depth, value(p.x), value(p.y), aim.1 as real, y, u, v, b);
}

/// The mapping on the grid and in pixels, entry by entry.
proof fn step_is(t: Transform, s: Real)
    requires
        t.depth.one == (Real { bits: ONE }),
    ensures
        ({
            let k = t.quantized();
            let d = denormalize(k, s);
            &&& k.across == t.across.quantized()
            &&& k.down == t.down.quantized()
            &&& k.depth == t.depth.quantized()
            &&& k.depth.one == (Real { bits: ONE })
            &&& d.across == (Row { x: k.across.x, y: k.across.y, one: k.across.one.times(s) })
            &&& d.down == (Row { x: k.down.x, y: k.down.y, one: k.down.one.times(s) })
            &&& d.depth == (Row { x: k.depth.x.over(s), y: k.depth.y.over(s), one: k.depth.one })
        }),
{
    some_values();
    one_stays();
    order_is_that_of_values(Real { bits: ONE }, Real { bits: ONE });
}

/// What holds in units holds in pixels.
proof fn in_pixels(
    row: Row,
    depth: Row,
    px: real,
    py: real,
    aim: real,
    s: real,
    u: real,
    v: real,
    a: real,
)
    requires
        s >= 1real,
        u * s == px,
        v * s == py,
        a * s == aim,
        value(depth.one) == 1real,
        value(row.one) / s * s == value(row.one),
        close(
            value(row.x) * u + value(row.y) * v + value(row.one) / s,
            a * (value(depth.x) * s * u + value(depth.y) * s * v + 1real),
            1real / 100000real,
        ),
    ensures
        close(row_at(row, px, py), aim * row_at(depth, px, py), s / 100000real),
{
    let (p, q, c) = (value(row.x), value(row.y), value(row.one) / s);
    let (g, h) = (value(depth.x), value(depth.y));
    let left = p * u + q * v + c;
    let deep = g * s * u + h * s * v + 1real;
    let right = a * deep;
    turned(p, u, s);
    turned(q, v, s);
    assert(p * (u * s) == (p * u) * s) by (nonlinear_arith);
    assert(q * (v * s) == (q * v) * s) by (nonlinear_arith);
    apart(p * u, q * v, s);
    apart(p * u + q * v, c, s);
    assert(left * s == row_at(row, px, py));
    assert(g * (u * s) == g * s * u) by (nonlinear_arith);
    assert(h * (v * s) == h * s * v) by (nonlinear_arith);
    assert(deep == row_at(depth, px, py));
    assert((a * deep) * s == (a * s) * deep) by (nonlinear_arith);
    let d = left - right;
    apart(left, -right, s);
    assert((-right) * s == -(right * s)) by (nonlinear_arith);
    assert(-(1real / 100000real * s) <= d * s <= 1real / 100000real * s) by (nonlinear_arith)
        requires
            -(1real / 100000real) <= d <= 1real / 100000real,
            s >= 1real,
    ;
}

/// Where the third row of the mapping is not small at a corner, the image of the corner lies
/// within a thousandth of the longer side from where it should.
pub proof fn straightening_lands_corners(q: Outline, w: u32, h: u32, i: int)
    requires
        1 <= longer(w, h) <= 100000,
        is_outline(q, 148real / 100real * longer(w, h) as real),
        straight_size(q).0 as real <= 148real / 100real * longer(w, h) as real,
        straight_size(q).1 as real <= 148real / 100real * longer(w, h) as real,
        in_units_of(q, w, h) is Some,
        is_mild(in_units_of(q, w, h)->0, 100real),
        0 <= i < 4,
        row_at(
            straightened(q, w, h).depth,
            value(corner_at(q, i).x),
            value(corner_at(q, i).y),
        ) >= 1real / 100real,
    ensures
        ({
            let t = straightened(q, w, h);
            let (x, y) = (value(corner_at(q, i).x), value(corner_at(q, i).y));
            let to = goal(straight_size(q), i);
            let e = longer(w, h) as real / 1000real;
            let depth = row_at(t.depth, x, y);
            &&& close(row_at(t.across, x, y) / depth, to.0 as real, e)
            &&& close(row_at(t.down, x, y) / depth, to.1 as real, e)
        }),
{
    straightening_takes_corners(q, w, h, i);
    let t = straightened(q, w, h);
    let (x, y) = (value(corner_at(q, i).x), value(corner_at(q, i).y));
    let to = goal(straight_size(q), i);
    let depth = row_at(t.depth, x, y);
    let s = longer(w, h) as real;
    over_depth(row_at(t.across, x, y), to.0 as real, depth, s);
    over_depth(row_at(t.down, x, y), to.1 as real, depth, s);
}

proof fn over_depth(a: real, aim: real, d: real, s: real)
    requires
        d >= 1real / 100real,
        s >= 1real,
        close(a, aim * d, s / 100000real),
    ensures
        close(a / d, aim, s / 1000real),
{
    let q = a / d;
    assert(q * d == a) by (nonlinear_arith)
        requires
            q == a / d,
            d > 0real,
    ;
    let g = q - aim;
    assert(g * d == a - aim * d) by (nonlinear_arith)
        requires
            g == q - aim,
            q * d == a,
    ;
    let e = s / 1000real;
    assert(-e <= g <= e) by (nonlinear_arith)
        requires
            -(e / 100real) <= g * d <= e / 100real,
            d >= 1real / 100real,
            e >= 0real,
    ;
}

} // verus!
