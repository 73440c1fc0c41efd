//! Tables of colours over the real numbers: between their nodes they are straight.
use vstd::arithmetic::power2::*;
use vstd::prelude::*;

use crate::binary::{Real, Triple};
use crate::exact::{formats, is_number, parts_of};
use crate::float::{exponent, negative, zero, Width};
use crate::hsl_law::is_share;
use crate::nearness::{grain, near, near_difference, near_times, slack_is_small};
use crate::number::{BYTE_MAX, ONE, ZERO};
use crate::ops::lut::{
    along, between, cube_at, curves_at, in_domain, lut_pixel, node, node_after, node_before,
    toward, CubeLut,
};
use crate::ordering::{
    clamped_value, clamps_are_close, close, kept_within, nearest_byte, order_is_that_of_values,
};
use crate::raster::Rgba;
use crate::remainders::floor_is_near;
use crate::sides::product_keeps_sides;
use crate::tolerance::{near_by, near_minus, near_over, near_plus, trace};
use crate::value::{
    magnitude_by_parts, size, some_values, value, wheel_values, wholes_are_themselves, zero_is_zero,
};
use crate::whole_steps;

verus! {

/// A function of three coordinates that has the same slope everywhere.
pub struct Plane {
    pub at: real,
    pub r: real,
    pub g: real,
    pub b: real,
}

/// The value of such a function.
pub open spec fn height(s: Plane, x: real, y: real, z: real) -> real {
    s.at + s.r * x + s.g * y + s.b * z
}

/// One of the three channels of a colour.
pub open spec fn channel(t: Triple, k: int) -> Real {
    if k == 0 {
        t.r
    } else if k == 1 {
        t.g
    } else {
        t.b
    }
}

/// A node of a cube lies near a function of its place.
pub open spec fn follows(
    data: Seq<Triple>,
    size: u32,
    k: int,
    s: Plane,
    e: real,
    r: int,
    g: int,
    b: int,
) -> bool {
    &&& near(channel(node(data, size, r, g, b), k), height(s, r as real, g as real, b as real), e)
    &&& -100real <= height(s, r as real, g as real, b as real) <= 100real
}

/// The slopes of a function are not steep.
pub open spec fn is_gentle(s: Plane) -> bool {
    &&& -100real <= s.r <= 100real
    &&& -100real <= s.g <= 100real
    &&& -100real <= s.b <= 100real
}

/// Where a part from 0 to 1 lies among nodes: between two of them, and how far from the first.
proof fn place_of(v: Real, size: u32) -> (r: (int, int, real, real))
    requires
        is_share(v),
        2 <= size <= 65536,
    ensures
        ({
            let (i, j, d, step) = r;
            let pos = v.times(Real::nearest_to(size - 1));
            &&& i == node_before(pos, size) && j == node_after(i, size)
            &&& 0 <= i <= j <= size - 1
            &&& value(pos) == i as real + d && 0real <= d < 1real
            &&& j as real - i as real == step && step * d == d && 0real <= step <= 1real
            &&& near(pos.minus(pos.floor()), d, 20real * trace())
            &&& near(pos.minus(Real::nearest_to(i)), d, 20real * trace())
            &&& close(value(pos), value(v) * (size - 1) as real, 10real * trace())
        }),
{
    let w = Width::Double;
    let n = (size - 1) as nat;
    let last = Real::nearest_to(n as int);
    wholes_are_themselves(n);
    let x = value(v);
    let y = n as real;
    assert((65536real + 1real) * grain() <= 10real * trace()) by (nonlinear_arith)
        requires
            grain() == 1real / 9007199254740992real,
            trace() == 1real / 1000000000000real,
    ;
    assert((2real * 70000real + 1real) * grain() <= 20real * trace()) by (nonlinear_arith)
        requires
            grain() == 1real / 9007199254740992real,
            trace() == 1real / 1000000000000real,
    ;
    near_times(v, x, 0real, 1real, last, y, 0real, 65536real, 65536real, 10real * trace());
    let pos = v.times(last);
    slack_is_small(0real, 0real);
    assert(x * y <= y && x * y >= 0real) by (nonlinear_arith)
        requires
            0real <= x <= 1real,
            y >= 0real,
    ;
    product_keeps_sides(v, last, last);
    zero_is_zero();
    product_keeps_sides(v, last, Real { bits: ZERO });
    magnitude_by_parts(pos.bits);
    let k = if negative(w, pos.bits) {
        order_is_that_of_values(pos, Real { bits: ZERO });
        assert(zero(w, pos.bits));
        reveal(Real::spec_floor);
        reveal(Real::spec_floor_integer);
        parts_of(w, pos.bits);
        let h = exponent(w, pos.bits);
        assert(h < 0) by {
            formats(w);
        }
        let g = pow2((-h) as nat);
        lemma_pow2_pos((-h) as nat);
        assert(0nat / g == 0 && 0nat % g == 0) by (nonlinear_arith)
            requires
                g > 0,
        ;
        assert(pos.floor_integer() == 0);
        assert(zero(w, pos.floor().bits) && is_number(pos.floor()));
        order_is_that_of_values(pos.floor(), Real { bits: ZERO });
        0nat
    } else {
        let m = floor_is_near(pos);
        let k = whole_steps::floor_is_near(pos);
        assert(m == k);
        wholes_are_themselves(k);
        k
    };
    wholes_are_themselves(k);
    let i = k as int;
    assert(value(pos.floor()) == i as real);
    let d = value(pos) - i as real;
    assert(i <= n);
    let j = node_after(i, size);
    let step = j as real - i as real;
    assert(step * d == d) by (nonlinear_arith)
        requires
            step == 1real || d == 0real,
    ;
    near_difference(
        pos,
        value(pos),
        0real,
        pos.floor(),
        i as real,
        0real,
        70000real,
        20real * trace(),
    );
    near_difference(
        pos,
        value(pos),
        0real,
        Real::nearest_to(i),
        i as real,
        0real,
        70000real,
        20real * trace(),
    );
    (i, j, d, step)
}

/// One step from a node to the next one.
proof fn step_is_near(
    w: Real,
    d: real,
    high: Real,
    x: real,
    low: Real,
    y: real,
    k: real,
    step: real,
    e: real,
)
    requires
        near(w, d, 20real * trace()),
        0real <= d <= 1real,
        near(high, x, e),
        near(low, y, e),
        0real <= e <= 1real,
        -100real <= x <= 100real,
        -100real <= y <= 100real,
        x - y == k * step,
        step * d == d,
    ensures
        near(w.times(high.minus(low)), k * d, 4real * e + 5000real * trace()),
        near(high.minus(low).times(w), k * d, 4real * e + 5000real * trace()),
        -200real <= k * d <= 200real,
{
    let t = trace();
    near_minus(high, x, e, low, y, e, 2real * e + t);
    let v = high.minus(low);
    let z = x - y;
    near_by(w, d, 20real * t, 2real, v, z, 2real * e + t, 204real, 4real * e + 5000real * t);
    near_by(v, z, 2real * e + t, 204real, w, d, 20real * t, 2real, 4real * e + 5000real * t);
    assert(d * z == k * d && z * d == k * d) by (nonlinear_arith)
        requires
            z == k * step,
            step * d == d,
    ;
    assert(-200real <= d * z <= 200real) by (nonlinear_arith)
        requires
            0real <= d <= 1real,
            -200real <= z <= 200real,
    ;
}

/// The way from one corner of a cell to the opposite one.
proof fn along_is_near(
    base: Real,
    p1: Real,
    p2: Real,
    far: Real,
    w1: Real,
    w2: Real,
    w3: Real,
    y: (real, real, real, real),
    d: (real, real, real),
    k: (real, real, real),
    step: (real, real, real),
    e: real,
)
    requires
        near(w1, d.0, 20real * trace()) && 0real <= d.0 <= 1real,
        near(w2, d.1, 20real * trace()) && 0real <= d.1 <= 1real,
        near(w3, d.2, 20real * trace()) && 0real <= d.2 <= 1real,
        near(base, y.0, e) && -100real <= y.0 <= 100real,
        near(p1, y.1, e) && -100real <= y.1 <= 100real,
        near(p2, y.2, e) && -100real <= y.2 <= 100real,
        near(far, y.3, e) && -100real <= y.3 <= 100real,
        0real <= e <= 1real,
        y.1 - y.0 == k.0 * step.0 && step.0 * d.0 == d.0,
        y.2 - y.1 == k.1 * step.1 && step.1 * d.1 == d.1,
        y.3 - y.2 == k.2 * step.2 && step.2 * d.2 == d.2,
    ensures
        near(
            along(base, p1, p2, far, w1, w2, w3),
            y.0 + k.0 * d.0 + k.1 * d.1 + k.2 * d.2,
            13real * e + 16000real * trace(),
        ),
{
    let t = trace();
    step_is_near(w1, d.0, p1, y.1, base, y.0, k.0, step.0, e);
    step_is_near(w2, d.1, p2, y.2, p1, y.1, k.1, step.1, e);
    step_is_near(w3, d.2, far, y.3, p2, y.2, k.2, step.2, e);
    let (a, b, c) = (
        w1.times(p1.minus(base)),
        w2.times(p2.minus(p1)),
        w3.times(far.minus(p2)),
    );
    let f = 4real * e + 5000real * t;
    near_plus(base, y.0, e, a, k.0 * d.0, f, 5real * e + 5001real * t);
    let u = y.0 + k.0 * d.0;
    near_plus(base.plus(a), u, 5real * e + 5001real * t, b, k.1 * d.1, f, 9real * e + 10002real * t);
    near_plus(
        base.plus(a).plus(b),
        u + k.1 * d.1,
        9real * e + 10002real * t,
        c,
        k.2 * d.2,
        f,
        13real * e + 16000real * t,
    );
}

/// A node over from another one is as much higher as the slope says.
proof fn over_one(k: real, i: int, j: int, step: real)
    requires
        j as real - i as real == step,
    ensures
        k * j as real - k * i as real == k * step,
{
    let (x, y) = (i as real, j as real);
    assert(k * y - k * x == k * step) by (nonlinear_arith)
        requires
            y - x == step,
    ;
}

/// A place is a node and the way from there.
proof fn from_node(k: real, i: int, d: real, x: real)
    requires
        x == i as real + d,
    ensures
        k * x == k * i as real + k * d,
{
    let y = i as real;
    assert(k * x == k * y + k * d) by (nonlinear_arith)
        requires
            x == y + d,
    ;
}

/// A cube whose nodes lie near a function with the same slope everywhere gives values near
/// that function at every place between them.
pub proof fn cube_is_straight(data: Seq<Triple>, size: u32, v: Triple, k: int, s: Plane, e: real)
    requires
        is_share(v.r),
        is_share(v.g),
        is_share(v.b),
        2 <= size <= 129,
        0real <= e <= 1real,
        is_gentle(s),
        forall|r: int, g: int, b: int|
            0 <= r < size && 0 <= g < size && 0 <= b < size ==> #[trigger] follows(
                data,
                size,
                k,
                s,
                e,
                r,
                g,
                b,
            ),
    ensures
        ({
            let n = (size - 1) as real;
            near(
                channel(cube_at(data, size, v), k),
                height(s, value(v.r) * n, value(v.g) * n, value(v.b) * n),
                13real * e + 20000real * trace(),
            )
        }),
{
    let (r0, r1, dr, sr) = place_of(v.r, size);
    let (g0, g1, dg, sg) = place_of(v.g, size);
    let (b0, b1, db, sb) = place_of(v.b, size);
    let last = Real::nearest_to(size - 1);
    let (pr, pg, pb) = (v.r.times(last), v.g.times(last), v.b.times(last));
    let (wr, wg, wb) = (pr.minus(pr.floor()), pg.minus(pg.floor()), pb.minus(pb.floor()));
    assert(follows(data, size, k, s, e, r0, g0, b0));
    assert(follows(data, size, k, s, e, r1, g0, b0));
    assert(follows(data, size, k, s, e, r0, g1, b0));
    assert(follows(data, size, k, s, e, r0, g0, b1));
    assert(follows(data, size, k, s, e, r1, g1, b0));
    assert(follows(data, size, k, s, e, r1, g0, b1));
    assert(follows(data, size, k, s, e, r0, g1, b1));
    assert(follows(data, size, k, s, e, r1, g1, b1));
    over_one(s.r, r0, r1, sr);
    over_one(s.g, g0, g1, sg);
    over_one(s.b, b0, b1, sb);
    from_node(s.r, r0, dr, value(pr));
    from_node(s.g, g0, dg, value(pg));
    from_node(s.b, b0, db, value(pb));
    let (kr, kg, kb) = (s.r, s.g, s.b);
    let at = |r: int, g: int, b: int| channel(node(data, size, r, g, b), k);
    let up = |r: int, g: int, b: int| height(s, r as real, g as real, b as real);
    let (base, far) = (at(r0, g0, b0), at(r1, g1, b1));
    let (y, z) = (up(r0, g0, b0), up(r1, g1, b1));
    let result = channel(cube_at(data, size, v), k);
    let whole = y + kr * dr + kg * dg + kb * db;
    if wg.below(wr) {
        if wb.below(wg) {
            along_is_near(
                base,
                at(r1, g0, b0),
                at(r1, g1, b0),
                far,
                wr,
                wg,
                wb,
                (y, up(r1, g0, b0), up(r1, g1, b0), z),
                (dr, dg, db),
                (kr, kg, kb),
                (sr, sg, sb),
                e,
            );
        } else if wb.below(wr) {
            along_is_near(
                base,
                at(r1, g0, b0),
                at(r1, g0, b1),
                far,
                wr,
                wb,
                wg,
                (y, up(r1, g0, b0), up(r1, g0, b1), z),
                (dr, db, dg),
                (kr, kb, kg),
                (sr, sb, sg),
                e,
            );
        } else {
            along_is_near(
                base,
                at(r0, g0, b1),
                at(r1, g0, b1),
                far,
                wb,
                wr,
                wg,
                (y, up(r0, g0, b1), up(r1, g0, b1), z),
                (db, dr, dg),
                (kb, kr, kg),
                (sb, sr, sg),
                e,
            );
        }
    } else if wg.below(wb) {
        along_is_near(
            base,
            at(r0, g0, b1),
            at(r0, g1, b1),
            far,
            wb,
            wg,
            wr,
            (y, up(r0, g0, b1), up(r0, g1, b1), z),
            (db, dg, dr),
            (kb, kg, kr),
            (sb, sg, sr),
            e,
        );
    } else if wr.below(wb) {
        along_is_near(
            base,
            at(r0, g1, b0),
            at(r0, g1, b1),
            far,
            wg,
            wb,
            wr,
            (y, up(r0, g1, b0), up(r0, g1, b1), z),
            (dg, db, dr),
            (kg, kb, kr),
            (sg, sb, sr),
            e,
        );
    } else {
        along_is_near(
            base,
            at(r0, g1, b0),
            at(r1, g1, b0),
            far,
            wg,
            wr,
            wb,
            (y, up(r0, g1, b0), up(r1, g1, b0), z),
            (dg, dr, db),
            (kg, kr, kb),
            (sg, sr, sb),
            e,
        );
    }
    assert(near(result, whole, 13real * e + 16000real * trace()));
    let n = (size - 1) as real;
    heights_are_close(
        s,
        value(pr),
        value(pg),
        value(pb),
        value(v.r) * n,
        value(v.g) * n,
        value(v.b) * n,
        10real * trace(),
    );
}

/// At close places a function that is not steep has close values.
proof fn heights_are_close(
    s: Plane,
    x: real,
    y: real,
    z: real,
    p: real,
    q: real,
    r: real,
    e: real,
)
    requires
        is_gentle(s),
        close(x, p, e),
        close(y, q, e),
        close(z, r, e),
        e >= 0real,
    ensures
        close(height(s, x, y, z), height(s, p, q, r), 300real * e),
{
    slopes_are_close(s.r, x, p, 100real, e);
    slopes_are_close(s.g, y, q, 100real, e);
    slopes_are_close(s.b, z, r, 100real, e);
}

proof fn slopes_are_close(k: real, x: real, p: real, m: real, e: real)
    requires
        -m <= k <= m,
        close(x, p, e),
        e >= 0real,
    ensures
        close(k * x, k * p, m * e),
{
    assert(k * x - k * p == k * (x - p)) by (nonlinear_arith);
    let d = x - p;
    assert(-(m * e) <= k * d <= m * e) by (nonlinear_arith)
        requires
            -m <= k <= m,
            -e <= d <= e,
            e >= 0real,
    ;
}

/// An entry of a table.
pub open spec fn is_entry(v: Real) -> bool {
    is_number(v) && -100real <= value(v) <= 100real
}

/// Between two entries a curve is the straight line from one to the other.
pub proof fn curve_is_straight(data: Seq<Triple>, size: u32, v: Triple, k: int, i: int)
    requires
        2 <= size <= 65536,
        data.len() == size,
        0 <= k < 3,
        is_share(channel(v, k)),
        forall|m: int| 0 <= m < size ==> is_entry(#[trigger] channel(data[m], k)),
        0 <= i < size - 1,
        i as real <= value(channel(v, k)) * (size - 1) as real <= i as real + 1real,
    ensures
        ({
            let d = value(channel(v, k)) * (size - 1) as real - i as real;
            let (y, z) = (value(channel(data[i], k)), value(channel(data[i + 1], k)));
            near(channel(curves_at(data, size, v), k), y + (z - y) * d, 1real / 10000000real)
        }),
{
    let x = value(channel(v, k)) * (size - 1) as real;
    let (m, n, f, step) = place_of(channel(v, k), size);
    let pos = channel(v, k).times(Real::nearest_to(size - 1));
    let (a, b) = (channel(data[m], k), channel(data[n], k));
    let (y, z) = (value(a), value(b));
    let t = trace();
    let s = z - y;
    assert(s == s * step) by (nonlinear_arith)
        requires
            step == 1real || s == 0real,
    ;
    let by = pos.minus(Real::nearest_to(m));
    step_is_near(by, f, b, z, a, y, s, step, 0real);
    near_plus(a, y, 0real, b.minus(a).times(by), s * f, 5000real * t, 6000real * t);
    let r = channel(curves_at(data, size, v), k);
    assert(r == a.plus(b.minus(a).times(by)));
    // The place over the real numbers may be just across a node.
    let d = x - i as real;
    let (p, q) = (value(channel(data[i], k)), value(channel(data[i + 1], k)));
    if m == i {
        slopes_are_close(s, f, d, 200real, 10real * t);
    } else if m > i {
        assert(m == i + 1);
        slopes_are_close(s, f, 0real, 200real, 10real * t);
        slopes_are_close(q - p, d, 1real, 200real, 10real * t);
        assert(s * 0real == 0real && (q - p) * 1real == q - p) by (nonlinear_arith);
    } else {
        assert(m == i - 1);
        slopes_are_close(s, f, 1real, 200real, 10real * t);
        slopes_are_close(q - p, d, 0real, 200real, 10real * t);
        assert(s * 1real == s && (q - p) * 0real == 0real) by (nonlinear_arith);
    }
}

/// One of three numbers.
pub open spec fn of_three<A>(t: (A, A, A), k: int) -> A {
    if k == 0 {
        t.0
    } else if k == 1 {
        t.1
    } else {
        t.2
    }
}

/// Whether an axis has been gone along after `n` steps of a way that takes the axis `first`,
/// then the axis `second`, then the other one.
pub open spec fn gone(axis: int, first: int, second: int, n: int) -> int {
    if n >= 3 || (n >= 1 && axis == first) || (n >= 2 && axis == second) {
        1
    } else {
        0
    }
}

/// The node that such a way is at after `n` steps.
pub open spec fn on_way(
    data: Seq<Triple>,
    size: u32,
    cell: (int, int, int),
    first: int,
    second: int,
    n: int,
) -> Triple {
    node(
        data,
        size,
        cell.0 + gone(0, first, second, n),
        cell.1 + gone(1, first, second, n),
        cell.2 + gone(2, first, second, n),
    )
}

/// Within a cell of a cube, a colour is made of four nodes: those on the way from its first
/// corner to the last that goes along the axes in the order of how far the colour is along
/// them. The value is the first node's, changed along each axis by that part of the step.
pub proof fn cube_goes_along_edges(
    data: Seq<Triple>,
    size: u32,
    v: Triple,
    k: int,
    cell: (int, int, int),
    part: (real, real, real),
    first: int,
    second: int,
    third: int,
)
    requires
        is_share(v.r),
        is_share(v.g),
        is_share(v.b),
        2 <= size <= 129,
        0 <= cell.0 < size - 1,
        0 <= cell.1 < size - 1,
        0 <= cell.2 < size - 1,
        value(v.r) * (size - 1) as real == cell.0 as real + part.0,
        value(v.g) * (size - 1) as real == cell.1 as real + part.1,
        value(v.b) * (size - 1) as real == cell.2 as real + part.2,
        0 <= first < 3 && 0 <= second < 3 && 0 <= third < 3,
        first != second && second != third && first != third,
        of_three(part, first) <= 1real - 1real / 1000000real,
        of_three(part, first) >= of_three(part, second) + 1real / 1000000real,
        of_three(part, second) >= of_three(part, third) + 1real / 1000000real,
        of_three(part, third) >= 1real / 1000000real,
        forall|n: int|
            0 <= n <= 3 ==> is_entry(
                channel(#[trigger] on_way(data, size, cell, first, second, n), k),
            ),
    ensures
        ({
            let y = |n: int| value(channel(on_way(data, size, cell, first, second, n), k));
            near(
                channel(cube_at(data, size, v), k),
                y(0) + of_three(part, first) * (y(1) - y(0)) + of_three(part, second) * (y(2) - y(
                    1,
                )) + of_three(part, third) * (y(3) - y(2)),
                1real / 10000000real,
            )
        }),
{
    let (r0, r1, dr, sr) = place_of(v.r, size);
    let (g0, g1, dg, sg) = place_of(v.g, size);
    let (b0, b1, db, sb) = place_of(v.b, size);
    let t = trace();
    assert(r0 == cell.0 && g0 == cell.1 && b0 == cell.2);
    let last = Real::nearest_to(size - 1);
    let (pr, pg, pb) = (v.r.times(last), v.g.times(last), v.b.times(last));
    let (wr, wg, wb) = (pr.minus(pr.floor()), pg.minus(pg.floor()), pb.minus(pb.floor()));
    order_is_that_of_values(wg, wr);
    order_is_that_of_values(wb, wg);
    order_is_that_of_values(wb, wr);
    order_is_that_of_values(wg, wb);
    order_is_that_of_values(wr, wb);
    let d = (dr, dg, db);
    let w = (wr, wg, wb);
    let (a0, a1, a2, a3) = (
        channel(on_way(data, size, cell, first, second, 0), k),
        channel(on_way(data, size, cell, first, second, 1), k),
        channel(on_way(data, size, cell, first, second, 2), k),
        channel(on_way(data, size, cell, first, second, 3), k),
    );
    let (y0, y1, y2, y3) = (value(a0), value(a1), value(a2), value(a3));
    let (d1, d2, d3) = (of_three(d, first), of_three(d, second), of_three(d, third));
    let (w1, w2, w3) = (of_three(w, first), of_three(w, second), of_three(w, third));
    assert(w1.below(w2) == false && w2.below(w1) && w3.below(w2) && w3.below(w1));
    let (s1, s2, s3) = (y1 - y0, y2 - y1, y3 - y2);
    assert(s1 * 1real == s1 && s2 * 1real == s2 && s3 * 1real == s3) by (nonlinear_arith);
    assert(1real * d1 == d1 && 1real * d2 == d2 && 1real * d3 == d3) by (nonlinear_arith);
    along_is_near(
        a0,
        a1,
        a2,
        a3,
        w1,
        w2,
        w3,
        (y0, y1, y2, y3),
        (d1, d2, d3),
        (s1, s2, s3),
        (1real, 1real, 1real),
        0real,
    );
    let result = channel(cube_at(data, size, v), k);
    assert(result == along(a0, a1, a2, a3, w1, w2, w3));
    let (e1, e2, e3) = (of_three(part, first), of_three(part, second), of_three(part, third));
    slopes_are_close(y1 - y0, d1, e1, 200real, 10real * t);
    slopes_are_close(y2 - y1, d2, e2, 200real, 10real * t);
    slopes_are_close(y3 - y2, d3, e3, 200real, 10real * t);
    assert(s1 * e1 == e1 * s1 && s2 * e2 == e2 * s2 && s3 * e3 == e3 * s3) by (nonlinear_arith);
}

/// The bounds of a table's inputs are of ordinary size and not too close together.
pub open spec fn is_domain(low: Real, high: Real) -> bool {
    &&& is_number(low) && -8real <= value(low) <= 8real
    &&& is_number(high) && -8real <= value(high) <= 8real
    &&& value(high) - value(low) >= 1real / 100real
}

/// Where a byte lies between two bounds, from 0 to 1.
pub open spec fn place_in(c: u8, low: real, high: real) -> real {
    kept_within((c as real / 255real - low) / (high - low), 0real, 1real)
}

/// A byte is looked up at its place between the bounds.
pub proof fn in_domain_is_near(c: u8, low: Real, high: Real)
    requires
        is_domain(low, high),
    ensures
        near(in_domain(c, low, high), place_in(c, value(low), value(high)), 1real / 1000000real),
        is_share(in_domain(c, low, high)),
{
    let t = trace();
    let (zero, one, top) = (Real { bits: ZERO }, Real { bits: ONE }, Real { bits: BYTE_MAX });
    zero_is_zero();
    some_values();
    wheel_values();
    let v = Real::of_byte(c);
    wholes_are_themselves(c as nat);
    let (l, h, x) = (value(low), value(high), c as real);
    near_over(v, x, 0real, top, 255real, 0real, 1real, 1real, t);
    let y = x / 255real;
    near_minus(v.over(top), y, t, low, l, 0real, 2real * t);
    near_minus(high, h, 0real, low, l, 0real, t);
    let (p, q) = (v.over(top).minus(low), high.minus(low));
    near_over(p, y - l, 2real * t, q, h - l, t, 100real, 900real, 200000real * t);
    let r = p.over(q);
    let z = (y - l) / (h - l);
    clamped_value(r, zero, one);
    clamps_are_close(value(r), z, 0real, 1real, 200000real * t);
}

/// A byte goes from itself toward the value of a table by the strength: at 0 it stays, and at 1
/// it becomes the value.
pub proof fn toward_is_near(c: u8, mapped: Real, y: real, e: real, strength: Real)
    requires
        near(mapped, y, e),
        0real <= e <= 1real / 10real,
        is_share(strength),
    ensures
        close(
            toward(c, mapped, strength) as real,
            kept_within(
                c as real + value(strength) * (255real * kept_within(y, 0real, 1real) - c as real),
                0real,
                255real,
            ),
            1real / 2real + 255real * e + 1real / 100000real,
        ),
{
    let t = trace();
    let (zero, one, top) = (Real { bits: ZERO }, Real { bits: ONE }, Real { bits: BYTE_MAX });
    zero_is_zero();
    some_values();
    wheel_values();
    let from = Real::of_byte(c);
    wholes_are_themselves(c as nat);
    let x = c as real;
    let m = mapped.clamped(zero, one);
    clamped_value(mapped, zero, one);
    clamps_are_close(value(mapped), y, 0real, 1real, e);
    let z = kept_within(y, 0real, 1real);
    near_by(m, z, e, 2real, top, 255real, 0real, 255real, 255real * e + t);
    assert(z * 255real == 255real * z) by (nonlinear_arith);
    let target = m.times(top);
    near_minus(target, 255real * z, 255real * e + t, from, x, 0real, 255real * e + 2real * t);
    let w = value(strength);
    let g = 255real * z - x;
    let f = 255real * e + 2real * t;
    near_by(target.minus(from), g, f, 300real, strength, w, 0real, 1real, f + t);
    assert(g * w == w * g) by (nonlinear_arith);
    assert(-255real <= w * g <= 255real) by (nonlinear_arith)
        requires
            0real <= w <= 1real,
            -255real <= g <= 255real,
    ;
    let by = target.minus(from).times(strength);
    near_plus(from, x, 0real, by, w * g, f + t, f + 2real * t);
    let r = from.plus(by);
    nearest_byte(r);
    clamps_are_close(value(r), x + w * g, 0real, 255real, f + 2real * t);
}

/// What a table does to a colour, channel by channel.
pub open spec fn moves_toward(from: u8, to: u8, y: real, strength: real, e: real) -> bool {
    close(
        to as real,
        kept_within(
            from as real + strength * (255real * kept_within(y, 0real, 1real) - from as real),
            0real,
            255real,
        ),
        e,
    )
}

/// The bounds of a table are of ordinary size.
pub open spec fn has_domain(lut: CubeLut) -> bool {
    &&& is_domain(lut.domain_min.r, lut.domain_max.r)
    &&& is_domain(lut.domain_min.g, lut.domain_max.g)
    &&& is_domain(lut.domain_min.b, lut.domain_max.b)
}

/// A function of the places along a cube's edges, from 0 to 1, written by the numbers of its
/// nodes.
pub open spec fn by_nodes(s: Plane, size: u32) -> Plane {
    let n = (size - 1) as real;
    Plane { at: s.at, r: s.r / n, g: s.g / n, b: s.b / n }
}

/// A cube that follows a function with the same slope everywhere takes each colour toward the
/// value of that function at the colour's place, by the strength.
pub proof fn straight_cube_on_pixel(
    lut: CubeLut,
    strength: Real,
    p: Rgba,
    s: (Plane, Plane, Plane),
    e: real,
)
    requires
        lut.is_3d,
        2 <= lut.size <= 129,
        has_domain(lut),
        is_share(strength),
        0real <= e <= 1real / 1000real,
        forall|k: int| 0 <= k < 3 ==> is_gentle(#[trigger] of_three(s, k)),
        forall|k: int, r: int, g: int, b: int|
            0 <= k < 3 && 0 <= r < lut.size && 0 <= g < lut.size && 0 <= b < lut.size
                ==> #[trigger] follows(
                lut.data@,
                lut.size,
                k,
                by_nodes(of_three(s, k), lut.size),
                e,
                r,
                g,
                b,
            ),
    ensures
        ({
            let q = lut_pixel(lut, strength, p);
            let x = place_in(p.r, value(lut.domain_min.r), value(lut.domain_max.r));
            let y = place_in(p.g, value(lut.domain_min.g), value(lut.domain_max.g));
            let z = place_in(p.b, value(lut.domain_min.b), value(lut.domain_max.b));
            let f = 6real / 10real + 4000real * e;
            &&& moves_toward(p.r, q.r, height(s.0, x, y, z), value(strength), f)
            &&& moves_toward(p.g, q.g, height(s.1, x, y, z), value(strength), f)
            &&& moves_toward(p.b, q.b, height(s.2, x, y, z), value(strength), f)
            &&& q.a == p.a
        }),
{
    let v = Triple {
        r: in_domain(p.r, lut.domain_min.r, lut.domain_max.r),
        g: in_domain(p.g, lut.domain_min.g, lut.domain_max.g),
        b: in_domain(p.b, lut.domain_min.b, lut.domain_max.b),
    };
    in_domain_is_near(p.r, lut.domain_min.r, lut.domain_max.r);
    in_domain_is_near(p.g, lut.domain_min.g, lut.domain_max.g);
    in_domain_is_near(p.b, lut.domain_min.b, lut.domain_max.b);
    let x = place_in(p.r, value(lut.domain_min.r), value(lut.domain_max.r));
    let y = place_in(p.g, value(lut.domain_min.g), value(lut.domain_max.g));
    let z = place_in(p.b, value(lut.domain_min.b), value(lut.domain_max.b));
    let mapped = cube_at(lut.data@, lut.size, v);
    zero_is_zero();
    order_is_that_of_values(strength, Real { bits: ZERO });
    let w = value(strength);
    let g = 13real * e + 20000real * trace() + 300real / 1000000real;
    channel_on_place(lut, v, of_three(s, 0), 0, e, x, y, z);
    channel_on_place(lut, v, of_three(s, 1), 1, e, x, y, z);
    channel_on_place(lut, v, of_three(s, 2), 2, e, x, y, z);
    let (hr, hg, hb) = (height(s.0, x, y, z), height(s.1, x, y, z), height(s.2, x, y, z));
    if w == 0real {
        stays(p.r, hr, w);
        stays(p.g, hg, w);
        stays(p.b, hb, w);
    } else {
        toward_is_near(p.r, mapped.r, hr, g, strength);
        toward_is_near(p.g, mapped.g, hg, g, strength);
        toward_is_near(p.b, mapped.b, hb, g, strength);
    }
}

proof fn stays(c: u8, h: real, w: real)
    requires
        w == 0real,
    ensures
        moves_toward(c, c, h, w, 0real),
{
    let g = 255real * kept_within(h, 0real, 1real) - c as real;
    assert(w * g == 0real) by (nonlinear_arith)
        requires
            w == 0real,
    ;
}

/// One channel of a cube at a place.
proof fn channel_on_place(
    lut: CubeLut,
    v: Triple,
    s: Plane,
    k: int,
    e: real,
    x: real,
    y: real,
    z: real,
)
    requires
        2 <= lut.size <= 129,
        0real <= e <= 1real,
        is_share(v.r) && near(v.r, x, 1real / 1000000real),
        is_share(v.g) && near(v.g, y, 1real / 1000000real),
        is_share(v.b) && near(v.b, z, 1real / 1000000real),
        is_gentle(s),
        forall|r: int, g: int, b: int|
            0 <= r < lut.size && 0 <= g < lut.size && 0 <= b < lut.size ==> #[trigger] follows(
                lut.data@,
                lut.size,
                k,
                by_nodes(s, lut.size),
                e,
                r,
                g,
                b,
            ),
    ensures
        near(
            channel(cube_at(lut.data@, lut.size, v), k),
            height(s, x, y, z),
            13real * e + 20000real * trace() + 300real / 1000000real,
        ),
{
    let n = (lut.size - 1) as real;
    let t = by_nodes(s, lut.size);
    parts_cancel(s.r, n, value(v.r));
    parts_cancel(s.g, n, value(v.g));
    parts_cancel(s.b, n, value(v.b));
    cube_is_straight(lut.data@, lut.size, v, k, t, e);
    heights_are_close(s, value(v.r), value(v.g), value(v.b), x, y, z, 1real / 1000000real);
}

proof fn parts_cancel(k: real, n: real, v: real)
    requires
        n >= 1real,
        -100real <= k <= 100real,
    ensures
        k / n * (v * n) == k * v,
        -100real <= k / n <= 100real,
{
    let q = k / n;
    assert(q * n == k) by (nonlinear_arith)
        requires
            q == k / n,
            n >= 1real,
    ;
    assert(q * (v * n) == k * v) by (nonlinear_arith)
        requires
            q * n == k,
    ;
    assert(-100real <= q <= 100real) by (nonlinear_arith)
        requires
            q * n == k,
            n >= 1real,
            -100real <= k <= 100real,
    ;
}

/// A cube that holds each colour at its own place, to within a hundred-thousandth, keeps
/// every colour: at full strength and at any other.
pub proof fn identity_cube_keeps_colours(lut: CubeLut, strength: Real, p: Rgba)
    requires
        lut.is_3d,
        2 <= lut.size <= 129,
        lut.domain_min == (Triple {
            r: Real { bits: ZERO },
            g: Real { bits: ZERO },
            b: Real { bits: ZERO },
        }),
        lut.domain_max == (Triple {
            r: Real { bits: ONE },
            g: Real { bits: ONE },
            b: Real { bits: ONE },
        }),
        is_share(strength),
        forall|r: int, g: int, b: int|
            0 <= r < lut.size && 0 <= g < lut.size && 0 <= b < lut.size ==> {
                let at = #[trigger] node(lut.data@, lut.size, r, g, b);
                let n = (lut.size - 1) as real;
                &&& near(at.r, r as real / n, 1real / 100000real)
                &&& near(at.g, g as real / n, 1real / 100000real)
                &&& near(at.b, b as real / n, 1real / 100000real)
            },
    ensures
        lut_pixel(lut, strength, p) == p,
{
    let s = (
        Plane { at: 0real, r: 1real, g: 0real, b: 0real },
        Plane { at: 0real, r: 0real, g: 1real, b: 0real },
        Plane { at: 0real, r: 0real, g: 0real, b: 1real },
    );
    let e = 1real / 100000real;
    zero_is_zero();
    some_values();
    let n = (lut.size - 1) as real;
    assert forall|k: int, r: int, g: int, b: int|
        0 <= k < 3 && 0 <= r < lut.size && 0 <= g < lut.size && 0 <= b < lut.size implies
        #[trigger] follows(
        lut.data@,
        lut.size,
        k,
        by_nodes(of_three(s, k), lut.size),
        e,
        r,
        g,
        b,
    ) by {
        let at = node(lut.data@, lut.size, r, g, b);
        let (x, y, z) = (r as real, g as real, b as real);
        one_over(n, x);
        one_over(n, y);
        one_over(n, z);
    }
    straight_cube_on_pixel(lut, strength, p, s, e);
    let w = value(strength);
    own_place(p.r);
    own_place(p.g);
    own_place(p.b);
    comes_back(p.r, w);
    comes_back(p.g, w);
    comes_back(p.b, w);
    let (x, y, z) = (p.r as real / 255real, p.g as real / 255real, p.b as real / 255real);
    assert(1real * x == x && 1real * y == y && 1real * z == z) by (nonlinear_arith);
    assert(0real * x == 0real && 0real * y == 0real && 0real * z == 0real) by (nonlinear_arith);
    assert(height(s.0, x, y, z) == x && height(s.1, x, y, z) == y && height(s.2, x, y, z) == z);
    let q = lut_pixel(lut, strength, p);
    assert(q.r == p.r && q.g == p.g && q.b == p.b && q.a == p.a);
}

proof fn one_over(n: real, x: real)
    requires
        n >= 1real,
        0real <= x <= n,
    ensures
        1real / n * x == x / n,
        0real / n * x == 0real,
        0real <= x / n <= 1real,
{
    assert(1real / n * x == x / n) by (nonlinear_arith)
        requires
            n >= 1real,
    ;
    assert(0real / n * x == 0real) by (nonlinear_arith)
        requires
            n >= 1real,
    ;
    assert(0real <= x / n <= 1real) by (nonlinear_arith)
        requires
            n >= 1real,
            0real <= x <= n,
    ;
}

proof fn own_place(c: u8)
    ensures
        place_in(c, 0real, 1real) == c as real / 255real,
{
    let x = c as real / 255real;
    assert((x - 0real) / (1real - 0real) == x) by (nonlinear_arith);
}

proof fn comes_back(c: u8, w: real)
    ensures
        ({
            let x = c as real / 255real;
            c as real + w * (255real * kept_within(x, 0real, 1real) - c as real) == c as real
        }),
{
    let x = c as real / 255real;
    let g = 255real * kept_within(x, 0real, 1real) - c as real;
    assert(g == 0real);
    assert(w * g == 0real) by (nonlinear_arith)
        requires
            g == 0real,
    ;
}

} // verus!
