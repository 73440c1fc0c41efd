//! Blurring over the real numbers: which pixel each weight counts for, and that the weights make
//! up one.
use vstd::prelude::*;

use crate::binary::{Four, Real};
use crate::hsl_law::is_share;
use crate::nearness::{grain, near, near_sum, near_times};
use crate::ops::blur::{blur_pixel, column_blur, grid_sum, row_blur, Kernel};
use crate::ordering::{clamps_are_close, close, kept_within, nearest_byte, on_grid_is_near};
use crate::raster::{inside, Image, Rgba};
use crate::tolerance::{near_over, near_plus, trace};
use crate::value::{value, wholes_are_themselves, zero_is_zero};

verus! {

/// One of the four channels of a colour.
pub open spec fn byte_of(p: Rgba, c: int) -> u8 {
    if c == 0 {
        p.r
    } else if c == 1 {
        p.g
    } else if c == 2 {
        p.b
    } else {
        p.a
    }
}

/// One of four numbers.
pub open spec fn light_of(v: Four, c: int) -> Real {
    if c == 0 {
        v.r
    } else if c == 1 {
        v.g
    } else if c == 2 {
        v.b
    } else {
        v.a
    }
}

/// The first `n` weights of a kernel, each by the pixel that lies as far to the right of a
/// place as the weight lies from the middle. Beyond the edges the pixels of the edge go on.
pub open spec fn along_row(img: Image<Rgba>, kernel: Kernel, x: int, y: int, c: int, n: nat) -> real
    decreases n,
{
    if n == 0 {
        0real
    } else {
        let at = inside(x + (n - 1) - kernel.radius, img.width as int);
        along_row(img, kernel, x, y, c, (n - 1) as nat) + value(kernel.weights@[n - 1]) * byte_of(
            img.pixel(at, y),
            c,
        ) as real
    }
}

/// The first `n` weights of a kernel, each by the row that lies as far below a place as the
/// weight lies from the middle.
pub open spec fn along_column(
    img: Image<Rgba>,
    kernel: Kernel,
    x: int,
    y: int,
    c: int,
    n: nat,
) -> real
    decreases n,
{
    if n == 0 {
        0real
    } else {
        let at = inside(y + (n - 1) - kernel.radius, img.height as int);
        along_column(img, kernel, x, y, c, (n - 1) as nat) + value(kernel.weights@[n - 1])
            * along_row(img, kernel, x, at, c, kernel.weights@.len())
    }
}

/// The weights of a kernel are parts.
pub open spec fn has_parts(kernel: Kernel) -> bool {
    &&& kernel.weights@.len() <= 511
    &&& forall|k: int| 0 <= k < kernel.weights@.len() ==> is_share(#[trigger] kernel.weights@[k])
}

proof fn few_grains()
    ensures
        (255real + 1real) * grain() <= trace(),
        (2real * 131000real + 1real) * grain() <= 30real * trace(),
        (131000real + 1real) * grain() <= 20real * trace(),
        (2real * 70000000real + 1real) * grain() <= 16000real * trace(),
{
    assert((255real + 1real) * grain() <= trace() && (2real * 131000real + 1real) * grain()
        <= 30real * trace() && (131000real + 1real) * grain() <= 20real * trace() && (2real
        * 70000000real + 1real) * grain() <= 16000real * trace()) by (nonlinear_arith)
        requires
            grain() == 1real / 9007199254740992real,
            trace() == 1real / 1000000000000real,
    ;
}

proof fn one_more(i: real, j: real, f: real)
    requires
        j == i + 1real,
    ensures
        j * f == i * f + f,
{
    assert(j * f == i * f + f) by (nonlinear_arith)
        requires
            j == i + 1real,
    ;
}

proof fn at_most_times(i: real, n: real, f: real)
    requires
        0real <= i <= n,
        f >= 0real,
    ensures
        0real <= i * f <= n * f,
{
    assert(0real <= i * f <= n * f) by (nonlinear_arith)
        requires
            0real <= i <= n,
            f >= 0real,
    ;
}

proof fn row_is_near(img: Image<Rgba>, kernel: Kernel, x: int, y: int, c: int, n: nat)
    requires
        has_parts(kernel),
        n <= kernel.weights@.len(),
        0 <= c < 4,
    ensures
        near(
            light_of(row_blur(img, kernel, x, y, n), c),
            along_row(img, kernel, x, y, c, n),
            n as real * (33real * trace()),
        ),
        0real <= along_row(img, kernel, x, y, c, n) <= n as real * 255real,
    decreases n,
{
    let t = trace();
    if n == 0 {
        zero_is_zero();
        assert(0real * (33real * t) == 0real && 0real * 255real == 0real) by (nonlinear_arith);
    } else {
        few_grains();
        let k = (n - 1) as nat;
        row_is_near(img, kernel, x, y, c, k);
        let before = light_of(row_blur(img, kernel, x, y, k), c);
        let at = inside(x + (n - 1 - kernel.radius), img.width as int);
        let b = byte_of(img.pixel(at, y), c);
        wholes_are_themselves(b as nat);
        let (v, w) = (Real::of_byte(b), kernel.weights@[k as int]);
        let (z, a) = (b as real, value(w));
        near_times(v, z, 0real, 255real, w, a, 0real, 1real, 255real, t);
        assert(z * a == a * z) by (nonlinear_arith);
        assert(0real <= a * z <= 255real) by (nonlinear_arith)
            requires
                0real <= a <= 1real,
                0real <= z <= 255real,
        ;
        let (i, j) = (k as real, n as real);
        one_more(i, j, 33real * t);
        one_more(i, j, 255real);
        at_most_times(i, 511real, 33real * t);
        at_most_times(i, 511real, 255real);
        let s = along_row(img, kernel, x, y, c, k);
        let (f, g) = (i * (33real * t), j * (33real * t));
        near_sum(before, s, f, v.times(w), a * z, t, 131000real, g);
        assert(light_of(row_blur(img, kernel, x, y, n), c) == before.plus(v.times(w)));
    }
}

proof fn column_is_near(img: Image<Rgba>, kernel: Kernel, x: int, y: int, c: int, n: nat)
    requires
        has_parts(kernel),
        n <= kernel.weights@.len(),
        0 <= c < 4,
    ensures
        near(
            light_of(column_blur(img, kernel, x, y, n), c),
            along_column(img, kernel, x, y, c, n),
            n as real * (40000real * trace()),
        ),
        0real <= along_column(img, kernel, x, y, c, n) <= n as real * 130500real,
    decreases n,
{
    let t = trace();
    if n == 0 {
        zero_is_zero();
        assert(0real * (40000real * t) == 0real && 0real * 130500real == 0real) by (nonlinear_arith);
    } else {
        few_grains();
        let k = (n - 1) as nat;
        column_is_near(img, kernel, x, y, c, k);
        let before = light_of(column_blur(img, kernel, x, y, k), c);
        let at = inside(y + (n - 1 - kernel.radius), img.height as int);
        let m = kernel.weights@.len();
        row_is_near(img, kernel, x, at, c, m);
        let v = light_of(row_blur(img, kernel, x, at, m), c);
        let w = kernel.weights@[k as int];
        let (z, a) = (along_row(img, kernel, x, at, c, m), value(w));
        at_most_times(m as real, 511real, 33real * t);
        at_most_times(m as real, 511real, 255real);
        let e = m as real * (33real * t);
        assert(e <= 16863real * t);
        near_times(v, z, e, 130999real, w, a, 0real, 1real, 131000real, 16900real * t);
        assert(z * a == a * z) by (nonlinear_arith);
        assert(0real <= a * z <= 130305real) by (nonlinear_arith)
            requires
                0real <= a <= 1real,
                0real <= z <= 130305real,
        ;
        let (i, j) = (k as real, n as real);
        one_more(i, j, 40000real * t);
        one_more(i, j, 130500real);
        at_most_times(i, 511real, 40000real * t);
        at_most_times(i, 511real, 130500real);
        let s = along_column(img, kernel, x, y, c, k);
        let (f, g) = (i * (40000real * t), j * (40000real * t));
        near_sum(before, s, f, v.times(w), a * z, 16900real * t, 70000000real, g);
        assert(light_of(column_blur(img, kernel, x, y, n), c) == before.plus(v.times(w)));
    }
}

/// A blurred pixel is the sum of the pixels around it, each by the weight of its column and
/// the weight of its row, rounded to bytes.
pub proof fn blurring_weighs_pixels(img: Image<Rgba>, kernel: Kernel, x: int, y: int, c: int)
    requires
        has_parts(kernel),
        0 <= c < 4,
        along_column(img, kernel, x, y, c, kernel.weights@.len()) <= 10000real,
    ensures
        close(
            byte_of(blur_pixel(img, kernel, x, y), c) as real,
            kept_within(
                along_column(img, kernel, x, y, c, kernel.weights@.len()),
                0real,
                255real,
            ),
            1real / 2real + 1real / 10000real,
        ),
{
    let n = kernel.weights@.len();
    let t = trace();
    column_is_near(img, kernel, x, y, c, n);
    at_most_times(n as real, 511real, 40000real * t);
    let v = light_of(column_blur(img, kernel, x, y, n), c);
    let s = along_column(img, kernel, x, y, c, n);
    nearest_byte(v);
    clamps_are_close(value(v), s, 0real, 255real, 511real * (40000real * t));
}

/// The first `n` heights on the grid.
spec fn heights(raw: Seq<Real>, n: nat) -> real
    decreases n,
{
    if n == 0 {
        0real
    } else {
        heights(raw, (n - 1) as nat) + value(raw[n - 1].on_grid())
    }
}

/// The first `n` weights.
pub open spec fn weights_to(weights: Seq<Real>, n: nat) -> real
    decreases n,
{
    if n == 0 {
        0real
    } else {
        weights_to(weights, (n - 1) as nat) + value(weights[n - 1])
    }
}

/// The heights of a kernel are parts, and one of them is not small.
pub open spec fn are_heights(raw: Seq<Real>, top: int) -> bool {
    &&& raw.len() <= 511
    &&& forall|k: int| 0 <= k < raw.len() ==> is_share(#[trigger] raw[k])
    &&& 0 <= top < raw.len()
    &&& value(raw[top]) >= 3real / 4real
}

proof fn heights_are_near(raw: Seq<Real>, n: nat, top: int)
    requires
        are_heights(raw, top),
        n <= raw.len(),
    ensures
        near(grid_sum(raw, n), heights(raw, n), n as real * trace()),
        -(n as real / 1000000real) <= heights(raw, n) <= n as real * (11real / 10real),
        top < n ==> heights(raw, n) >= 7real / 10real - n as real / 1000000real,
    decreases n,
{
    let t = trace();
    if n == 0 {
        zero_is_zero();
        assert(0real * t == 0real && 0real * (11real / 10real) == 0real) by (nonlinear_arith);
    } else {
        let k = (n - 1) as nat;
        heights_are_near(raw, k, top);
        let g = raw[k as int].on_grid();
        on_grid_is_near(raw[k as int], value(raw[k as int]), 0real);
        let (i, j) = (k as real, n as real);
        one_more(i, j, t);
        one_more(i, j, 11real / 10real);
        at_most_times(i, 511real, t);
        at_most_times(i, 511real, 11real / 10real);
        let h = heights(raw, k);
        near_plus(grid_sum(raw, k), h, i * t, g, value(g), 0real, j * t);
    }
}

/// The weights of a kernel, each a height on the grid over the sum of all of them, make up one.
pub proof fn weights_make_up_one(raw: Seq<Real>, weights: Seq<Real>, top: int)
    requires
        are_heights(raw, top),
        weights.len() == raw.len(),
        forall|k: int|
            0 <= k < raw.len() ==> #[trigger] weights[k] == raw[k].on_grid().over(
                grid_sum(raw, raw.len()),
            ),
    ensures
        close(weights_to(weights, weights.len()), 1real, 1real / 100000real),
{
    let n = raw.len();
    heights_are_near(raw, n, top);
    let s = heights(raw, n);
    assert(s >= 1real / 2real);
    weights_are_near(raw, weights, top, n);
    at_most_times(n as real, 511real, 9000real * trace());
    assert(s / s == 1real) by (nonlinear_arith)
        requires
            s > 0real,
    ;
}

proof fn weights_are_near(raw: Seq<Real>, weights: Seq<Real>, top: int, n: nat)
    requires
        are_heights(raw, top),
        weights.len() == raw.len(),
        n <= raw.len(),
        forall|k: int|
            0 <= k < raw.len() ==> #[trigger] weights[k] == raw[k].on_grid().over(
                grid_sum(raw, raw.len()),
            ),
    ensures
        close(
            weights_to(weights, n),
            heights(raw, n) / heights(raw, raw.len()),
            n as real * (9000real * trace()),
        ),
    decreases n,
{
    let t = trace();
    let s = heights(raw, raw.len());
    let m = raw.len();
    heights_are_near(raw, m, top);
    at_most_times(m as real, 511real, t);
    at_most_times(m as real, 511real, 11real / 10real);
    assert(1real / 2real <= s <= 600real);
    if n == 0 {
        assert(0real / s == 0real) by (nonlinear_arith)
            requires
                s > 0real,
        ;
        assert(0real * (9000real * t) == 0real) by (nonlinear_arith);
    } else {
        let k = (n - 1) as nat;
        weights_are_near(raw, weights, top, k);
        let g = raw[k as int].on_grid();
        on_grid_is_near(raw[k as int], value(raw[k as int]), 0real);
        let e = m as real * t;
        let all = grid_sum(raw, m);
        assert(near(all, s, 511real * t));
        near_over(g, value(g), 0real, all, s, 511real * t, 2real, 3real, 9000real * t);
        one_more(k as real, n as real, 9000real * t);
        let (p, q) = (heights(raw, k), value(g));
        assert((p + q) / s == p / s + q / s) by (nonlinear_arith)
            requires
                s > 0real,
        ;
    }
}

} // verus!
