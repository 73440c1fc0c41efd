//! Sums over ranges and rectangles.
use vstd::prelude::*;

verus! {

/// `f(a) + ... + f(b - 1)`.
pub open spec fn sum_range(f: spec_fn(int) -> int, a: int, b: int) -> int
    decreases b - a,
{
    if a >= b {
        0
    } else {
        sum_range(f, a, b - 1) + f(b - 1)
    }
}

/// The sum of `f(x, y)` over the columns `x0..x1` of row `y`.
pub open spec fn sum_row(f: spec_fn(int, int) -> int, x0: int, x1: int, y: int) -> int
    decreases x1 - x0,
{
    if x0 >= x1 {
        0
    } else {
        sum_row(f, x0, x1 - 1, y) + f(x1 - 1, y)
    }
}

/// The sum of `f(x, y)` over the columns `x0..x1` of the rows `y0..y1`.
pub open spec fn sum_box(f: spec_fn(int, int) -> int, x0: int, x1: int, y0: int, y1: int) -> int
    decreases y1 - y0,
{
    if y0 >= y1 {
        0
    } else {
        sum_box(f, x0, x1, y0, y1 - 1) + sum_row(f, x0, x1, y1 - 1)
    }
}

/// A sum can be split at any place.
pub proof fn sum_range_splits(f: spec_fn(int) -> int, a: int, m: int, b: int)
    requires
        a <= m <= b,
    ensures
        sum_range(f, a, b) == sum_range(f, a, m) + sum_range(f, m, b),
    decreases b - m,
{
    if m < b {
        sum_range_splits(f, a, m, b - 1);
    }
}

/// A sum of bounded terms is bounded.
pub proof fn sum_range_bounds(f: spec_fn(int) -> int, a: int, b: int, low: int, high: int)
    requires
        a <= b,
        forall|i: int| a <= i < b ==> low <= #[trigger] f(i) <= high,
    ensures
        low * (b - a) <= sum_range(f, a, b) <= high * (b - a),
    decreases b - a,
{
    if a < b {
        sum_range_bounds(f, a, b - 1, low, high);
        assert(low <= f(b - 1) <= high);
        assert(low * (b - a) == low * (b - 1 - a) + low) by (nonlinear_arith);
        assert(high * (b - a) == high * (b - 1 - a) + high) by (nonlinear_arith);
    } else {
        assert(low * (b - a) == 0 && high * (b - a) == 0) by (nonlinear_arith)
            requires
                b == a,
        ;
    }
}

/// A sum along a row can be split at any column.
pub proof fn sum_row_splits(f: spec_fn(int, int) -> int, x0: int, m: int, x1: int, y: int)
    requires
        x0 <= m <= x1,
    ensures
        sum_row(f, x0, x1, y) == sum_row(f, x0, m, y) + sum_row(f, m, x1, y),
    decreases x1 - m,
{
    if m < x1 {
        sum_row_splits(f, x0, m, x1 - 1, y);
    }
}

/// A sum over a box can be split at any column.
pub proof fn sum_box_splits_columns(
    f: spec_fn(int, int) -> int,
    x0: int,
    m: int,
    x1: int,
    y0: int,
    y1: int,
)
    requires
        x0 <= m <= x1,
    ensures
        sum_box(f, x0, x1, y0, y1) == sum_box(f, x0, m, y0, y1) + sum_box(f, m, x1, y0, y1),
    decreases y1 - y0,
{
    if y0 < y1 {
        sum_box_splits_columns(f, x0, m, x1, y0, y1 - 1);
        sum_row_splits(f, x0, m, x1, y1 - 1);
    }
}

/// A sum over a box can be split at any row.
pub proof fn sum_box_splits_rows(
    f: spec_fn(int, int) -> int,
    x0: int,
    x1: int,
    y0: int,
    m: int,
    y1: int,
)
    requires
        y0 <= m <= y1,
    ensures
        sum_box(f, x0, x1, y0, y1) == sum_box(f, x0, x1, y0, m) + sum_box(f, x0, x1, m, y1),
    decreases y1 - m,
{
    if m < y1 {
        sum_box_splits_rows(f, x0, x1, y0, m, y1 - 1);
    }
}

/// A sum of bounded terms along a row is bounded.
pub proof fn sum_row_bounds(
    f: spec_fn(int, int) -> int,
    x0: int,
    x1: int,
    y: int,
    low: int,
    high: int,
)
    requires
        x0 <= x1,
        forall|x: int| x0 <= x < x1 ==> low <= #[trigger] f(x, y) <= high,
    ensures
        low * (x1 - x0) <= sum_row(f, x0, x1, y) <= high * (x1 - x0),
    decreases x1 - x0,
{
    if x0 < x1 {
        sum_row_bounds(f, x0, x1 - 1, y, low, high);
        assert(low <= f(x1 - 1, y) <= high);
        assert(low * (x1 - x0) == low * (x1 - 1 - x0) + low) by (nonlinear_arith);
        assert(high * (x1 - x0) == high * (x1 - 1 - x0) + high) by (nonlinear_arith);
    } else {
        assert(low * (x1 - x0) == 0 && high * (x1 - x0) == 0) by (nonlinear_arith)
            requires
                x1 == x0,
        ;
    }
}

/// A sum of bounded terms over a box is bounded.
pub proof fn sum_box_bounds(
    f: spec_fn(int, int) -> int,
    x0: int,
    x1: int,
    y0: int,
    y1: int,
    low: int,
    high: int,
)
    requires
        x0 <= x1,
        y0 <= y1,
        forall|x: int, y: int|
            x0 <= x < x1 && y0 <= y < y1 ==> low <= #[trigger] f(x, y) <= high,
    ensures
        low * ((x1 - x0) * (y1 - y0)) <= sum_box(f, x0, x1, y0, y1) <= high * ((x1 - x0) * (y1
            - y0)),
    decreases y1 - y0,
{
    let w = x1 - x0;
    let h = y1 - y0;
    if y0 < y1 {
        sum_box_bounds(f, x0, x1, y0, y1 - 1, low, high);
        sum_row_bounds(f, x0, x1, y1 - 1, low, high);
        assert(low * (w * h) == low * (w * (h - 1)) + low * w) by (nonlinear_arith);
        assert(high * (w * h) == high * (w * (h - 1)) + high * w) by (nonlinear_arith);
    } else {
        assert(low * (w * h) == 0 && high * (w * h) == 0) by (nonlinear_arith)
            requires
                h == 0,
        ;
    }
}

/// The sum over a rectangle by sums that all start at the origin.
pub proof fn sum_box_by_corners(
    f: spec_fn(int, int) -> int,
    x0: int,
    x1: int,
    y0: int,
    y1: int,
)
    requires
        0 <= x0 <= x1,
        0 <= y0 <= y1,
    ensures
        sum_box(f, x0, x1, y0, y1) == sum_box(f, 0, x1, 0, y1) + sum_box(f, 0, x0, 0, y0)
            - sum_box(f, 0, x1, 0, y0) - sum_box(f, 0, x0, 0, y1),
{
    sum_box_splits_rows(f, 0, x1, 0, y0, y1);
    sum_box_splits_rows(f, 0, x0, 0, y0, y1);
    sum_box_splits_columns(f, 0, x0, x1, y0, y1);
}

/// One more column and row of a sum from the origin.
pub proof fn sum_box_corner_step(f: spec_fn(int, int) -> int, x: int, y: int)
    requires
        0 <= x,
        0 <= y,
    ensures
        sum_box(f, 0, x + 1, 0, y + 1) == f(x, y) + sum_box(f, 0, x + 1, 0, y) + sum_box(
            f,
            0,
            x,
            0,
            y + 1,
        ) - sum_box(f, 0, x, 0, y),
{
    assert(sum_row(f, 0, x + 1, y) == sum_row(f, 0, x, y) + f(x, y));
}

/// Sums of functions that agree are equal.
pub proof fn sum_box_agrees(
    f: spec_fn(int, int) -> int,
    g: spec_fn(int, int) -> int,
    x0: int,
    x1: int,
    y0: int,
    y1: int,
)
    requires
        forall|x: int, y: int| x0 <= x < x1 && y0 <= y < y1 ==> #[trigger] f(x, y) == g(x, y),
    ensures
        sum_box(f, x0, x1, y0, y1) == sum_box(g, x0, x1, y0, y1),
    decreases y1 - y0,
{
    if y0 < y1 {
        sum_box_agrees(f, g, x0, x1, y0, y1 - 1);
        sum_row_agrees(f, g, x0, x1, y1 - 1);
    }
}

/// Sums along a row of terms that agree are equal.
pub proof fn sum_row_agrees(
    f: spec_fn(int, int) -> int,
    g: spec_fn(int, int) -> int,
    x0: int,
    x1: int,
    y: int,
)
    requires
        forall|x: int| x0 <= x < x1 ==> #[trigger] f(x, y) == g(x, y),
    ensures
        sum_row(f, x0, x1, y) == sum_row(g, x0, x1, y),
    decreases x1 - x0,
{
    if x0 < x1 {
        sum_row_agrees(f, g, x0, x1 - 1, y);
    }
}

/// The sum of two functions sums to the sum of their sums, over a row.
pub proof fn sum_row_adds(
    f: spec_fn(int, int) -> int,
    g: spec_fn(int, int) -> int,
    h: spec_fn(int, int) -> int,
    x0: int,
    x1: int,
    y: int,
)
    requires
        forall|x: int| x0 <= x < x1 ==> #[trigger] h(x, y) == f(x, y) + g(x, y),
    ensures
        sum_row(h, x0, x1, y) == sum_row(f, x0, x1, y) + sum_row(g, x0, x1, y),
    decreases x1 - x0,
{
    if x0 < x1 {
        sum_row_adds(f, g, h, x0, x1 - 1, y);
        assert(h(x1 - 1, y) == f(x1 - 1, y) + g(x1 - 1, y));
    }
}

/// The sum of two functions sums to the sum of their sums, over a rectangle.
pub proof fn sum_box_adds(
    f: spec_fn(int, int) -> int,
    g: spec_fn(int, int) -> int,
    h: spec_fn(int, int) -> int,
    x0: int,
    x1: int,
    y0: int,
    y1: int,
)
    requires
        forall|x: int, y: int|
            x0 <= x < x1 && y0 <= y < y1 ==> #[trigger] h(x, y) == f(x, y) + g(x, y),
    ensures
        sum_box(h, x0, x1, y0, y1) == sum_box(f, x0, x1, y0, y1) + sum_box(g, x0, x1, y0, y1),
    decreases y1 - y0,
{
    if y0 < y1 {
        sum_box_adds(f, g, h, x0, x1, y0, y1 - 1);
        sum_row_adds(f, g, h, x0, x1, y1 - 1);
    }
}

/// Squares of distances from a multiple add up to no less than nothing, over a row.
proof fn sum_row_spread(
    f: spec_fn(int, int) -> int,
    square: spec_fn(int, int) -> int,
    x0: int,
    x1: int,
    y: int,
    m: int,
    c: int,
)
    requires
        x0 <= x1,
        forall|x: int| x0 <= x < x1 ==> #[trigger] square(x, y) == f(x, y) * f(x, y),
    ensures
        m * m * sum_row(square, x0, x1, y) - 2 * m * c * sum_row(f, x0, x1, y) + c * c * (x1 - x0)
            >= 0,
    decreases x1 - x0,
{
    if x0 < x1 {
        sum_row_spread(f, square, x0, x1 - 1, y, m, c);
        let v = f(x1 - 1, y);
        assert(square(x1 - 1, y) == v * v);
        let (s, q, n) = (sum_row(f, x0, x1 - 1, y), sum_row(square, x0, x1 - 1, y), x1 - 1 - x0);
        assert(m * m * (q + v * v) - 2 * m * c * (s + v) + c * c * (n + 1) == m * m * q - 2 * m * c
            * s + c * c * n + (m * v - c) * (m * v - c)) by (nonlinear_arith);
        assert((m * v - c) * (m * v - c) >= 0) by (nonlinear_arith);
    } else {
        assert(m * m * 0 - 2 * m * c * 0 + c * c * (x1 - x0) == 0) by (nonlinear_arith)
            requires
                x1 == x0,
        ;
    }
}

proof fn sum_box_spread(
    f: spec_fn(int, int) -> int,
    square: spec_fn(int, int) -> int,
    x0: int,
    x1: int,
    y0: int,
    y1: int,
    m: int,
    c: int,
)
    requires
        x0 <= x1,
        y0 <= y1,
        forall|x: int, y: int|
            x0 <= x < x1 && y0 <= y < y1 ==> #[trigger] square(x, y) == f(x, y) * f(x, y),
    ensures
        m * m * sum_box(square, x0, x1, y0, y1) - 2 * m * c * sum_box(f, x0, x1, y0, y1) + c * c * (
        (x1 - x0) * (y1 - y0)) >= 0,
    decreases y1 - y0,
{
    let w = x1 - x0;
    if y0 < y1 {
        sum_box_spread(f, square, x0, x1, y0, y1 - 1, m, c);
        sum_row_spread(f, square, x0, x1, y1 - 1, m, c);
        let (s, q) = (sum_box(f, x0, x1, y0, y1 - 1), sum_box(square, x0, x1, y0, y1 - 1));
        let (t, r) = (sum_row(f, x0, x1, y1 - 1), sum_row(square, x0, x1, y1 - 1));
        let h = y1 - y0;
        assert(m * m * (q + r) - 2 * m * c * (s + t) + c * c * (w * h) == (m * m * q - 2 * m * c * s
            + c * c * (w * (h - 1))) + (m * m * r - 2 * m * c * t + c * c * w)) by (nonlinear_arith);
    } else {
        assert(m * m * 0 - 2 * m * c * 0 + c * c * (w * (y1 - y0)) == 0) by (nonlinear_arith)
            requires
                y1 == y0,
        ;
    }
}

/// The square of a sum is at most the sum of the squares as often as there are places.
pub proof fn square_of_sum(
    f: spec_fn(int, int) -> int,
    square: spec_fn(int, int) -> int,
    x0: int,
    x1: int,
    y0: int,
    y1: int,
)
    requires
        x0 < x1,
        y0 < y1,
        forall|x: int, y: int|
            x0 <= x < x1 && y0 <= y < y1 ==> #[trigger] square(x, y) == f(x, y) * f(x, y),
    ensures
        sum_box(f, x0, x1, y0, y1) * sum_box(f, x0, x1, y0, y1) <= ((x1 - x0) * (y1 - y0))
            * sum_box(square, x0, x1, y0, y1),
{
    let n = (x1 - x0) * (y1 - y0);
    let s = sum_box(f, x0, x1, y0, y1);
    let q = sum_box(square, x0, x1, y0, y1);
    sum_box_spread(f, square, x0, x1, y0, y1, n, s);
    assert(n > 0) by (nonlinear_arith)
        requires
            n == (x1 - x0) * (y1 - y0),
            x0 < x1,
            y0 < y1,
    ;
    assert(s * s <= n * q) by (nonlinear_arith)
        requires
            n * n * q - 2 * n * s * s + s * s * n >= 0,
            n > 0,
    {
        assert(n * n * q - 2 * n * s * s + s * s * n == n * (n * q - s * s));
        assert(n * (n * q - s * s) >= 0);
    }
}

} // verus!
