//! Summed-area tables: the sum over any rectangle from four entries.
use vstd::prelude::*;

use crate::raster::{place, place_is_inside};
use crate::sums::{sum_box, sum_box_bounds, sum_box_by_corners, sum_box_corner_step};

verus! {

/// Values laid out row by row, as a function of column and row.
pub open spec fn grid(values: Seq<u32>, w: int) -> spec_fn(int, int) -> int {
    |x: int, y: int| values[place(w, x, y)] as int
}

/// A table with one more column and row than its values; entry `(x, y)` is the sum of
/// all values left of column `x` and above row `y`.
pub struct Table {
    pub stride: usize,
    pub rows: usize,
    pub sums: Vec<u64>,
}

impl Table {
    /// The table holds the sums of `values`, which are laid out in rows of `w`.
    pub open spec fn sums_up(&self, values: Seq<u32>, w: int, h: int) -> bool {
        &&& self.stride == w + 1
        &&& self.rows == h + 1
        &&& self.sums@.len() == (w + 1) * (h + 1)
        &&& values.len() == w * h
        &&& values.len() <= 0x2000_0000_0000
        &&& forall|i: int| 0 <= i < values.len() ==> #[trigger] values[i] <= 0xFFFF
        &&& forall|x: int, y: int|
            0 <= x <= w && 0 <= y <= h ==> #[trigger] self.sums@[place(w + 1, x, y)] == sum_box(
                grid(values, w),
                0,
                x,
                0,
                y,
            )
    }
}

proof fn corner_sum_bounds(values: Seq<u32>, w: int, h: int, x: int, y: int)
    requires
        values.len() == w * h,
        values.len() <= 0x2000_0000_0000,
        forall|i: int| 0 <= i < values.len() ==> #[trigger] values[i] <= 0xFFFF,
        0 <= x <= w,
        0 <= y <= h,
    ensures
        0 <= sum_box(grid(values, w), 0, x, 0, y) <= 0xFFFF * 0x2000_0000_0000,
{
    let f = grid(values, w);
    assert forall|i: int, j: int| 0 <= i < x && 0 <= j < y implies 0 <= #[trigger] f(i, j)
        <= 0xFFFF by {
        place_is_inside(w, h, i, j);
    }
    sum_box_bounds(f, 0, x, 0, y, 0, 0xFFFF);
    assert(x * y <= w * h) by (nonlinear_arith)
        requires
            0 <= x <= w,
            0 <= y <= h,
    ;
    assert(x * y >= 0) by (nonlinear_arith)
        requires
            0 <= x,
            0 <= y,
    ;
}

/// Sums up values that are laid out row by row.
pub fn table_of(values: &Vec<u32>, w: usize, h: usize) -> (t: Table)
    requires
        values@.len() == w * h,
        values@.len() <= 0x2000_0000_0000,
        (w + 1) * (h + 1) <= usize::MAX,
        forall|i: int| 0 <= i < values@.len() ==> #[trigger] values@[i] <= 0xFFFF,
    ensures
        t.sums_up(values@, w as int, h as int),
{
    let ghost f = grid(values@, w as int);
    let ghost wi = w as int;
    proof {
        let a = w as int;
        let b = h as int;
        assert(a + 1 <= (a + 1) * (b + 1) && b + 1 <= (a + 1) * (b + 1)) by (nonlinear_arith)
            requires
                a >= 0,
                b >= 0,
        ;
    }
    let stride: usize = w + 1;
    let mut sums: Vec<u64> = Vec::new();
    let mut x: usize = 0;
    while x < stride
        invariant
            stride == w + 1,
            x <= stride,
            sums@.len() == x,
            forall|i: int| 0 <= i < x ==> #[trigger] sums@[i] == 0,
        decreases stride - x,
    {
        sums.push(0);
        x = x + 1;
    }
    let mut y: usize = 0;
    proof {
        assert((wi + 1) * 1 == wi + 1) by (nonlinear_arith);
        assert forall|i: int, j: int| 0 <= i <= wi && 0 <= j <= 0 implies #[trigger] sums@[place(
            wi + 1,
            i,
            j,
        )] == sum_box(f, 0, i, 0, j) by {
            assert(0 * (wi + 1) == 0) by (nonlinear_arith);
        }
    }
    while y < h
        invariant
            stride == w + 1,
            wi == w,
            f == grid(values@, wi),
            values@.len() == w * h,
            values@.len() <= 0x2000_0000_0000,
            (w + 1) * (h + 1) <= usize::MAX,
            forall|i: int| 0 <= i < values@.len() ==> #[trigger] values@[i] <= 0xFFFF,
            y <= h,
            sums@.len() == (wi + 1) * (y + 1),
            forall|i: int, j: int|
                0 <= i <= wi && 0 <= j <= y ==> #[trigger] sums@[place(wi + 1, i, j)] == sum_box(
                    f,
                    0,
                    i,
                    0,
                    j,
                ),
        decreases h - y,
    {
        let ghost yi = y as int;
        let ghost before = sums@;
        proof {
            let a = wi + 1;
            assert((yi + 1) * a == a * (yi + 1)) by (nonlinear_arith);
            assert(a * (yi + 1) + a == a * (yi + 2)) by (nonlinear_arith);
            assert(a * (yi + 2) <= a * (h + 1)) by (nonlinear_arith)
                requires
                    a >= 0,
                    yi + 2 <= h + 1,
            ;
        }
        sums.push(0);
        proof {
            empty_columns(f, yi + 1);
            assert forall|i: int, j: int|
                0 <= i <= wi && 0 <= j <= yi || (j == yi + 1 && i == 0) implies #[trigger] sums@[place(
                wi + 1,
                i,
                j,
            )] == sum_box(f, 0, i, 0, j) by {
                if j <= yi {
                    place_is_inside(wi + 1, yi + 1, i, j);
                    assert(sums@[place(wi + 1, i, j)] == before[place(wi + 1, i, j)]);
                }
            }
        }
        let mut x: usize = 0;
        while x < w
            invariant
                stride == w + 1,
                wi == w,
                yi == y,
                y < h,
                f == grid(values@, wi),
                values@.len() == w * h,
                values@.len() <= 0x2000_0000_0000,
                (w + 1) * (h + 1) <= usize::MAX,
                forall|i: int| 0 <= i < values@.len() ==> #[trigger] values@[i] <= 0xFFFF,
                x <= w,
                sums@.len() == (yi + 1) * (wi + 1) + x + 1,
                (yi + 1) * (wi + 1) + wi + 1 <= usize::MAX,
                forall|i: int, j: int|
                    0 <= i <= wi && 0 <= j <= yi || (j == yi + 1 && 0 <= i <= x)
                        ==> #[trigger] sums@[place(wi + 1, i, j)] == sum_box(f, 0, i, 0, j),
            decreases w - x,
        {
            let ghost row = sums@;
            let ghost xi = x as int;
            proof {
                let a = wi + 1;
                assert((yi + 1) * a == yi * a + a) by (nonlinear_arith);
                assert(0 <= yi * a) by (nonlinear_arith)
                    requires
                        yi >= 0,
                        a >= 0,
                ;
                assert(yi * wi <= yi * a) by (nonlinear_arith)
                    requires
                        yi >= 0,
                        a == wi + 1,
                ;
                place_is_inside(wi, h as int, xi, yi);
                assert(0 <= yi * wi) by (nonlinear_arith)
                    requires
                        yi >= 0,
                        wi >= 0,
                ;
                sum_box_corner_step(f, xi, yi);
                corner_sum_bounds(values@, wi, h as int, xi + 1, yi);
                corner_sum_bounds(values@, wi, h as int, xi, yi + 1);
                corner_sum_bounds(values@, wi, h as int, xi, yi);
                corner_sum_bounds(values@, wi, h as int, xi + 1, yi + 1);
                assert(sums@[place(a, xi + 1, yi)] == sum_box(f, 0, xi + 1, 0, yi));
                assert(sums@[place(a, xi, yi + 1)] == sum_box(f, 0, xi, 0, yi + 1));
                assert(sums@[place(a, xi, yi)] == sum_box(f, 0, xi, 0, yi));
            }
            let v: u64 = values[y * w + x] as u64;
            let up: u64 = sums[y * stride + x + 1];
            let left: u64 = sums[(y + 1) * stride + x];
            let corner: u64 = sums[y * stride + x];
            sums.push(v + up + left - corner);
            proof {
                assert forall|i: int, j: int|
                    0 <= i <= wi && 0 <= j <= yi || (j == yi + 1 && 0 <= i <= xi + 1) implies #[trigger] sums@[place(
                    wi + 1,
                    i,
                    j,
                )] == sum_box(f, 0, i, 0, j) by {
                    if j <= yi {
                        place_is_inside(wi + 1, yi + 1, i, j);
                        assert((wi + 1) * (yi + 1) == (yi + 1) * (wi + 1)) by (nonlinear_arith);
                        assert(sums@[place(wi + 1, i, j)] == row[place(wi + 1, i, j)]);
                    } else if i <= xi {
                        assert(sums@[place(wi + 1, i, j)] == row[place(wi + 1, i, j)]);
                    }
                }
            }
            x = x + 1;
        }
        proof {
            let a = wi + 1;
            assert((yi + 1) * a + a == a * (yi + 2)) by (nonlinear_arith);
        }
        y = y + 1;
    }
    Table { stride, rows: h + 1, sums }
}

proof fn empty_columns(f: spec_fn(int, int) -> int, y: int)
    requires
        y >= 0,
    ensures
        sum_box(f, 0, 0, 0, y) == 0,
    decreases y,
{
    if y > 0 {
        empty_columns(f, y - 1);
    }
}

/// The sum of the values in the columns `x0..x1` of the rows `y0..y1`.
pub fn rect_sum(
    t: &Table,
    Ghost(values): Ghost<Seq<u32>>,
    x0: usize,
    y0: usize,
    x1: usize,
    y1: usize,
) -> (r: u64)
    requires
        t.sums_up(values, t.stride - 1, t.rows - 1),
        x0 <= x1 < t.stride,
        y0 <= y1 < t.rows,
    ensures
        r == sum_box(grid(values, t.stride - 1), x0 as int, x1 as int, y0 as int, y1 as int),
{
    let ghost w = t.stride - 1;
    let ghost h = t.rows - 1;
    let ghost f = grid(values, w);
    let size: usize = t.sums.len();
    proof {
        let a = w + 1;
        sum_box_by_corners(f, x0 as int, x1 as int, y0 as int, y1 as int);
        corner_sum_bounds(values, w, h, x0 as int, y0 as int);
        corner_sum_bounds(values, w, h, x1 as int, y1 as int);
        corner_sum_bounds(values, w, h, x0 as int, y1 as int);
        corner_sum_bounds(values, w, h, x1 as int, y0 as int);
        place_is_inside(a, h + 1, x0 as int, y0 as int);
        place_is_inside(a, h + 1, x1 as int, y1 as int);
        place_is_inside(a, h + 1, x0 as int, y1 as int);
        place_is_inside(a, h + 1, x1 as int, y0 as int);
        let i = y0 as int;
        let j = y1 as int;
        assert(0 <= i * a && 0 <= j * a) by (nonlinear_arith)
            requires
                i >= 0,
                j >= 0,
                a >= 0,
        ;
        assert forall|x: int, y: int| x0 <= x < x1 && y0 <= y < y1 implies 0 <= #[trigger] f(x, y)
            <= 0xFFFF by {
            place_is_inside(w, h, x, y);
        }
        sum_box_bounds(f, x0 as int, x1 as int, y0 as int, y1 as int, 0, 0xFFFF);
        let n = (x1 - x0) * (y1 - y0);
        assert(0 <= n) by (nonlinear_arith)
            requires
                n == (x1 - x0) * (y1 - y0),
                x0 <= x1,
                y0 <= y1,
        ;
        assert(t.sums@[place(a, x0 as int, y0 as int)] == sum_box(f, 0, x0 as int, 0, y0 as int));
        assert(t.sums@[place(a, x1 as int, y1 as int)] == sum_box(f, 0, x1 as int, 0, y1 as int));
        assert(t.sums@[place(a, x0 as int, y1 as int)] == sum_box(f, 0, x0 as int, 0, y1 as int));
        assert(t.sums@[place(a, x1 as int, y0 as int)] == sum_box(f, 0, x1 as int, 0, y0 as int));
    }
    let a: u64 = t.sums[y1 * t.stride + x1];
    let b: u64 = t.sums[y0 * t.stride + x0];
    let c: u64 = t.sums[y0 * t.stride + x1];
    let d: u64 = t.sums[y1 * t.stride + x0];
    (a + b) - (c + d)
}

} // verus!
