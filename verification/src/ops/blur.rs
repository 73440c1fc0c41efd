//! Blur, median and unsharp mask.
use vstd::prelude::*;

use crate::binary::{Four, Real};
use crate::error::{op_error, op_fault, verdict, AtxError, Fault};
use crate::number::{is_within, within, Number, FIFTY, FOUR, HUNDRED, TENTH, THREE, TWO, ZERO};
use crate::raster::{channel, inside, Image, Rgba};
use crate::sums::{sum_box, sum_box_adds, sum_box_bounds, sum_row, sum_row_bounds};
use crate::text::{cat2, dec, decimal};

verus! {

/// What is wrong with the parameters of `blur`.
pub open spec fn blur_fault(index: int, sigma: Number) -> Option<Fault> {
    if within(sigma.bits, TENTH, HUNDRED) {
        None
    } else {
        op_fault(index, "blur"@, "sigma must be within 0.1..=100.0, got "@ + sigma.text@)
    }
}

/// Checks the parameters of `blur`.
pub fn validate_blur(index: usize, sigma: &Number) -> (r: Result<(), AtxError>)
    ensures
        verdict(r) == blur_fault(index as int, *sigma),
{
    if !is_within(sigma.bits, TENTH, HUNDRED) {
        let message: String = cat2("sigma must be within 0.1..=100.0, got ", sigma.text.as_str());
        return Err(op_error(index, "blur", message.as_str()));
    }
    Ok(())
}

/// What is wrong with the parameters of `median`.
pub open spec fn median_fault(index: int, radius: u32) -> Option<Fault> {
    if 1 <= radius <= 16 {
        None
    } else {
        op_fault(
            index,
            "median"@,
            "radius must be within 1..=16, got "@ + decimal(radius as nat),
        )
    }
}

/// Checks the parameters of `median`.
pub fn validate_median(index: usize, radius: u32) -> (r: Result<(), AtxError>)
    ensures
        verdict(r) == median_fault(index as int, radius),
{
    if radius < 1 || radius > 16 {
        let number: String = dec(radius as u64);
        let message: String = cat2("radius must be within 1..=16, got ", number.as_str());
        return Err(op_error(index, "median", message.as_str()));
    }
    Ok(())
}

/// What is wrong with the parameters of `unsharp_mask`. Every threshold is in order.
pub open spec fn unsharp_fault(index: int, amount: Number, radius: Number) -> Option<Fault> {
    if !within(amount.bits, ZERO, FOUR) {
        op_fault(index, "unsharp_mask"@, "amount must be within 0.0..=4.0, got "@ + amount.text@)
    } else if !within(radius.bits, TENTH, FIFTY) {
        op_fault(index, "unsharp_mask"@, "radius must be within 0.1..=50.0, got "@ + radius.text@)
    } else {
        None
    }
}

/// Checks the parameters of `unsharp_mask`.
pub fn validate_unsharp(index: usize, amount: &Number, radius: &Number, threshold: u8) -> (r:
    Result<(), AtxError>)
    ensures
        verdict(r) == unsharp_fault(index as int, *amount, *radius),
{
    if !is_within(amount.bits, ZERO, FOUR) {
        let message: String = cat2("amount must be within 0.0..=4.0, got ", amount.text.as_str());
        return Err(op_error(index, "unsharp_mask", message.as_str()));
    }
    if !is_within(radius.bits, TENTH, FIFTY) {
        let message: String = cat2("radius must be within 0.1..=50.0, got ", radius.text.as_str());
        return Err(op_error(index, "unsharp_mask", message.as_str()));
    }
    Ok(())
}

/// The reach of the kernel of a blur: three sigma, between 1 and 255.
pub open spec fn kernel_reach(sigma: Real) -> int {
    let n = (Real { bits: THREE }).times(sigma).ceiling_integer();
    if n < 1 {
        1
    } else if n > 255 {
        255
    } else {
        n as int
    }
}

/// The reach of the kernel of a blur.
pub fn kernel_radius(sigma: Real) -> (r: u32)
    ensures
        r == kernel_reach(sigma),
        1 <= r <= 255,
{
    let three: Real = Real { bits: THREE };
    let n: i64 = three.times(sigma).ceiling_integer();
    if n < 1 {
        1
    } else if n > 255 {
        255
    } else {
        n as u32
    }
}

/// The exponent of the weight at distance `i` from the middle of the kernel.
pub open spec fn exponent_at(sigma: Real, i: int) -> Real {
    Real::nearest_to(i * i).negated().over((Real { bits: TWO }).times(sigma).times(sigma))
}

/// The exponent of the weight at distance `i` from the middle of the kernel.
pub fn kernel_exponent(sigma: Real, i: i32) -> (r: Real)
    requires
        -255 <= i <= 255,
    ensures
        r == exponent_at(sigma, i as int),
{
    let two: Real = Real { bits: TWO };
    assert(0 <= i * i <= 255 * 255) by (nonlinear_arith)
        requires
            -255 <= i <= 255,
    ;
    let square: i64 = i as i64 * i as i64;
    Real::from_integer(square).negated().over(two.times(sigma).times(sigma))
}

/// The weights of a blur, from `-radius` to `radius`.
pub struct Kernel {
    pub radius: u32,
    pub weights: Vec<Real>,
}

impl Kernel {
    /// There is a weight for each distance.
    pub open spec fn well_formed(&self) -> bool {
        self.radius <= 255 && self.weights@.len() == 2 * self.radius + 1
    }
}

/// The sum of the first `n` weights on the grid, one after the other.
pub open spec fn grid_sum(raw: Seq<Real>, n: nat) -> Real
    decreases n,
{
    if n == 0 {
        Real { bits: ZERO }
    } else {
        grid_sum(raw, (n - 1) as nat).plus(raw[n - 1].on_grid())
    }
}

/// The kernel of a blur. `raw` are the exponentials of the exponents, in order; they
/// are put on a grid of millionths first, and then shared out so that they sum to 1.
pub fn gaussian_kernel(radius: u32, raw: &Vec<Real>) -> (r: Kernel)
    requires
        radius <= 255,
        raw@.len() == 2 * radius + 1,
    ensures
        r.well_formed(),
        r.radius == radius,
        forall|k: int|
            0 <= k < raw@.len() ==> #[trigger] r.weights@[k] == raw@[k].on_grid().over(
                grid_sum(raw@, raw@.len()),
            ),
{
    let mut sum: Real = Real { bits: ZERO };
    let mut i: usize = 0;
    while i < raw.len()
        invariant
            i <= raw@.len(),
            sum == grid_sum(raw@, i as nat),
        decreases raw.len() - i,
    {
        sum = sum.plus(raw[i].on_grid());
        i = i + 1;
    }
    let mut weights: Vec<Real> = Vec::new();
    let mut k: usize = 0;
    while k < raw.len()
        invariant
            k <= raw@.len(),
            weights@.len() == k,
            sum == grid_sum(raw@, raw@.len()),
            forall|j: int|
                0 <= j < k ==> #[trigger] weights@[j] == raw@[j].on_grid().over(
                    grid_sum(raw@, raw@.len()),
                ),
        decreases raw.len() - k,
    {
        weights.push(raw[k].on_grid().over(sum));
        k = k + 1;
    }
    Kernel { radius, weights }
}

/// Nothing in all channels.
pub open spec fn no_light() -> Four {
    let zero = Real { bits: ZERO };
    Four { r: zero, g: zero, b: zero, a: zero }
}

/// A sum with one more weighted part.
#[verifier::allow_in_spec]
pub fn add_weighted(acc: Four, v: Four, weight: Real) -> Four
    returns
        (Four {
            r: acc.r.plus(v.r.times(weight)),
            g: acc.g.plus(v.g.times(weight)),
            b: acc.b.plus(v.b.times(weight)),
            a: acc.a.plus(v.a.times(weight)),
        }),
{
    Four {
        r: acc.r.plus(v.r.times(weight)),
        g: acc.g.plus(v.g.times(weight)),
        b: acc.b.plus(v.b.times(weight)),
        a: acc.a.plus(v.a.times(weight)),
    }
}

/// A colour in bytes as numbers.
#[verifier::allow_in_spec]
pub fn byte_numbers(p: Rgba) -> Four
    returns
        (Four {
            r: Real::of_byte(p.r),
            g: Real::of_byte(p.g),
            b: Real::of_byte(p.b),
            a: Real::of_byte(p.a),
        }),
{
    Four {
        r: Real::of_byte(p.r),
        g: Real::of_byte(p.g),
        b: Real::of_byte(p.b),
        a: Real::of_byte(p.a),
    }
}

/// Numbers as the nearest bytes.
#[verifier::allow_in_spec]
pub fn nearest_bytes(v: Four) -> Rgba
    returns
        (Rgba { r: v.r.to_byte(), g: v.g.to_byte(), b: v.b.to_byte(), a: v.a.to_byte() }),
{
    Rgba { r: v.r.to_byte(), g: v.g.to_byte(), b: v.b.to_byte(), a: v.a.to_byte() }
}

/// The first `n` parts of the weighted sum along row `y` around column `x`. Beyond an
/// edge the pixel at the edge counts.
pub open spec fn row_blur(img: Image<Rgba>, kernel: Kernel, x: int, y: int, n: nat) -> Four
    decreases n,
{
    if n == 0 {
        no_light()
    } else {
        let at = inside(x + (n - 1 - kernel.radius), img.width as int);
        add_weighted(
            row_blur(img, kernel, x, y, (n - 1) as nat),
            byte_numbers(img.pixel(at, y)),
            kernel.weights@[n - 1],
        )
    }
}

/// The first `n` parts of the weighted sum of the blurred rows around row `y`.
pub open spec fn column_blur(img: Image<Rgba>, kernel: Kernel, x: int, y: int, n: nat) -> Four
    decreases n,
{
    if n == 0 {
        no_light()
    } else {
        let at = inside(y + (n - 1 - kernel.radius), img.height as int);
        add_weighted(
            column_blur(img, kernel, x, y, (n - 1) as nat),
            row_blur(img, kernel, x, at, kernel.weights@.len()),
            kernel.weights@[n - 1],
        )
    }
}

/// A pixel of the blurred image.
pub open spec fn blur_pixel(img: Image<Rgba>, kernel: Kernel, x: int, y: int) -> Rgba {
    nearest_bytes(column_blur(img, kernel, x, y, kernel.weights@.len()))
}

fn blur_along_row(img: &Image<Rgba>, kernel: &Kernel, x: u32, y: u32) -> (r: Four)
    requires
        img.well_formed(),
        kernel.well_formed(),
        x < img.width,
        y < img.height,
    ensures
        r == row_blur(*img, *kernel, x as int, y as int, kernel.weights@.len()),
{
    let zero: Real = Real { bits: ZERO };
    let mut acc: Four = Four { r: zero, g: zero, b: zero, a: zero };
    let mut k: usize = 0;
    while k < kernel.weights.len()
        invariant
            img.well_formed(),
            kernel.well_formed(),
            x < img.width,
            y < img.height,
            k <= kernel.weights@.len(),
            acc == row_blur(*img, *kernel, x as int, y as int, k as nat),
        decreases kernel.weights.len() - k,
    {
        let at: i64 = x as i64 + k as i64 - kernel.radius as i64;
        let px: Rgba = img.get_clamped(at, y as i64);
        acc = add_weighted(acc, byte_numbers(px), kernel.weights[k]);
        k = k + 1;
    }
    acc
}

fn blur_along_column(
    rows: &Image<Four>,
    img: &Image<Rgba>,
    kernel: &Kernel,
    x: u32,
    y: u32,
) -> (r: Four)
    requires
        rows.well_formed(),
        kernel.well_formed(),
        rows.width == img.width,
        rows.height == img.height,
        forall|i: int, j: int|
            0 <= i < rows.width && 0 <= j < rows.height ==> #[trigger] rows.pixel(i, j)
                == row_blur(*img, *kernel, i, j, kernel.weights@.len()),
        x < rows.width,
        y < rows.height,
    ensures
        r == column_blur(*img, *kernel, x as int, y as int, kernel.weights@.len()),
{
    let zero: Real = Real { bits: ZERO };
    let mut acc: Four = Four { r: zero, g: zero, b: zero, a: zero };
    let mut k: usize = 0;
    while k < kernel.weights.len()
        invariant
            rows.well_formed(),
            kernel.well_formed(),
            rows.width == img.width,
            rows.height == img.height,
            forall|i: int, j: int|
                0 <= i < rows.width && 0 <= j < rows.height ==> #[trigger] rows.pixel(i, j)
                    == row_blur(*img, *kernel, i, j, kernel.weights@.len()),
            x < rows.width,
            y < rows.height,
            k <= kernel.weights@.len(),
            acc == column_blur(*img, *kernel, x as int, y as int, k as nat),
        decreases kernel.weights.len() - k,
    {
        let at: i64 = y as i64 + k as i64 - kernel.radius as i64;
        let v: Four = rows.get_clamped(x as i64, at);
        acc = add_weighted(acc, v, kernel.weights[k]);
        k = k + 1;
    }
    acc
}

/// Blurs an image: along the rows first, then along the columns.
pub fn gaussian_blur(img: &Image<Rgba>, kernel: &Kernel) -> (r: Image<Rgba>)
    requires
        img.well_formed(),
        kernel.well_formed(),
    ensures
        r.well_formed(),
        r.width == img.width,
        r.height == img.height,
        forall|x: int, y: int|
            0 <= x < img.width && 0 <= y < img.height ==> #[trigger] r.pixel(x, y) == blur_pixel(
                *img,
                *kernel,
                x,
                y,
            ),
{
    let count: usize = img.data.len();
    let first = |x: u32, y: u32| -> (v: Four)
        requires
            img.well_formed(),
            kernel.well_formed(),
            x < img.width,
            y < img.height,
        ensures
            v == row_blur(*img, *kernel, x as int, y as int, kernel.weights@.len()),
        { blur_along_row(img, kernel, x, y) };
    let rows: Image<Four> = Image::build(img.width, img.height, first);
    proof {
        assert forall|i: int, j: int|
            0 <= i < rows.width && 0 <= j < rows.height implies #[trigger] rows.pixel(i, j)
            == row_blur(*img, *kernel, i, j, kernel.weights@.len()) by {
            assert(call_ensures(
                first,
                (i as u32, j as u32),
                rows.pixel(i as u32 as int, j as u32 as int),
            ));
        }
    }
    let second = |x: u32, y: u32| -> (p: Rgba)
        requires
            rows.well_formed(),
            kernel.well_formed(),
            rows.width == img.width,
            rows.height == img.height,
            forall|i: int, j: int|
                0 <= i < rows.width && 0 <= j < rows.height ==> #[trigger] rows.pixel(i, j)
                    == row_blur(*img, *kernel, i, j, kernel.weights@.len()),
            x < img.width,
            y < img.height,
        ensures
            p == blur_pixel(*img, *kernel, x as int, y as int),
        { nearest_bytes(blur_along_column(&rows, img, kernel, x, y)) };
    let r: Image<Rgba> = Image::build(img.width, img.height, second);
    proof {
        assert forall|x: int, y: int|
            0 <= x < img.width && 0 <= y < img.height implies #[trigger] r.pixel(x, y)
            == blur_pixel(*img, *kernel, x, y) by {
            assert(call_ensures(
                second,
                (x as u32, y as u32),
                r.pixel(x as u32 as int, y as u32 as int),
            ));
        }
    }
    r
}

/// A channel moved away from its blurred value, where the two differ by more than the
/// threshold.
pub open spec fn sharper(orig: u8, blurred: u8, amount: Real, threshold: u8) -> u8 {
    let diff = orig - blurred;
    if -threshold <= diff <= threshold {
        orig
    } else {
        Real::of_byte(orig).plus(amount.times(Real::nearest_to(diff))).to_byte()
    }
}

fn sharpen(orig: u8, blurred: u8, amount: Real, threshold: u8) -> (r: u8)
    ensures
        r == sharper(orig, blurred, amount, threshold),
{
    let diff: i32 = orig as i32 - blurred as i32;
    if diff <= threshold as i32 && -diff <= threshold as i32 {
        orig
    } else {
        Real::of_byte(orig).plus(amount.times(Real::from_integer(diff as i64))).to_byte()
    }
}

/// A pixel moved away from its blurred value.
pub open spec fn sharper_pixel(orig: Rgba, blurred: Rgba, amount: Real, threshold: u8) -> Rgba {
    Rgba {
        r: sharper(orig.r, blurred.r, amount, threshold),
        g: sharper(orig.g, blurred.g, amount, threshold),
        b: sharper(orig.b, blurred.b, amount, threshold),
        a: sharper(orig.a, blurred.a, amount, threshold),
    }
}

/// Sharpens an image: each channel moves away from its blurred value by `amount` times
/// the difference, unless the difference is within the threshold.
pub fn unsharp_mask(img: &Image<Rgba>, amount: Real, kernel: &Kernel, threshold: u8) -> (r: Image<
    Rgba,
>)
    requires
        img.well_formed(),
        kernel.well_formed(),
    ensures
        r.well_formed(),
        r.width == img.width,
        r.height == img.height,
        forall|x: int, y: int|
            0 <= x < img.width && 0 <= y < img.height ==> #[trigger] r.pixel(x, y)
                == sharper_pixel(
                img.pixel(x, y),
                blur_pixel(*img, *kernel, x, y),
                amount,
                threshold,
            ),
{
    let count: usize = img.data.len();
    let blurred: Image<Rgba> = gaussian_blur(img, kernel);
    let f = |x: u32, y: u32| -> (p: Rgba)
        requires
            img.well_formed(),
            blurred.well_formed(),
            blurred.width == img.width,
            blurred.height == img.height,
            x < img.width,
            y < img.height,
        ensures
            p == sharper_pixel(
                img.pixel(x as int, y as int),
                blurred.pixel(x as int, y as int),
                amount,
                threshold,
            ),
        {
            let o: Rgba = img.get(x, y);
            let b: Rgba = blurred.get(x, y);
            Rgba {
                r: sharpen(o.r, b.r, amount, threshold),
                g: sharpen(o.g, b.g, amount, threshold),
                b: sharpen(o.b, b.b, amount, threshold),
                a: sharpen(o.a, b.a, amount, threshold),
            }
        };
    let r: Image<Rgba> = Image::build(img.width, img.height, f);
    proof {
        assert forall|x: int, y: int|
            0 <= x < img.width && 0 <= y < img.height implies #[trigger] r.pixel(x, y)
            == sharper_pixel(
            img.pixel(x, y),
            blur_pixel(*img, *kernel, x, y),
            amount,
            threshold,
        ) by {
            assert(call_ensures(
                f,
                (x as u32, y as u32),
                r.pixel(x as u32 as int, y as u32 as int),
            ));
        }
    }
    r
}

/// A channel that is equal to its blurred value stays.
pub proof fn nothing_to_sharpen(orig: u8, amount: Real, threshold: u8)
    ensures
        sharper(orig, orig, amount, threshold) == orig,
{
}

/// A channel of the pixels around a place, by their distances from it. Beyond an edge
/// the pixel at the edge counts.
pub open spec fn around(img: Image<Rgba>, c: u8, x: int, y: int) -> spec_fn(int, int) -> int {
    |dx: int, dy: int|
        channel(
            img.pixel(inside(x + dx, img.width as int), inside(y + dy, img.height as int)),
            c,
        ) as int
}

/// One where a function is below `v`, else nothing.
pub open spec fn below(f: spec_fn(int, int) -> int, v: int) -> spec_fn(int, int) -> int {
    |dx: int, dy: int|
        if f(dx, dy) < v {
            1int
        } else {
            0
        }
}

/// One where a function is `v`, else nothing.
pub open spec fn exactly(f: spec_fn(int, int) -> int, v: int) -> spec_fn(int, int) -> int {
    |dx: int, dy: int|
        if f(dx, dy) == v {
            1int
        } else {
            0
        }
}

/// How many values within `radius` are below `v`.
pub open spec fn count_below(f: spec_fn(int, int) -> int, radius: int, v: int) -> int {
    sum_box(below(f, v), -radius, radius + 1, -radius, radius + 1)
}

/// `m` is the median of the values within `radius`: the one in the middle when they are
/// in order.
pub open spec fn is_median(f: spec_fn(int, int) -> int, radius: int, m: int) -> bool {
    let rank = ((2 * radius + 1) * (2 * radius + 1)) / 2;
    count_below(f, radius, m) <= rank < count_below(f, radius, m + 1)
}

proof fn count_below_step(f: spec_fn(int, int) -> int, radius: int, v: int)
    ensures
        count_below(f, radius, v + 1) == count_below(f, radius, v) + sum_box(
            exactly(f, v),
            -radius,
            radius + 1,
            -radius,
            radius + 1,
        ),
{
    let (a, b, c) = (below(f, v), exactly(f, v), below(f, v + 1));
    assert forall|x: int, y: int|
        -radius <= x < radius + 1 && -radius <= y < radius + 1 implies #[trigger] c(x, y) == a(
        x,
        y,
    ) + b(x, y) by {}
    sum_box_adds(a, b, c, -radius, radius + 1, -radius, radius + 1);
}

proof fn count_below_ends(f: spec_fn(int, int) -> int, radius: int)
    requires
        radius >= 0,
        forall|x: int, y: int| 0 <= #[trigger] f(x, y) < 256,
    ensures
        count_below(f, radius, 0) == 0,
        count_below(f, radius, 256) == (2 * radius + 1) * (2 * radius + 1),
{
    let n = 2 * radius + 1;
    sum_box_bounds(below(f, 0), -radius, radius + 1, -radius, radius + 1, 0, 0);
    sum_box_bounds(below(f, 256), -radius, radius + 1, -radius, radius + 1, 1, 1);
    assert((radius + 1 - (-radius)) * (radius + 1 - (-radius)) == n * n) by (nonlinear_arith)
        requires
            n == 2 * radius + 1,
    ;
}

proof fn counts_are_small(f: spec_fn(int, int) -> int, v: int, radius: int, dx: int, dy: int)
    requires
        0 <= radius <= 16,
        -radius <= dx <= radius + 1,
        -radius <= dy <= radius,
    ensures
        0 <= sum_box(exactly(f, v), -radius, radius + 1, -radius, dy) <= 33 * 33,
        0 <= sum_row(exactly(f, v), -radius, dx, dy) <= 33,
{
    let g = exactly(f, v);
    sum_box_bounds(g, -radius, radius + 1, -radius, dy, 0, 1);
    sum_row_bounds(g, -radius, dx, dy, 0, 1);
    let (w, h) = (radius + 1 - (-radius), dy - (-radius));
    assert(0 <= w * h <= 33 * 33) by (nonlinear_arith)
        requires
            0 <= w <= 33,
            0 <= h <= 33,
    ;
}

fn count_values(img: &Image<Rgba>, c: u8, x: u32, y: u32, radius: u32) -> (hist: Vec<u32>)
    requires
        img.well_formed(),
        x < img.width,
        y < img.height,
        radius <= 16,
    ensures
        hist@.len() == 256,
        forall|v: int|
            0 <= v < 256 ==> #[trigger] hist@[v] == sum_box(
                exactly(around(*img, c, x as int, y as int), v),
                -radius,
                radius + 1,
                -radius,
                radius + 1,
            ),
{
    let mut hist: Vec<u32> = vec![0; 256];
    let r: i64 = radius as i64;
    let ghost f = around(*img, c, x as int, y as int);
    let mut dy: i64 = -r;
    while dy <= r
        invariant
            img.well_formed(),
            x < img.width,
            y < img.height,
            r == radius,
            radius <= 16,
            -r <= dy <= r + 1,
            f == around(*img, c, x as int, y as int),
            hist@.len() == 256,
            forall|v: int|
                0 <= v < 256 ==> #[trigger] hist@[v] == sum_box(
                    exactly(f, v),
                    -r,
                    r + 1,
                    -r,
                    dy as int,
                ),
        decreases r + 1 - dy,
    {
        let mut dx: i64 = -r;
        while dx <= r
            invariant
                img.well_formed(),
                x < img.width,
                y < img.height,
                r == radius,
                radius <= 16,
                -r <= dy <= r,
                -r <= dx <= r + 1,
                f == around(*img, c, x as int, y as int),
                hist@.len() == 256,
                forall|v: int|
                    0 <= v < 256 ==> #[trigger] hist@[v] == sum_box(
                        exactly(f, v),
                        -r,
                        r + 1,
                        -r,
                        dy as int,
                    ) + sum_row(exactly(f, v), -r, dx as int, dy as int),
            decreases r + 1 - dx,
        {
            let px: Rgba = img.get_clamped(x as i64 + dx, y as i64 + dy);
            let value: usize = channel(px, c) as usize;
            assert(f(dx as int, dy as int) == value);
            proof {
                counts_are_small(f, value as int, r as int, dx as int, dy as int);
            }
            let ghost before = hist@;
            let count: u32 = hist[value];
            hist.set(value, count + 1);
            proof {
                assert forall|v: int| 0 <= v < 256 implies #[trigger] hist@[v] == sum_box(
                    exactly(f, v),
                    -r,
                    r + 1,
                    -r,
                    dy as int,
                ) + sum_row(exactly(f, v), -r, dx + 1, dy as int) by {
                    assert(before[v] == sum_box(exactly(f, v), -r, r + 1, -r, dy as int) + sum_row(
                        exactly(f, v),
                        -r,
                        dx as int,
                        dy as int,
                    ));
                }
            }
            dx = dx + 1;
        }
        dy = dy + 1;
    }
    hist
}

/// The median of one channel around a place.
fn median_channel(img: &Image<Rgba>, c: u8, x: u32, y: u32, radius: u32) -> (m: u8)
    requires
        img.well_formed(),
        x < img.width,
        y < img.height,
        radius <= 16,
    ensures
        is_median(around(*img, c, x as int, y as int), radius as int, m as int),
{
    let ghost f = around(*img, c, x as int, y as int);
    let hist: Vec<u32> = count_values(img, c, x, y, radius);
    let side: u64 = 2 * radius as u64 + 1;
    assert(1 <= side * side <= 33 * 33) by (nonlinear_arith)
        requires
            1 <= side <= 33,
    ;
    let rank: u64 = side * side / 2;
    proof {
        count_below_ends(f, radius as int);
        assert(side * side == (2 * radius + 1) * (2 * radius + 1)) by (nonlinear_arith)
            requires
                side == 2 * radius + 1,
        ;
    }
    let mut seen: u64 = 0;
    let mut v: usize = 0;
    while v < 255
        invariant
            v <= 255,
            rank < 33 * 33,
            rank == ((2 * radius + 1) * (2 * radius + 1)) / 2,
            hist@.len() == 256,
            forall|k: int|
                0 <= k < 256 ==> #[trigger] hist@[k] == sum_box(
                    exactly(f, k),
                    -radius,
                    radius + 1,
                    -radius,
                    radius + 1,
                ),
            f == around(*img, c, x as int, y as int),
            seen == count_below(f, radius as int, v as int),
            seen <= rank,
        decreases 255 - v,
    {
        proof {
            count_below_step(f, radius as int, v as int);
        }
        seen = seen + hist[v] as u64;
        if seen > rank {
            return v as u8;
        }
        v = v + 1;
    }
    255
}

/// Each channel of each pixel becomes the median of the values around it.
pub fn median(img: &Image<Rgba>, radius: u32) -> (r: Image<Rgba>)
    requires
        img.well_formed(),
        radius <= 16,
    ensures
        r.well_formed(),
        r.width == img.width,
        r.height == img.height,
        forall|x: int, y: int, c: u8|
            #![trigger channel(r.pixel(x, y), c)]
            0 <= x < img.width && 0 <= y < img.height && c < 4 ==> is_median(
                around(*img, c, x, y),
                radius as int,
                channel(r.pixel(x, y), c) as int,
            ),
{
    let count: usize = img.data.len();
    let f = |x: u32, y: u32| -> (p: Rgba)
        requires
            img.well_formed(),
            x < img.width,
            y < img.height,
            radius <= 16,
        ensures
            forall|c: u8|
                c < 4 ==> is_median(
                    around(*img, c, x as int, y as int),
                    radius as int,
                    #[trigger] channel(p, c) as int,
                ),
        {
            Rgba {
                r: median_channel(img, 0, x, y, radius),
                g: median_channel(img, 1, x, y, radius),
                b: median_channel(img, 2, x, y, radius),
                a: median_channel(img, 3, x, y, radius),
            }
        };
    let r: Image<Rgba> = Image::build(img.width, img.height, f);
    proof {
        assert forall|x: int, y: int, c: u8|
            #![trigger channel(r.pixel(x, y), c)]
            0 <= x < img.width && 0 <= y < img.height && c < 4 implies is_median(
            around(*img, c, x, y),
            radius as int,
            channel(r.pixel(x, y), c) as int,
        ) by {
            assert(call_ensures(
                f,
                (x as u32, y as u32),
                r.pixel(x as u32 as int, y as u32 as int),
            ));
        }
    }
    r
}

/// There is no more than one median.
pub proof fn median_is_unique(f: spec_fn(int, int) -> int, radius: int, m: int, n: int)
    requires
        is_median(f, radius, m),
        is_median(f, radius, n),
    ensures
        m == n,
{
    if m < n {
        count_below_grows(f, radius, m + 1, n);
    } else if n < m {
        count_below_grows(f, radius, n + 1, m);
    }
}

proof fn count_below_grows(f: spec_fn(int, int) -> int, radius: int, a: int, b: int)
    requires
        a <= b,
    ensures
        count_below(f, radius, a) <= count_below(f, radius, b),
    decreases b - a,
{
    if a < b {
        count_below_grows(f, radius, a, b - 1);
        count_below_step(f, radius, b - 1);
        if radius >= 0 {
            let g = exactly(f, b - 1);
            sum_box_bounds(g, -radius, radius + 1, -radius, radius + 1, 0, 1);
        }
    }
}

} // verus!
