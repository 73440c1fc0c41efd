//! Kernels over the real numbers: which pixel each entry weighs, and what the sum becomes.
use vstd::prelude::*;

use crate::binary::Real;
use crate::exact::is_number;
use crate::lut_law::channel;
use crate::nearness::{grain, near, near_sum, near_times, slack_is_small};
use crate::ops::convolve::{convolved, kernel_sum};
use crate::ordering::{clamps_are_close, close, kept_within, nearest_byte};
use crate::raster::{inside, Image, Rgba};
use crate::tolerance::trace;
use crate::value::{quotient_rounds, size, value, wholes_are_themselves, zero_is_zero};

verus! {

/// One of the three channels of a colour.
pub open spec fn byte_of(p: Rgba, c: int) -> u8 {
    if c == 0 {
        p.r
    } else if c == 1 {
        p.g
    } else {
        p.b
    }
}

/// The pixel that an entry of a kernel weighs: an entry in column `i` and row `j` that one as
/// far from the middle, to the right and down, as the entry is from the middle of the kernel.
/// Beyond the edges the pixels of the edge go on.
pub open spec fn weighed_pixel(img: Image<Rgba>, side: int, x: int, y: int, i: int, j: int) -> Rgba {
    img.pixel(
        inside(x + (i - side / 2), img.width as int),
        inside(y + (j - side / 2), img.height as int),
    )
}

/// The first `n` entries of a kernel, each by the channel of the pixel that it weighs.
pub open spec fn weighed(
    img: Image<Rgba>,
    kernel: Seq<Real>,
    side: int,
    x: int,
    y: int,
    c: int,
    n: nat,
) -> real
    decreases n,
{
    if n == 0 {
        0real
    } else {
        let k = n - 1;
        weighed(img, kernel, side, x, y, c, (n - 1) as nat) + value(kernel[k]) * byte_of(
            weighed_pixel(img, side, x, y, k % side, k / side),
            c,
        ) as real
    }
}

/// The entries of a kernel are of ordinary size.
pub open spec fn is_kernel(kernel: Seq<Real>) -> bool {
    &&& kernel.len() <= 121
    &&& forall|k: int|
        0 <= k < kernel.len() ==> is_number(#[trigger] kernel[k]) && -16real <= value(kernel[k])
            <= 16real
}

/// The sum of a kernel.
proof fn kernel_sum_is_near(
    img: Image<Rgba>,
    kernel: Seq<Real>,
    side: int,
    x: int,
    y: int,
    c: int,
    n: nat,
)
    requires
        is_kernel(kernel),
        n <= kernel.len(),
        side > 0,
        0 <= c < 3,
    ensures
        near(
            channel(kernel_sum(img, kernel, side, x, y, n), c),
            weighed(img, kernel, side, x, y, c, n),
            n as real * (200real * trace()),
        ),
        size(weighed(img, kernel, side, x, y, c, n)) <= n as real * 4080real,
    decreases n,
{
    let t = trace();
    if n == 0 {
        zero_is_zero();
        assert(0real * (200real * t) == 0real && 0real * 4080real == 0real) by (nonlinear_arith);
    } else {
        let k = (n - 1) as nat;
        kernel_sum_is_near(img, kernel, side, x, y, c, k);
        let before = kernel_sum(img, kernel, side, x, y, k);
        let p = weighed_pixel(img, side, x, y, k as int % side, k as int / side);
        let b = byte_of(p, c);
        wholes_are_themselves(b as nat);
        let v = Real::of_byte(b);
        let w = kernel[k as int];
        let (a, z) = (value(w), b as real);
        assert((4080real + 1real) * grain() <= t) by (nonlinear_arith)
            requires
                grain() == 1real / 9007199254740992real,
                t == 1real / 1000000000000real,
        ;
        assert((2real * 500000real + 1real) * grain() <= 180real * t) by (nonlinear_arith)
            requires
                grain() == 1real / 9007199254740992real,
                t == 1real / 1000000000000real,
        ;
        near_times(w, a, 0real, 16real, v, z, 0real, 255real, 4080real, t);
        assert(-4080real <= a * z <= 4080real) by (nonlinear_arith)
            requires
                -16real <= a <= 16real,
                0real <= z <= 255real,
        ;
        let (i, j) = (k as real, n as real);
        let (f, s) = (200real * t, weighed(img, kernel, side, x, y, c, k));
        assert(j * f == i * f + f && j * 4080real == i * 4080real + 4080real) by (nonlinear_arith)
            requires
                j == i + 1real,
        ;
        assert(0real <= i * f <= 1real) by (nonlinear_arith)
            requires
                0real <= i <= 121real,
                f == 200real * (1real / 1000000000000real),
        ;
        near_sum(channel(before, c), s, i * f, w.times(v), a * z, t, 500000real, j * f);
        let after = kernel_sum(img, kernel, side, x, y, n);
        assert(channel(after, c) == channel(before, c).plus(w.times(v)));
    }
}

/// A kernel gives each channel the sum of the pixels around, each by its entry, over the
/// divisor, and the offset. Opacity stays.
pub proof fn kernels_weigh_pixels(
    img: Image<Rgba>,
    kernel: Seq<Real>,
    side: int,
    divisor: Real,
    offset: Real,
    x: int,
    y: int,
    c: int,
)
    requires
        is_kernel(kernel),
        side > 0,
        0 <= c < 3,
        is_number(divisor) && 1real <= value(divisor) <= 100000real,
        is_number(offset) && -255real <= value(offset) <= 255real,
    ensures
        ({
            let q = convolved(img, kernel, side, divisor, offset, x, y);
            let sum = weighed(img, kernel, side, x, y, c, kernel.len());
            &&& close(
                byte_of(q, c) as real,
                kept_within(sum / value(divisor) + value(offset), 0real, 255real),
                1real / 2real + 1real / 100000real,
            )
            &&& q.a == img.pixel(x, y).a
        }),
{
    let t = trace();
    let n = kernel.len();
    kernel_sum_is_near(img, kernel, side, x, y, c, n);
    let acc = channel(kernel_sum(img, kernel, side, x, y, n), c);
    let sum = weighed(img, kernel, side, x, y, c, n);
    let (i, f) = (n as real, 200real * t);
    assert(0real <= i * f <= 24200real * t) by (nonlinear_arith)
        requires
            0real <= i <= 121real,
            f == 200real * t,
            t >= 0real,
    ;
    let (p, d) = (value(acc), value(divisor));
    slack_is_small(0real, 0real);
    quotient_rounds(acc, divisor);
    let (u, v) = (p / d, sum / d);
    assert(u * d == p && v * d == sum) by (nonlinear_arith)
        requires
            u == p / d,
            v == sum / d,
            d >= 1real,
    ;
    let (g, e) = (u - v, 24200real * t);
    assert(g * d == p - sum) by (nonlinear_arith)
        requires
            u * d == p,
            v * d == sum,
            g == u - v,
    ;
    assert(-e <= g <= e) by (nonlinear_arith)
        requires
            -e <= g * d <= e,
            d >= 1real,
    ;
    assert(-500000real <= u <= 500000real) by (nonlinear_arith)
        requires
            u * d == p,
            -500000real <= p <= 500000real,
            d >= 1real,
    ;
    slack_is_small(u, 500000real);
    assert((500000real + 1real) * grain() <= 100real * t) by (nonlinear_arith)
        requires
            grain() == 1real / 9007199254740992real,
            t == 1real / 1000000000000real,
    ;
    assert((2real * 600000real + 1real) * grain() <= 180real * t) by (nonlinear_arith)
        requires
            grain() == 1real / 9007199254740992real,
            t == 1real / 1000000000000real,
    ;
    let q = acc.over(divisor);
    let o = value(offset);
    near_sum(q, v, 24300real * t, offset, o, 0real, 600000real, 25000real * t);
    let r = q.plus(offset);
    nearest_byte(r);
    clamps_are_close(value(r), v + o, 0real, 255real, 25000real * t);
}

} // verus!
