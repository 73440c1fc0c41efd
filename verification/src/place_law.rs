//! Where places of a result come from, and that the weights of a resize make up one, over the
//! real numbers.
use vstd::prelude::*;

use crate::binary::{Real, Real32};
use crate::exact::is_number;
use crate::nearness::{grain, near, near_difference, near_sum, near_times, slack_is_small};
use crate::number::{HALF, ZERO};
use crate::ops::mask::source_place;
use crate::ordering::{
    clamped_value, clamps_are_close, close, kept_within, order_is_that_of_values,
};
use crate::percentiles::half_value;
use crate::resize::{reach, shares, total};
use crate::single;
use crate::single_near::{self, mote};
use crate::tolerance::{near_over, near_plus, trace};
use crate::value::{quotient_rounds, size, value, wholes_are_themselves, zero_is_zero};
use crate::widths::narrowed_is_near;

verus! {

/// Where the middle of a place of a result lies in its source, which is as much longer or
/// shorter as the lengths say.
pub open spec fn middle_from(i: int, from: int, to: int) -> real {
    (i as real + 1real / 2real) * (from as real / to as real)
}

/// The middle of a place, by the ratio of the lengths.
proof fn middle_is_near(i: int, from: int, to: int)
    requires
        0 <= i < to,
        1 <= from <= 100000,
        1 <= to <= 100000,
    ensures
        ({
            let ratio = Real::nearest_to(from).over(Real::nearest_to(to));
            near(
                Real::nearest_to(i).plus(Real { bits: HALF }).times(ratio),
                middle_from(i, from, to),
                1real / 100000real,
            )
        }),
        0real <= middle_from(i, from, to) <= from as real,
{
    half_value();
    slack_is_small(0real, 0real);
    wholes_are_themselves(i as nat);
    wholes_are_themselves(from as nat);
    wholes_are_themselves(to as nat);
    let (a, b) = (Real::nearest_to(from), Real::nearest_to(to));
    let (x, y, k) = (from as real, to as real, i as real);
    let half = Real { bits: HALF };
    let q = x / y;
    assert(q * y == x && 0real < q <= x) by (nonlinear_arith)
        requires
            q == x / y,
            y >= 1real,
            x >= 1real,
    ;
    quotient_rounds(a, b);
    slack_is_small(q, 100000real);
    let t = trace();
    assert((100000real + 1real) * grain() <= 20real * t && (2real * 200000real + 1real) * grain()
        <= 50real * t && (20000000000real + 1real) * grain() <= 3000000real * t)
        by (nonlinear_arith)
        requires
            grain() == 1real / 9007199254740992real,
            t == 1real / 1000000000000real,
    ;
    near_sum(Real::nearest_to(i), k, 0real, half, 1real / 2real, 0real, 200000real, 50real * t);
    let (u, v) = (Real::nearest_to(i).plus(half), a.over(b));
    let h = k + 1real / 2real;
    near_times(
        u,
        h,
        50real * t,
        100001real,
        v,
        q,
        20real * t,
        100001real,
        20000000000real,
        10000000real * t,
    );
    assert(0real <= h * q <= x) by (nonlinear_arith)
        requires
            q * y == x,
            0real <= h <= y,
            q > 0real,
    ;
}

/// The place of a mask that a place of an image is looked up at: as far along it as the place
/// is along the image, middle by middle, and not beyond its ends.
pub proof fn masks_are_looked_up_at(i: int, from: int, to: int)
    requires
        0 <= i < to,
        1 <= from <= 100000,
        1 <= to <= 100000,
    ensures
        near(
            source_place(i, from, to),
            kept_within(middle_from(i, from, to) - 1real / 2real, 0real, from as real - 1real),
            1real / 10000real,
        ),
{
    half_value();
    zero_is_zero();
    middle_is_near(i, from, to);
    wholes_are_themselves((from - 1) as nat);
    let half = Real { bits: HALF };
    let ratio = Real::nearest_to(from).over(Real::nearest_to(to));
    let c = Real::nearest_to(i).plus(half).times(ratio);
    let m = middle_from(i, from, to);
    let e = 1real / 100000real;
    assert((2real * 200000real + 1real) * grain() <= e) by (nonlinear_arith)
        requires
            grain() == 1real / 9007199254740992real,
            e == 1real / 100000real,
    ;
    near_difference(c, m, e, half, 1real / 2real, 0real, 200000real, 2real * e);
    let d = c.minus(half);
    let (low, high) = (Real { bits: ZERO }, Real::nearest_to(from - 1));
    clamped_value(d, low, high);
    clamps_are_close(value(d), m - 1real / 2real, 0real, from as real - 1real, 2real * e);
}

/// A place of a resized image is made of what lies around the middle that it comes from.
pub proof fn resizing_looks_around(src_len: u32, dst_len: u32, o: u32)
    requires
        1 <= src_len <= 100000,
        o < dst_len <= 100000,
    ensures
        near(
            reach(src_len, dst_len, o).center,
            middle_from(o as int, src_len as int, dst_len as int),
            1real / 100000real,
        ),
{
    middle_is_near(o as int, src_len as int, dst_len as int);
}

/// The sum of the first heights of a window.
pub open spec fn sum_of(raw: Seq<Real>, n: nat) -> real
    decreases n,
{
    if n == 0 {
        0real
    } else {
        sum_of(raw, (n - 1) as nat) + value(raw[n - 1])
    }
}

/// The sum of the first weights.
pub open spec fn sum_of_weights(w: Seq<Real32>, n: nat) -> real
    decreases n,
{
    if n == 0 {
        0real
    } else {
        sum_of_weights(w, (n - 1) as nat) + single::value(w[n - 1])
    }
}

/// The heights of a window are small numbers.
pub open spec fn are_heights(raw: Seq<Real>) -> bool {
    &&& raw.len() <= 400
    &&& forall|k: int|
        0 <= k < raw.len() ==> is_number(#[trigger] raw[k]) && -2real <= value(raw[k]) <= 2real
}

proof fn total_is_near(raw: Seq<Real>, n: nat)
    requires
        are_heights(raw),
        n <= raw.len(),
    ensures
        near(total(raw.take(n as int)), sum_of(raw, n), n as real * trace()),
        size(sum_of(raw, n)) <= 2real * n as real,
    decreases n,
{
    let t = trace();
    if n == 0 {
        zero_is_zero();
        assert(0real * t == 0real) by (nonlinear_arith);
    } else {
        let k = (n - 1) as nat;
        total_is_near(raw, k);
        let s = raw.take(n as int);
        assert(s.drop_last() =~= raw.take(k as int));
        assert(s.last() == raw[k as int]);
        let (i, j) = (k as real, n as real);
        assert(j * t == i * t + t) by (nonlinear_arith)
            requires
                j == i + 1real,
        ;
        assert(0real <= i * t <= 1real) by (nonlinear_arith)
            requires
                0real <= i <= 400real,
                t == 1real / 1000000000000real,
        ;
        let v = raw[k as int];
        near_plus(total(s.drop_last()), sum_of(raw, k), i * t, v, value(v), 0real, j * t);
    }
}

/// Each weight of a resize is a height of the window over the sum of all of them, so that the
/// weights make up one.
pub proof fn resize_weights_make_up_one(raw: Seq<Real>, k: int)
    requires
        are_heights(raw),
        sum_of(raw, raw.len()) >= 1real / 2real,
        0 <= k < raw.len(),
    ensures
        single_near::near(
            shares(raw)[k],
            value(raw[k]) / sum_of(raw, raw.len()),
            2real * mote(),
        ),
        close(sum_of_weights(shares(raw), raw.len()), 1real, 1real / 1000real),
{
    let n = raw.len();
    weight_is_near(raw, k);
    weights_add_up(raw, n);
    let s = sum_of(raw, n);
    assert(s / s == 1real) by (nonlinear_arith)
        requires
            s > 0real,
    ;
    let (i, m) = (n as real, 2real * mote());
    assert(i * m <= 1real / 1000real) by (nonlinear_arith)
        requires
            0real <= i <= 400real,
            m == 2real * (1real / 800000real),
    ;
}

proof fn weight_is_near(raw: Seq<Real>, k: int)
    requires
        are_heights(raw),
        sum_of(raw, raw.len()) >= 1real / 2real,
        0 <= k < raw.len(),
    ensures
        single_near::near(
            shares(raw)[k],
            value(raw[k]) / sum_of(raw, raw.len()),
            2real * mote(),
        ),
{
    let t = trace();
    let n = raw.len();
    total_is_near(raw, n);
    assert(raw.take(n as int) =~= raw);
    zero_is_zero();
    let all = total(raw);
    let s = sum_of(raw, n);
    let i = n as real;
    assert(0real <= i * t <= 400real * t) by (nonlinear_arith)
        requires
            0real <= i <= 400real,
            t >= 0real,
    ;
    order_is_that_of_values(all, Real { bits: ZERO });
    let v = raw[k];
    near_over(v, value(v), 0real, all, s, 400real * t, 2real, 4real, 7000real * t);
    let (x, q) = (value(v), value(v) / s);
    assert(-4real <= q <= 4real) by (nonlinear_arith)
        requires
            q == x / s,
            -2real <= x <= 2real,
            s >= 1real / 2real,
    ;
    narrowed_is_near(v.over(all));
}

proof fn weights_add_up(raw: Seq<Real>, n: nat)
    requires
        are_heights(raw),
        sum_of(raw, raw.len()) >= 1real / 2real,
        n <= raw.len(),
    ensures
        close(
            sum_of_weights(shares(raw), n),
            sum_of(raw, n) / sum_of(raw, raw.len()),
            n as real * (2real * mote()),
        ),
    decreases n,
{
    let s = sum_of(raw, raw.len());
    let m = 2real * mote();
    if n == 0 {
        assert(0real / s == 0real) by (nonlinear_arith)
            requires
                s > 0real,
        ;
        assert(0real * m == 0real) by (nonlinear_arith);
    } else {
        let k = (n - 1) as nat;
        weights_add_up(raw, k);
        weight_is_near(raw, k as int);
        let (p, q) = (sum_of(raw, k), value(raw[k as int]));
        assert((p + q) / s == p / s + q / s) by (nonlinear_arith)
            requires
                s > 0real,
        ;
        let (i, j) = (k as real, n as real);
        assert(j * m == i * m + m) by (nonlinear_arith)
            requires
                j == i + 1real,
        ;
    }
}

} // verus!
