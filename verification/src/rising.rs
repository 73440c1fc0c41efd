//! The tangents of a curve through points that do not fall.
use vstd::prelude::*;

use crate::binary::Real;
use crate::growth::{are_short, excess, larger_product};
use crate::nearness::slack_is_small;
use crate::number::{TWO, ZERO};
use crate::ops::color::{
    ascending, first_tangents, limited, limited_tangents, slope, slopes, tangents,
};
use crate::stretch::distributes;
use crate::tangents::{
    is_positive, is_slope, limited_is_short, part, rounds_within, speck,
};
use crate::value::{
    order_is_by_value, quotient_rounds, some_values, sum_rounds, value, wholes_are_themselves,
    zero_is_zero,
};
use crate::whole_steps::wholes_subtract;
use crate::wholes::zero_stays;

verus! {

/// The points do not fall.
pub open spec fn rises(points: Seq<[u8; 2]>) -> bool {
    forall|i: int, j: int| 0 <= i <= j < points.len() ==> points[i][1] <= points[j][1]
}

/// The length of a stretch.
pub open spec fn run_of(points: Seq<[u8; 2]>, k: int) -> int {
    points[k + 1][0] - points[k][0]
}

/// The height of a stretch.
pub open spec fn rise_of(points: Seq<[u8; 2]>, k: int) -> int {
    points[k + 1][1] - points[k][1]
}

/// The slope of a stretch.
pub open spec fn slope_of(points: Seq<[u8; 2]>, k: int) -> real {
    rise_of(points, k) as real / run_of(points, k) as real
}

/// How long the tangents of a stretch can be.
pub open spec fn limit_of(points: Seq<[u8; 2]>, k: int) -> real {
    3real * slope_of(points, k) + 100real * part(slope_of(points, k))
}

/// The slope of a stretch is one from 1 in 255 to 255, or zero.
pub proof fn slope_is(points: Seq<[u8; 2]>, k: int)
    requires
        ascending(points),
        rises(points),
        0 <= k < points.len() - 1,
    ensures
        1 <= run_of(points, k) <= 255,
        0 <= rise_of(points, k) <= 255,
        slope_of(points, k) * run_of(points, k) as real == rise_of(points, k) as real,
        0real <= slope_of(points, k) <= 255real,
        rise_of(points, k) == 0 ==> slope(points, k) == (Real { bits: ZERO }) && slope_of(points, k)
            == 0real,
        rise_of(points, k) > 0 ==> is_slope(slope(points, k), slope_of(points, k)),
        is_positive(slope(points, k)),
        value(slope(points, k)) <= 256real,
{
    let (n, m) = (rise_of(points, k), run_of(points, k));
    assert(points[k][0] < points[k + 1][0] && points[k][1] <= points[k + 1][1]);
    wholes_subtract(points[k + 1][1] as nat, points[k][1] as nat);
    wholes_subtract(points[k + 1][0] as nat, points[k][0] as nat);
    let (a, b) = (Real::nearest_to(n), Real::nearest_to(m));
    assert(slope(points, k) == a.over(b));
    let (x, y) = (n as real, m as real);
    let s = slope_of(points, k);
    assert(s * y == x) by (nonlinear_arith)
        requires
            s == x / y,
            y >= 1real,
    ;
    if s < 0real {
        assert(s * y < 0real) by (nonlinear_arith)
            requires
                s < 0real,
                y >= 1real,
        ;
    }
    larger_product(1real, y, s);
    if n == 0 {
        assert(slope(points, k) == (Real { bits: ZERO })) by {
            reveal(Real::nearest_to);
            reveal(Real::spec_over);
            zero_stays(m as nat);
        }
        zero_is_zero();
        if s > 0real {
            assert(s * y > 0real) by (nonlinear_arith)
                requires
                    s > 0real,
                    y >= 1real,
            ;
        }
    } else {
        wholes_are_themselves(n as nat);
        wholes_are_themselves(m as nat);
        slack_is_small(0real, 0real);
        quotient_rounds(a, b);
        if s < 1real / 255real {
            larger_product(y, 255real, s);
        }
        rounds_within(a.over(b), s);
    }
}

/// The tangents before they are limited are not large.
proof fn first_is_modest(points: Seq<[u8; 2]>, k: int)
    requires
        ascending(points),
        rises(points),
        points.len() >= 2,
        0 <= k < points.len(),
    ensures
        is_positive(first_tangents(slopes(points))[k]),
        value(first_tangents(slopes(points))[k]) <= 257real,
{
    let d = slopes(points);
    if k == 0 {
        slope_is(points, 0);
    } else if k == points.len() - 1 {
        slope_is(points, k - 1);
    } else {
        slope_is(points, k - 1);
        slope_is(points, k);
        let (a, b) = (d[k - 1], d[k]);
        order_is_by_value(a, b);
        order_is_by_value(b, a);
        slack_is_small(0real, 0real);
        sum_rounds(a, b);
        let c = a.plus(b);
        slack_is_small(value(a) + value(b), 512real);
        some_values();
        order_is_by_value(c, a);
        let two = Real { bits: TWO };
        quotient_rounds(c, two);
        slack_is_small(value(c) / 2real, 257real);
    }
}

/// How large a tangent can be after the first `n` stretches have been limited.
spec fn ceiling(j: int, n: nat) -> real {
    if j < n {
        259real
    } else if j == n {
        258real
    } else {
        257real
    }
}

/// What is known of the tangents after the first `n` stretches have been limited.
spec fn are_limited(points: Seq<[u8; 2]>, m: Seq<Real>, n: nat) -> bool {
    &&& m.len() == points.len()
    &&& forall|j: int|
        0 <= j < m.len() ==> is_positive(#[trigger] m[j]) && 0real <= value(m[j]) <= ceiling(j, n)
    &&& forall|k: int|
        0 <= k < n ==> value(#[trigger] m[k]) <= limit_of(points, k)
    &&& forall|k: int|
        0 < k < n ==> value(#[trigger] m[k]) <= limit_of(points, k - 1) + 20real * part(
            limit_of(points, k - 1),
        ) + 10000real * speck()
    &&& n > 0 ==> value(m[n as int]) <= limit_of(points, n - 1)
}

proof fn limiting(points: Seq<[u8; 2]>, n: nat)
    requires
        ascending(points),
        rises(points),
        points.len() >= 2,
        n <= points.len() - 1,
    ensures
        are_limited(points, limited_tangents(slopes(points), n), n),
    decreases n,
{
    let d = slopes(points);
    if n == 0 {
        assert forall|j: int| 0 <= j < points.len() implies is_positive(
            #[trigger] first_tangents(d)[j],
        ) && 0real <= value(first_tangents(d)[j]) <= ceiling(j, 0) by {
            first_is_modest(points, j);
            order_is_by_value(first_tangents(d)[j], first_tangents(d)[j]);
        }
    } else {
        let q = n - 1;
        limiting(points, q as nat);
        let m = limited_tangents(d, q as nat);
        let (a, b) = limited(m[q], m[q + 1], d[q]);
        slope_is(points, q);
        zero_is_zero();
        let zero = Real { bits: ZERO };
        if rise_of(points, q) == 0 {
            assert(zero.same(zero));
        } else {
            limited_is_short(m[q], m[q + 1], d[q], slope_of(points, q));
        }
        let r = m.update(q, a).update(q + 1, b);
        assert(r == limited_tangents(d, n));
        assert(is_positive(a) && 0real <= value(a) <= 259real);
        assert(is_positive(b) && 0real <= value(b) <= 258real);
    }
}

/// The tangents of a stretch, times its length, are short enough for it.
pub proof fn stretch_is_short(points: Seq<[u8; 2]>, k: int)
    requires
        ascending(points),
        rises(points),
        0 <= k < points.len() - 1,
    ensures
        ({
            let m = tangents(points);
            let (h, d) = (run_of(points, k) as real, rise_of(points, k) as real);
            let (a, b) = (h * value(m[k]), h * value(m[k + 1]));
            &&& m.len() == points.len()
            &&& is_positive(m[k]) && is_positive(m[k + 1])
            &&& 0real <= value(m[k]) && 0real <= value(m[k + 1])
            &&& 0real <= a <= 800real && 0real <= b <= 800real
            &&& rise_of(points, k) > 0 ==> are_short(d, a, b)
            &&& rise_of(points, k) == 0 ==> a <= 1real / 100000000000real && b <= 1real
                / 100000000000real
        }),
{
    let n = (points.len() - 1) as nat;
    limiting(points, n);
    slope_is(points, k);
    let m = tangents(points);
    assert(m == limited_tangents(slopes(points), n));
    let (h, d, s) = (run_of(points, k) as real, rise_of(points, k) as real, slope_of(points, k));
    let (v, w) = (value(m[k]), value(m[k + 1]));
    let l = limit_of(points, k);
    let top = l + 20real * part(l) + 10000real * speck();
    assert(v <= top && w <= top);
    larger_product(v, top, h);
    larger_product(w, top, h);
    larger_product(0real, v, h);
    larger_product(0real, w, h);
    assert(h * 0real == 0real);
    let u = speck();
    assert(h * (3real * s) == 3real * (s * h)) by (nonlinear_arith);
    assert(h * (100real * (s / 1099511627776real)) == 100real * ((s * h) / 1099511627776real))
        by (nonlinear_arith);
    assert(h * (20real * (l / 1099511627776real)) == 20real * ((l * h) / 1099511627776real))
        by (nonlinear_arith);
    assert(h * (10000real * u) == 10000real * (u * h)) by (nonlinear_arith);
    assert(h * l == l * h) by (nonlinear_arith);
    distributes(h, 3real * s, 100real * part(s), 0real);
    distributes(h, l, 20real * part(l), 10000real * u);
    assert(h * 0real == 0real);
    assert(l * h == 3real * d + 100real * part(d));
    assert(h * top == l * h + 20real * part(l * h) + 10000real * (u * h));
    larger_product(h, 255real, u);
    assert(d * excess() == d / 262144real) by (nonlinear_arith)
        requires
            excess() == 1real / 262144real,
    ;
    let (a, b) = (h * v, h * w);
    let most = 3real * d + 100real * part(d) + 20real * part(3real * d + 100real * part(d)) + 10000real
        * (255real * u);
    assert(0real <= a <= most && 0real <= b <= most);
    assert(most <= 800real);
    if rise_of(points, k) > 0 {
        assert(d >= 1real);
        assert(most <= 3real * d + 3real * (d / 262144real));
    } else {
        assert(d == 0real);
    }
}

} // verus!
