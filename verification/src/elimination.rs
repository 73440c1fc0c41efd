//! How well elimination solves equations: what is left over when its solution is put back into
//! them is small.
use vstd::arithmetic::power2::*;
use vstd::prelude::*;

use crate::binary::Real;
use crate::exact::{formats, is_number};
use crate::float::{exponent, negative, significand, unsigned, Width};
use crate::nearness::{grain, near, near_difference, near_times, slack_is_small};
use crate::number::ZERO;
use crate::ops::perspective::{
    eliminated, exchanged, pivot_row, reduced, reduced_entry, rest, unknowns,
};
use crate::ordering::{close, order_is_that_of_values};
use crate::resize::AT_ZERO;
use crate::tolerance::{near_by, near_minus, trace};
use crate::units::units;
use crate::value::{
    magnitude_by_parts, power, power_adds, quotient_rounds, size, value, zero_is_zero,
};

verus! {

/// A system of equations has entries of at most a bound.
pub open spec fn is_system(m: Seq<Real>, bound: real) -> bool {
    &&& m.len() == 72
    &&& forall|i: int|
        0 <= i < 72 ==> is_number(#[trigger] m[i]) && -bound <= value(m[i]) <= bound
}

/// One term of an equation: an entry times its unknown.
pub open spec fn term(m: Seq<Real>, r: int, x: Seq<real>, c: int) -> real {
    value(m[9 * r + c]) * x[c]
}

/// A number of terms of an equation.
pub open spec fn terms(m: Seq<Real>, r: int, x: Seq<real>, from: int, n: nat) -> real
    decreases n,
{
    if n == 0 {
        0real
    } else {
        terms(m, r, x, from, (n - 1) as nat) + term(m, r, x, from + n - 1)
    }
}

/// What an equation leaves over once the first `k` unknowns are eliminated from those that
/// follow them.
pub open spec fn left_over(m: Seq<Real>, r: int, x: Seq<real>, k: int) -> real {
    let from = if r < k {
        r
    } else {
        k
    };
    terms(m, r, x, from, (9 - from) as nat)
}

/// Values for the unknowns, and -1 for the right-hand side.
pub open spec fn is_solution(x: Seq<real>) -> bool {
    &&& x.len() == 9
    &&& forall|c: int| 0 <= c < 9 ==> -100real <= #[trigger] x[c] <= 100real
}

/// How large entries can become by elimination.
spec fn grown(k: nat) -> real
    decreases k,
{
    if k == 0 {
        9real / 4real
    } else {
        2real * grown((k - 1) as nat) + 1real / 1000real
    }
}

proof fn grown_is_bounded(k: nat)
    requires
        k <= 8,
    ensures
        2real <= grown(k) <= 600real,
{
    reveal_with_fuel(grown, 9);
}

/// How much can be left over before some unknowns are eliminated.
spec fn remaining(k: nat) -> real
    decreases 8 - k,
{
    if k >= 8 {
        1500real * trace()
    } else {
        21real / 10real * remaining(k + 1) + 1700real * trace()
    }
}

proof fn remaining_is_small()
    ensures
        0real <= remaining(0) <= 2000000real * trace(),
{
    reveal_with_fuel(remaining, 9);
}

proof fn remaining_is_positive(k: nat)
    ensures
        remaining(k) >= 0real,
    decreases 8 - k,
{
    if k < 8 {
        remaining_is_positive(k + 1);
    }
}

/// The least pivot is not tiny.
proof fn least_pivot()
    ensures
        is_number(Real { bits: AT_ZERO }),
        value(Real { bits: AT_ZERO }) * power(60) >= 1real,
        value(Real { bits: AT_ZERO }) > 0real,
{
    let w = Width::Double;
    formats(w);
    lemma2_to64();
    lemma2_to64_rest();
    magnitude_by_parts(AT_ZERO);
    let s = significand(w, AT_ZERO);
    let x = (exponent(w, AT_ZERO) + 1074) as nat;
    assert(exponent(w, AT_ZERO) == -92);
    power_adds(92, 982);
    power_adds(32, 60);
    let (a, b, c) = (power(32), power(60), power(982));
    let v = value(Real { bits: AT_ZERO });
    assert(v == s as real * c / (a * b * c));
    assert(s as real >= a);
    assert(v * b >= 1real) by (nonlinear_arith)
        requires
            v == s as real * c / (a * b * c),
            s as real >= a,
            a > 0real,
            b > 0real,
            c > 0real,
    {
        assert(v == s as real / (a * b));
        assert(s as real / (a * b) * b == s as real / a);
        assert(s as real / a >= 1real);
    }
    assert(v > 0real) by (nonlinear_arith)
        requires
            v * b >= 1real,
            b > 0real,
    ;
}

/// The size of a number without its sign.
pub proof fn absolute_value(v: Real)
    requires
        is_number(v),
    ensures
        is_number(v.absolute()),
        value(v.absolute()) == size(value(v)),
{
    let w = Width::Double;
    let c = v.absolute();
    assert(unsigned(w, c.bits) == unsigned(w, v.bits) && !negative(w, c.bits));
    assert(units(w, c.bits) == units(w, v.bits));
    magnitude_by_parts(v.bits);
}

/// The pivot is the largest entry of its column.
proof fn pivot_is_largest(m: Seq<Real>, col: int, end: int, bound: real)
    requires
        is_system(m, bound),
        0 <= col < end <= 8,
    ensures
        col <= pivot_row(m, col, end) < end,
        forall|r: int|
            col <= r < end ==> size(value(#[trigger] m[9 * r + col])) <= size(
                value(m[9 * pivot_row(m, col, end) + col]),
            ),
    decreases end - col,
{
    if end > col + 1 {
        pivot_is_largest(m, col, end - 1, bound);
        let best = pivot_row(m, col, end - 1);
        let (a, b) = (m[9 * best + col], m[9 * (end - 1) + col]);
        absolute_value(a);
        absolute_value(b);
        order_is_that_of_values(a.absolute(), b.absolute());
        assert forall|r: int| col <= r < end implies size(value(#[trigger] m[9 * r + col]))
            <= size(value(m[9 * pivot_row(m, col, end) + col])) by {
            if r < end - 1 {
                assert(size(value(m[9 * r + col])) <= size(value(a)));
            }
        }
    }
}

/// Exchanging rows exchanges them.
proof fn rows_exchange(m: Seq<Real>, a: int, b: int, r: int, c: int)
    requires
        0 <= a < 8,
        0 <= b < 8,
        0 <= r < 8,
        0 <= c < 9,
    ensures
        exchanged(m, a, b)[9 * r + c] == m[9 * (if r == a {
            b
        } else if r == b {
            a
        } else {
            r
        }) + c],
{
    let i = 9 * r + c;
    assert(i / 9 == r && i % 9 == c);
}

/// A system keeps its bound when rows are exchanged.
proof fn exchanged_is_system(m: Seq<Real>, a: int, b: int, bound: real)
    requires
        is_system(m, bound),
        0 <= a < 8,
        0 <= b < 8,
    ensures
        is_system(exchanged(m, a, b), bound),
{
    let n = exchanged(m, a, b);
    assert forall|i: int| 0 <= i < 72 implies is_number(#[trigger] n[i]) && -bound <= value(n[i])
        <= bound by {
        rows_exchange(m, a, b, i / 9, i % 9);
        assert(i == 9 * (i / 9) + i % 9);
    }
}

/// The factor of a row.
spec fn factor(m: Seq<Real>, col: int, r: int) -> Real {
    m[9 * r + col].over(m[9 * col + col])
}

/// A pivot is as large as what stands below it, and not tiny.
spec fn has_pivot(m: Seq<Real>, col: int) -> bool {
    &&& size(value(m[9 * col + col])) * power(60) >= 1real
    &&& forall|r: int|
        col < r < 8 ==> size(value(#[trigger] m[9 * r + col])) <= size(value(m[9 * col + col]))
}

/// A factor is at most about 1, and times the pivot hardly anything but the entry.
proof fn factor_is_small(m: Seq<Real>, col: int, r: int)
    requires
        is_system(m, 600real),
        0 <= col < r < 8,
        has_pivot(m, col),
    ensures
        ({
            let f = factor(m, col, r);
            &&& is_number(f)
            &&& -(1real + trace()) <= value(f) <= 1real + trace()
            &&& close(value(f) * value(m[9 * col + col]), value(m[9 * r + col]), trace())
        }),
{
    let (a, b) = (m[9 * r + col], m[9 * col + col]);
    let (p, q) = (value(a), value(b));
    slack_is_small(0real, 0real);
    quotient_rounds(a, b);
    let t = p / q;
    assert(q != 0real) by (nonlinear_arith)
        requires
            size(q) * power(60) >= 1real,
            size(q) == q || size(q) == -q,
    ;
    assert(t * q == p) by (nonlinear_arith)
        requires
            t == p / q,
            q != 0real,
    ;
    assert(-1real <= t <= 1real) by (nonlinear_arith)
        requires
            t * q == p,
            q > 0real && -q <= p <= q || q < 0real && q <= p <= -q,
    ;
    slack_is_small(t, 1real);
    let f = value(factor(m, col, r));
    let d = f - t;
    let e = 2real * grain();
    assert(-(600real * e) <= d * q <= 600real * e) by (nonlinear_arith)
        requires
            -e <= d <= e,
            -600real <= q <= 600real,
            e >= 0real,
    ;
    assert(f * q == t * q + d * q) by (nonlinear_arith)
        requires
            d == f - t,
    ;
    assert(1200real * grain() <= trace());
}

/// An entry that is reduced is hardly anything but what it should be.
proof fn reduced_is_near(m: Seq<Real>, col: int, r: int, c: int)
    requires
        is_system(m, 600real),
        0 <= col < r < 8,
        col <= c < 9,
        has_pivot(m, col),
    ensures
        near(
            reduced(m, col)[9 * r + c],
            value(m[9 * r + c]) - value(factor(m, col, r)) * value(m[9 * col + c]),
            2real * trace(),
        ),
{
    let i = 9 * r + c;
    assert(i / 9 == r && i % 9 == c);
    factor_is_small(m, col, r);
    let t = trace();
    let f = factor(m, col, r);
    let (u, v) = (m[i], m[9 * col + c]);
    let (x, y, z) = (value(f), value(u), value(v));
    zero_is_zero();
    order_is_that_of_values(f, Real { bits: ZERO });
    assert(reduced(m, col)[i] == reduced_entry(m, col, i));
    if f.same(Real { bits: ZERO }) {
        assert(x * z == 0real) by (nonlinear_arith)
            requires
                x == 0real,
        ;
    } else {
        near_by(f, x, 0real, 2real, v, z, 0real, 600real, t);
        assert(-(601real) <= x * z <= 601real) by (nonlinear_arith)
            requires
                -(1real + t) <= x <= 1real + t,
                -600real <= z <= 600real,
                t == 1real / 1000000000000real,
        ;
        near_minus(u, y, 0real, f.times(v), x * z, t, 2real * t);
    }
}

/// What stands above is kept.
proof fn above_is_kept(m: Seq<Real>, col: int, r: int, c: int)
    requires
        0 <= r <= col < 8,
        0 <= c < 9,
    ensures
        reduced(m, col)[9 * r + c] == m[9 * r + c],
{
    let i = 9 * r + c;
    assert(i / 9 == r && i % 9 == c);
}

/// One more unknown eliminated: how large entries become, and what the pivot is.
proof fn stage(m: Seq<Real>, k: nat)
    requires
        is_system(m, 9real / 4real),
        k <= 8,
        eliminated(m, k) is Some,
    ensures
        is_system(eliminated(m, k)->0, grown(k)),
        k > 0 ==> ({
            let before = eliminated(m, (k - 1) as nat);
            let p = pivot_row(before->0, k - 1, 8);
            let swapped = exchanged(before->0, k - 1, p);
            &&& before is Some
            &&& k - 1 <= p < 8
            &&& is_system(swapped, 600real)
            &&& has_pivot(swapped, k - 1)
            &&& eliminated(m, k)->0 == reduced(swapped, k - 1)
        }),
    decreases k,
{
    if k > 0 {
        let col = k - 1;
        let before = eliminated(m, col as nat)->0;
        stage(m, col as nat);
        grown_is_bounded(col as nat);
        let g = grown(col as nat);
        let p = pivot_row(before, col, 8);
        pivot_is_largest(before, col, 8, g);
        let swapped = exchanged(before, col, p);
        exchanged_is_system(before, col, p, g);
        rows_exchange(before, col, p, col, col);
        least_pivot();
        let v = before[9 * p + col];
        absolute_value(v);
        order_is_that_of_values(v.absolute(), Real { bits: AT_ZERO });
        let least = value(Real { bits: AT_ZERO });
        lemma_pow2_pos(60);
        assert(size(value(v)) * power(60) >= 1real) by (nonlinear_arith)
            requires
                size(value(v)) >= least,
                least * power(60) >= 1real,
                power(60) > 0real,
        ;
        assert forall|r: int| col < r < 8 implies size(value(#[trigger] swapped[9 * r + col]))
            <= size(value(swapped[9 * col + col])) by {
            rows_exchange(before, col, p, r, col);
            let from = if r == p {
                col
            } else {
                r
            };
            assert(size(value(before[9 * from + col])) <= size(value(v)));
        }
        assert(is_system(swapped, 600real)) by {
            assert forall|i: int| 0 <= i < 72 implies is_number(#[trigger] swapped[i])
                && -600real <= value(swapped[i]) <= 600real by {}
        }
        let after = reduced(swapped, col);
        let bound = grown(k);
        assert forall|i: int| 0 <= i < 72 implies is_number(#[trigger] after[i]) && -bound
            <= value(after[i]) <= bound by {
            let (r, c) = (i / 9, i % 9);
            assert(i == 9 * r + c);
            if r > col && c >= col {
                reduced_is_near(swapped, col, r, c);
                factor_is_small(swapped, col, r);
                let (x, z) = (value(factor(swapped, col, r)), value(swapped[9 * col + c]));
                let t = trace();
                assert(-(g + 600real * t) <= x * z <= g + 600real * t) by (nonlinear_arith)
                    requires
                        -(1real + t) <= x <= 1real + t,
                        -g <= z <= g,
                        0real <= g <= 600real,
                        t >= 0real,
                {
                    assert(-((1real + t) * g) <= x * z <= (1real + t) * g);
                    assert(t * g <= t * 600real);
                }
            } else {
                assert(after[i] == swapped[i]);
            }
        }
    }
}

/// The first of some terms apart from the others.
proof fn first_term(m: Seq<Real>, r: int, x: Seq<real>, from: int, n: nat)
    requires
        n > 0,
    ensures
        terms(m, r, x, from, n) == term(m, r, x, from) + terms(m, r, x, from + 1, (n - 1) as nat),
    decreases n,
{
    if n > 1 {
        first_term(m, r, x, from, (n - 1) as nat);
    } else {
        assert(terms(m, r, x, from, 0) == 0real);
        assert(terms(m, r, x, from + 1, 0) == 0real);
    }
}

/// Rows with the same entries have the same terms.
proof fn same_terms(a: Seq<Real>, p: int, b: Seq<Real>, q: int, x: Seq<real>, from: int, n: nat)
    requires
        forall|c: int|
            from <= c < from + n ==> #[trigger] term(a, p, x, c) == term(b, q, x, c),
    ensures
        terms(a, p, x, from, n) == terms(b, q, x, from, n),
    decreases n,
{
    if n > 0 {
        same_terms(a, p, b, q, x, from, (n - 1) as nat);
        assert(term(a, p, x, from + n - 1) == term(b, q, x, from + n - 1));
    }
}

/// The terms of a row before and after a multiple of another row is taken away.
proof fn terms_reduce(m: Seq<Real>, col: int, r: int, x: Seq<real>, n: nat)
    requires
        is_system(m, 600real),
        0 <= col < r < 8,
        has_pivot(m, col),
        is_solution(x),
        n <= 8 - col,
    ensures
        close(
            terms(m, r, x, col + 1, n),
            terms(reduced(m, col), r, x, col + 1, n) + value(factor(m, col, r)) * terms(
                m,
                col,
                x,
                col + 1,
                n,
            ),
            n as real * (200real * trace()),
        ),
    decreases n,
{
    let f = value(factor(m, col, r));
    if n == 0 {
        assert(f * 0real == 0real) by (nonlinear_arith);
        assert(0real * (200real * trace()) == 0real) by (nonlinear_arith);
    } else {
        let k = (n - 1) as nat;
        terms_reduce(m, col, r, x, k);
        let c = col + n;
        reduced_is_near(m, col, r, c);
        let after = reduced(m, col);
        let (a, b, d, y) = (
            value(m[9 * r + c]),
            value(m[9 * col + c]),
            value(after[9 * r + c]),
            x[c],
        );
        let h = d - (a - f * b);
        let t = trace();
        assert(-(200real * t) <= h * y <= 200real * t) by (nonlinear_arith)
            requires
                -(2real * t) <= h <= 2real * t,
                -100real <= y <= 100real,
                t >= 0real,
        ;
        assert(a * y == d * y + f * (b * y) - h * y) by (nonlinear_arith)
            requires
                h == d - (a - f * b),
        ;
        let s = terms(m, col, x, col + 1, k);
        assert(f * (s + b * y) == f * s + f * (b * y)) by (nonlinear_arith);
        let (i, j) = (k as real, n as real);
        assert(j * (200real * t) == i * (200real * t) + 200real * t) by (nonlinear_arith)
            requires
                j == i + 1real,
        ;
    }
}

/// What is left over of a row before a multiple of the pivot's row is taken away.
proof fn row_before(m: Seq<Real>, col: int, r: int, x: Seq<real>, e: real)
    requires
        is_system(m, 600real),
        0 <= col < r < 8,
        has_pivot(m, col),
        is_solution(x),
        0real <= e,
        close(left_over(reduced(m, col), r, x, col + 1), 0real, e),
        close(left_over(reduced(m, col), col, x, col + 1), 0real, e),
    ensures
        close(left_over(m, r, x, col), 0real, 21real / 10real * e + 1700real * trace()),
{
    let after = reduced(m, col);
    let f = value(factor(m, col, r));
    let t = trace();
    let n = (8 - col) as nat;
    factor_is_small(m, col, r);
    terms_reduce(m, col, r, x, n);
    first_term(m, r, x, col, n + 1);
    first_term(m, col, x, col, n + 1);
    assert forall|c: int| col <= c < col + n + 1 implies #[trigger] term(after, col, x, c) == term(
        m,
        col,
        x,
        c,
    ) by {
        above_is_kept(m, col, col, c);
    }
    same_terms(after, col, m, col, x, col, n + 1);
    let (a, b, y) = (value(m[9 * r + col]), value(m[9 * col + col]), x[col]);
    let s = terms(m, col, x, col + 1, n);
    let w = b * y + s;
    assert(left_over(after, col, x, col + 1) == w);
    assert(left_over(after, r, x, col + 1) == terms(after, r, x, col + 1, n));
    // The pivot's row by the factor.
    let g = a - f * b;
    assert(a * y + f * s == g * y + f * w) by (nonlinear_arith)
        requires
            g == a - f * b,
            w == b * y + s,
    ;
    assert(-(100real * t) <= g * y <= 100real * t) by (nonlinear_arith)
        requires
            -t <= g <= t,
            -100real <= y <= 100real,
            t >= 0real,
    ;
    assert(-(11real / 10real * e) <= f * w <= 11real / 10real * e) by (nonlinear_arith)
        requires
            -(11real / 10real) <= f <= 11real / 10real,
            -e <= w <= e,
            e >= 0real,
    ;
    let (i, u) = (n as real, 200real * t);
    assert(i * u <= 8real * u) by (nonlinear_arith)
        requires
            i <= 8real,
            u >= 0real,
    ;
}

/// A solution that leaves little over after some unknowns are eliminated leaves little over
/// before the last of them was.
proof fn one_back(m: Seq<Real>, k: nat, x: Seq<real>, e: real)
    requires
        is_system(m, 9real / 4real),
        k < 8,
        eliminated(m, k + 1) is Some,
        is_solution(x),
        0real <= e,
        forall|r: int|
            0 <= r < 8 ==> close(
                #[trigger] left_over(eliminated(m, k + 1)->0, r, x, (k + 1) as int),
                0real,
                e,
            ),
    ensures
        eliminated(m, k) is Some,
        forall|r: int|
            0 <= r < 8 ==> close(
                #[trigger] left_over(eliminated(m, k)->0, r, x, k as int),
                0real,
                21real / 10real * e + 1700real * trace(),
            ),
{
    stage(m, k + 1);
    let before = eliminated(m, k)->0;
    let col = k as int;
    let p = pivot_row(before, col, 8);
    let swapped = exchanged(before, col, p);
    let after = eliminated(m, k + 1)->0;
    assert forall|r: int| 0 <= r < 8 implies close(
        #[trigger] left_over(before, r, x, col),
        0real,
        21real / 10real * e + 1700real * trace(),
    ) by {
        let q = if r == col {
            p
        } else if r == p {
            col
        } else {
            r
        };
        let from = if r < col {
            r
        } else {
            col
        };
        let n = (9 - from) as nat;
        assert forall|c: int| from <= c < from + n implies #[trigger] term(before, r, x, c) == term(
            swapped,
            q,
            x,
            c,
        ) by {
            rows_exchange(before, col, p, q, c);
        }
        same_terms(before, r, swapped, q, x, from, n);
        assert(left_over(before, r, x, col) == left_over(swapped, q, x, col));
        assert(close(left_over(after, q, x, (k + 1) as int), 0real, e));
        if q > col {
            assert(close(left_over(after, col, x, (k + 1) as int), 0real, e));
            row_before(swapped, col, q, x, e);
        } else {
            assert forall|c: int| from <= c < from + n implies #[trigger] term(after, q, x, c)
                == term(swapped, q, x, c) by {
                above_is_kept(swapped, col, q, c);
            }
            same_terms(after, q, swapped, q, x, from, n);
        }
    }
}

/// A solution that leaves little over once all unknowns are eliminated leaves little over of
/// the equations.
proof fn all_back(m: Seq<Real>, k: nat, x: Seq<real>)
    requires
        is_system(m, 9real / 4real),
        k <= 8,
        eliminated(m, 8) is Some,
        is_solution(x),
        forall|r: int|
            0 <= r < 8 ==> close(
                #[trigger] left_over(eliminated(m, 8)->0, r, x, 8),
                0real,
                1500real * trace(),
            ),
    ensures
        eliminated(m, k) is Some,
        forall|r: int|
            0 <= r < 8 ==> close(
                #[trigger] left_over(eliminated(m, k)->0, r, x, k as int),
                0real,
                remaining(k),
            ),
    decreases 8 - k,
{
    if k < 8 {
        all_back(m, k + 1, x);
        remaining_is_positive(k + 1);
        one_back(m, k, x, remaining(k + 1));
    }
}

/// The unknowns that are found last are the first of them.
proof fn found_alike(m: Seq<Real>, n: nat, k: nat, j: int)
    requires
        n <= k <= 8,
        0 <= j < n,
    ensures
        unknowns(m, k).len() == k,
        unknowns(m, n).len() == n,
        unknowns(m, k)[k - n + j] == unknowns(m, n)[j],
    decreases k,
{
    unknowns_length(m, k);
    unknowns_length(m, n);
    if k > n {
        found_alike(m, n, (k - 1) as nat, j);
        assert(unknowns(m, k)[k - n + j] == unknowns(m, (k - 1) as nat)[k - 1 - n + j]);
    }
}

proof fn unknowns_length(m: Seq<Real>, n: nat)
    requires
        n <= 8,
    ensures
        unknowns(m, n).len() == n,
    decreases n,
{
    if n > 0 {
        unknowns_length(m, (n - 1) as nat);
    }
}

/// The values of the unknowns that are found.
pub open spec fn found(m: Seq<Real>) -> Seq<real> {
    Seq::new(
        9,
        |c: int|
            if c < 8 {
                value(unknowns(m, 8)[c])
            } else {
                -1real
            },
    )
}

/// The unknowns are numbers of at most 100 in size.
pub open spec fn are_found(m: Seq<Real>) -> bool {
    forall|c: int|
        0 <= c < 8 ==> is_number(#[trigger] unknowns(m, 8)[c]) && -100real <= value(
            unknowns(m, 8)[c],
        ) <= 100real
}

/// What is left of the right-hand side once the known unknowns are taken away.
proof fn rest_is_near(m: Seq<Real>, col: int, n: nat)
    requires
        is_system(m, 600real),
        are_found(m),
        0 <= col < 8,
        n <= 7 - col,
    ensures
        near(
            rest(m, col, unknowns(m, (7 - col) as nat), n),
            value(m[9 * col + 8]) - terms(m, col, found(m), col + 1, n),
            n as real * (200real * trace()),
        ),
        size(terms(m, col, found(m), col + 1, n)) <= n as real * 60000real,
    decreases n,
{
    let t = trace();
    let x = found(m);
    let known = unknowns(m, (7 - col) as nat);
    if n == 0 {
        assert(0real * (200real * t) == 0real && 0real * 60000real == 0real) by (nonlinear_arith);
    } else {
        let k = (n - 1) as nat;
        rest_is_near(m, col, k);
        let c = col + n;
        found_alike(m, (7 - col) as nat, 8, n - 1);
        let (a, b) = (m[9 * col + c], known[n - 1]);
        assert(b == unknowns(m, 8)[c]);
        let (y, z) = (value(a), value(b));
        assert((60000real + 1real) * grain() <= 10real * t) by (nonlinear_arith)
            requires
                grain() == 1real / 9007199254740992real,
                t == 1real / 1000000000000real,
        ;
        assert((2real * 500000real + 1real) * grain() <= 180real * t) by (nonlinear_arith)
            requires
                grain() == 1real / 9007199254740992real,
                t == 1real / 1000000000000real,
        ;
        near_times(a, y, 0real, 600real, b, z, 0real, 100real, 60000real, 10real * t);
        assert(-60000real <= y * z <= 60000real) by (nonlinear_arith)
            requires
                -600real <= y <= 600real,
                -100real <= z <= 100real,
        ;
        let (i, j) = (k as real, n as real);
        assert(j * (200real * t) == i * (200real * t) + 200real * t) by (nonlinear_arith)
            requires
                j == i + 1real,
        ;
        assert(0real <= i * (200real * t) <= 1real) by (nonlinear_arith)
            requires
                0real <= i <= 8real,
                t == 1real / 1000000000000real,
        ;
        let so_far = value(m[9 * col + 8]) - terms(m, col, x, col + 1, k);
        near_difference(
            rest(m, col, known, k),
            so_far,
            i * (200real * t),
            a.times(b),
            y * z,
            10real * t,
            500000real,
            j * (200real * t),
        );
        assert(x[c] == z);
    }
}

/// Once all unknowns are eliminated, the values that are found leave little over of each
/// equation.
proof fn last_rows(m: Seq<Real>, col: int)
    requires
        is_system(m, 600real),
        are_found(m),
        0 <= col < 8,
        size(value(m[9 * col + col])) * power(60) >= 1real,
    ensures
        close(left_over(m, col, found(m), 8), 0real, 1500real * trace()),
{
    let t = trace();
    let x = found(m);
    let n = (7 - col) as nat;
    rest_is_near(m, col, n);
    let known = unknowns(m, n);
    let top = rest(m, col, known, n);
    let (b, u) = (m[9 * col + col], unknowns(m, 8)[col]);
    unknowns_length(m, n);
    found_alike(m, n + 1, 8, 0);
    assert(unknowns(m, n + 1)[0] == top.over(b));
    assert(u == top.over(b));
    let (p, q, y) = (value(top), value(b), value(u));
    slack_is_small(0real, 0real);
    let i = n as real;
    assert(0real <= i * (200real * t) <= 1400real * t) by (nonlinear_arith)
        requires
            0real <= i <= 7real,
            t >= 0real,
    ;
    quotient_rounds(top, b);
    let g = p / q;
    assert(q != 0real) by (nonlinear_arith)
        requires
            size(q) * power(60) >= 1real,
            size(q) == q || size(q) == -q,
    ;
    assert(g * q == p) by (nonlinear_arith)
        requires
            g == p / q,
            q != 0real,
    ;
    slack_is_small(g, size(g));
    let sg = size(g);
    assert((sg + 1real) * grain() == sg * grain() + grain()) by (nonlinear_arith);
    assert(sg * grain() == sg / 9007199254740992real) by (nonlinear_arith)
        requires
            grain() == 1real / 9007199254740992real,
    ;
    assert(sg <= 101real);
    let d = y - g;
    let e = 102real * grain();
    assert(-(600real * e) <= d * q <= 600real * e) by (nonlinear_arith)
        requires
            -e <= d <= e,
            -600real <= q <= 600real,
            e >= 0real,
    ;
    assert(y * q == g * q + d * q) by (nonlinear_arith)
        requires
            d == y - g,
    ;
    assert(q * y == y * q) by (nonlinear_arith);
    assert(61200real * grain() <= 10real * t);
    // All terms of the row.
    let k = (8 - col) as nat;
    first_term(m, col, x, col, k + 1);
    let last = value(m[9 * col + 8]);
    assert(terms(m, col, x, col + 1, k) == terms(m, col, x, col + 1, n) + term(m, col, x, 8));
    assert(last * (-1real) == -last) by (nonlinear_arith);
    assert(term(m, col, x, col) == q * y);
}

/// What is found by elimination leaves little over of the equations it is put back into, as
/// long as nothing that is found is large.
pub proof fn solution_fits(m: Seq<Real>, r: int)
    requires
        is_system(m, 9real / 4real),
        eliminated(m, 8) is Some,
        are_found(eliminated(m, 8)->0),
        0 <= r < 8,
    ensures
        close(
            terms(m, r, found(eliminated(m, 8)->0), 0, 9),
            0real,
            2000000real * trace(),
        ),
{
    let last = eliminated(m, 8)->0;
    let x = found(last);
    stage(m, 8);
    grown_is_bounded(8);
    assert(is_system(last, 600real)) by {
        assert forall|i: int| 0 <= i < 72 implies is_number(#[trigger] last[i]) && -600real
            <= value(last[i]) <= 600real by {}
    }
    assert forall|q: int| 0 <= q < 8 implies close(
        #[trigger] left_over(last, q, x, 8),
        0real,
        1500real * trace(),
    ) by {
        pivot_stays(m, q, 8);
        last_rows(last, q);
    }
    assert(is_solution(x));
    all_back(m, 0, x);
    remaining_is_small();
    assert(eliminated(m, 0)->0 == m);
    assert(close(left_over(m, r, x, 0), 0real, remaining(0)));
}

/// A pivot stays where it is.
proof fn pivot_stays(m: Seq<Real>, col: int, k: nat)
    requires
        is_system(m, 9real / 4real),
        0 <= col < k <= 8,
        eliminated(m, k) is Some,
    ensures
        size(value(eliminated(m, k)->0[9 * col + col])) * power(60) >= 1real,
    decreases k,
{
    stage(m, k);
    let before = eliminated(m, (k - 1) as nat)->0;
    let p = pivot_row(before, k - 1, 8);
    let swapped = exchanged(before, k - 1, p);
    above_is_kept(swapped, k - 1, col, col);
    if col < k - 1 {
        pivot_stays(m, col, (k - 1) as nat);
        rows_exchange(before, k - 1, p, col, col);
    }
}

} // verus!
