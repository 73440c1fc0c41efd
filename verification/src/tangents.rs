//! Tangents that have been limited are short enough for their stretch.
use vstd::arithmetic::power2::*;
use vstd::prelude::*;

use crate::binary::Real;
use crate::exact::is_number;
use crate::float::{negative, Width};
use crate::growth::larger_product;
use crate::nearness::slack_is_small;
use crate::number::{NINE, THREE, ZERO};
use crate::ops::color::{limited, with_slope};
use crate::roots::root_is_near;
use crate::value::{
    order_is_by_value, power, product_rounds, quotient_rounds, rounds, some_values, sum_rounds,
    value, zero_is_zero,
};

verus! {

/// One part in 2^40.
pub open spec fn part(x: real) -> real {
    x / 1099511627776real
}

/// One part in 2^60 of 1.
pub open spec fn speck() -> real {
    1real / 1152921504606846976real
}

/// A number that is not negative.
pub open spec fn is_positive(v: Real) -> bool {
    is_number(v) && !negative(Width::Double, v.bits)
}

/// Rounding moves a value by at most one part in 2^40 and a speck.
pub proof fn rounds_within(v: Real, x: real)
    requires
        rounds(v, x),
        x >= 0real,
    ensures
        x - part(x) - speck() <= value(v) <= x + part(x) + speck(),
{
    lemma2_to64();
    lemma2_to64_rest();
    lemma_pow2_strictly_increases(60, 1074);
    let (p, q) = (power(53), power(1074));
    assert(p == 9007199254740992real);
    assert(1real / q <= 1real / 1152921504606846976real) by (nonlinear_arith)
        requires
            q > 1152921504606846976real,
    ;
    assert(x / p <= x / 1099511627776real) by (nonlinear_arith)
        requires
            x >= 0real,
            p == 9007199254740992real,
    ;
}

/// A quotient of numbers that are not negative.
proof fn over_within(m: Real, d: Real)
    requires
        is_positive(m),
        is_positive(d),
        value(m) <= 300real,
        1real / 300real <= value(d) <= 300real,
    ensures
        ({
            let x = value(m) / value(d);
            let a = m.over(d);
            &&& is_positive(a)
            &&& x * value(d) == value(m)
            &&& 0real <= x <= 90000real
            &&& x - part(x) - speck() <= value(a) <= x + part(x) + speck()
            &&& value(a) >= 0real
        }),
{
    order_is_by_value(m, d);
    slack_is_small(0real, 0real);
    quotient_rounds(m, d);
    let (p, q) = (value(m), value(d));
    let x = p / q;
    assert(x * q == p) by (nonlinear_arith)
        requires
            x == p / q,
            q > 0real,
    ;
    if x < 0real {
        larger_product(x, 0real, q);
        assert(0real * q == 0real);
        assert(x * q < 0real) by (nonlinear_arith)
            requires
                x < 0real,
                q > 0real,
        ;
    }
    if x > 90000real {
        larger_product(90000real, x, q);
        assert(x * q > 300real) by (nonlinear_arith)
            requires
                x > 90000real,
                q >= 1real / 300real,
        ;
    }
    rounds_within(m.over(d), x);
    order_is_by_value(m.over(d), d);
}

/// A product of numbers that are not negative.
proof fn times_within(a: Real, b: Real)
    requires
        is_positive(a),
        is_positive(b),
        value(a) <= 100000real,
        value(b) <= 100000real,
    ensures
        ({
            let x = value(a) * value(b);
            let c = a.times(b);
            &&& is_positive(c)
            &&& 0real <= x <= 10000000000real
            &&& x - part(x) - speck() <= value(c) <= x + part(x) + speck()
            &&& value(c) >= 0real
        }),
{
    order_is_by_value(a, b);
    order_is_by_value(b, a);
    slack_is_small(0real, 0real);
    product_rounds(a, b);
    let (p, q) = (value(a), value(b));
    larger_product(0real, p, q);
    larger_product(p, 100000real, q);
    assert(0real * q == 0real);
    rounds_within(a.times(b), p * q);
    order_is_by_value(a.times(b), a);
}

/// A slope does not turn a tangent round that is not negative.
proof fn slope_keeps(m: Real, d: Real)
    requires
        is_positive(m),
        is_positive(d),
        value(m) <= 300real,
        1real / 300real <= value(d) <= 300real,
    ensures
        with_slope(m, d) == m,
{
    over_within(m, d);
    let zero = Real { bits: ZERO };
    assert(!m.over(d).below(zero));
}

/// The sum of the squares is no less than either of them, but for a little.
proof fn squares_add_up(a: Real, b: Real)
    requires
        is_positive(a),
        is_positive(b),
        value(a) <= 100000real,
        value(b) <= 100000real,
    ensures
        ({
            let s = a.times(a).plus(b.times(b));
            let q = value(a) * value(a);
            let r = value(b) * value(b);
            &&& is_positive(s)
            &&& value(s) >= q - 3real * part(q) - 3real * speck()
            &&& value(s) >= r - 3real * part(r) - 3real * speck()
            &&& 0real <= value(s) <= 30000000000real
        }),
{
    times_within(a, a);
    times_within(b, b);
    let (p, q) = (a.times(a), b.times(b));
    slack_is_small(0real, 0real);
    sum_rounds(p, q);
    rounds_within(p.plus(q), value(p) + value(q));
    order_is_by_value(p.plus(q), p);
}

/// The slope of a stretch, as a number.
pub open spec fn is_slope(d: Real, slope: real) -> bool {
    &&& is_positive(d)
    &&& 1real / 255real <= slope <= 255real
    &&& slope - part(slope) - speck() <= value(d) <= slope + part(slope) + speck()
}

/// A tangent of which the square is no more than 9 is short enough.
proof fn short_already(m: Real, d: Real, slope: real, vs: real)
    requires
        is_positive(m) && value(m) <= 300real,
        is_slope(d, slope),
        vs <= 9real,
        ({
            let v = value(m.over(d));
            vs >= v * v - 3real * part(v * v) - 3real * speck()
        }),
    ensures
        value(m) <= 3real * slope + 100real * part(slope),
{
    over_within(m, d);
    let (v, vd) = (value(m.over(d)), value(d));
    let most = 3real + 10real * part(1real);
    if v > most {
        larger_product(most, v, most);
        larger_product(most, v, v);
        assert(most * most > 9real + 50real * part(1real)) by (nonlinear_arith)
            requires
                most == 3real + 10real * part(1real),
                part(1real) == 1real / 1099511627776real,
        ;
    }
    let x = value(m) / vd;
    let bound = 3real + 20real * part(1real);
    assert(x <= bound);
    larger_product(x, bound, vd);
    let over = slope + part(slope) + speck();
    larger_product(vd, over, bound);
    times_little_more(over, 20real);
}

/// Three and a little more, times a number.
proof fn times_little_more(x: real, n: real)
    ensures
        (3real + n * part(1real)) * x == 3real * x + n * part(x),
        (1real + n * part(1real)) * x == x + n * part(x),
{
    assert((3real + n * (1real / 1099511627776real)) * x == 3real * x + n * (x / 1099511627776real))
        by (nonlinear_arith);
    assert((1real + n * (1real / 1099511627776real)) * x == x + n * (x / 1099511627776real))
        by (nonlinear_arith);
}

/// The root of what is above 9, and the quotient of 3 and it.
pub proof fn scale_is_near(s: Real)
    requires
        is_positive(s),
        9real < value(s) <= 30000000000real,
    ensures
        ({
            let r = value(s.root());
            let tau = (Real { bits: THREE }).over(s.root());
            let t = 3real / r;
            &&& r * r >= value(s) - part(value(s))
            &&& 3real - 3real * part(1real) <= r <= 40000000000real
            &&& t * r == 3real
            &&& 0real <= t <= 1real + 2real * part(1real)
            &&& is_positive(tau)
            &&& value(tau) <= t + part(t) + speck()
            &&& value(tau) >= 0real
        }),
{
    slack_is_small(0real, 0real);
    some_values();
    root_is_near(s);
    let three = Real { bits: THREE };
    let root = s.root();
    let r = value(root);
    let least = 3real - 3real * part(1real);
    if r < least {
        larger_product(r, least, r);
        larger_product(r, least, least);
        assert(least * least <= 9real - 10real * part(1real)) by (nonlinear_arith)
            requires
                least == 3real - 3real * part(1real),
                part(1real) == 1real / 1099511627776real,
        ;
    }
    quotient_rounds(three, root);
    let t = 3real / r;
    assert(t * r == 3real) by (nonlinear_arith)
        requires
            t == 3real / r,
            r > 0real,
    ;
    if t < 0real {
        assert(t * r < 0real) by (nonlinear_arith)
            requires
                t < 0real,
                r > 0real,
        ;
    }
    let most = 1real + 2real * part(1real);
    if t > most {
        larger_product(most, t, r);
        larger_product(least, r, most);
        assert(most * least > 3real) by (nonlinear_arith)
            requires
                most == 1real + 2real * part(1real),
                least == 3real - 3real * part(1real),
                part(1real) == 1real / 1099511627776real,
        ;
        assert(most * r < t * r) by (nonlinear_arith)
            requires
                most < t,
                r > 0real,
        ;
    }
    rounds_within(three.over(root), t);
    order_is_by_value(three.over(root), three);
}

/// A quotient of which the square is no more than what is under the root is no more than the
/// root.
proof fn below_root(v: real, vs: real, r: real)
    requires
        0real <= v,
        vs > 9real,
        vs >= v * v - 3real * part(v * v) - 3real * speck(),
        r * r >= vs - part(vs),
        r >= 2real,
    ensures
        v <= r + 8real * part(r),
{
    let top = r + 8real * part(r);
    if v > top {
        larger_product(top, v, top);
        larger_product(top, v, v);
        let p = 8real * part(r);
        assert((r + p) * (r + p) == r * r + 2real * (r * p) + p * p) by (nonlinear_arith);
        assert(r * (8real * (r / 1099511627776real)) == 8real * ((r * r) / 1099511627776real)) by (nonlinear_arith);
        assert(p * p >= 0real) by (nonlinear_arith);
    }
}

/// A tangent that is scaled back is short enough, and hardly longer than before.
proof fn scaled_back(m: Real, d: Real, slope: real, s: Real)
    requires
        is_positive(m) && value(m) <= 300real,
        is_slope(d, slope),
        is_positive(s),
        9real < value(s) <= 30000000000real,
        ({
            let v = value(m.over(d));
            value(s) >= v * v - 3real * part(v * v) - 3real * speck()
        }),
    ensures
        ({
            let tau = (Real { bits: THREE }).over(s.root());
            let out = tau.times(m.over(d)).times(d);
            &&& is_positive(out)
            &&& 0real <= value(out) <= 3real * slope + 100real * part(slope)
            &&& value(out) <= value(m) + 20real * part(value(m)) + 10000real * speck()
        }),
{
    over_within(m, d);
    scale_is_near(s);
    let alpha = m.over(d);
    let (v, vd, r, vm) = (value(alpha), value(d), value(s.root()), value(m));
    below_root(v, value(s), r);
    let tau = (Real { bits: THREE }).over(s.root());
    let (t, vt) = (3real / r, value(tau));
    // tau times alpha
    let more = r + 8real * part(r);
    larger_product(v, more, t);
    assert(t * (r + 8real * (r / 1099511627776real)) == t * r + 8real * ((t * r) / 1099511627776real))
        by (nonlinear_arith);
    let high = t + part(t) + speck();
    larger_product(vt, high, v);
    assert((t + t / 1099511627776real + speck()) * v == t * v + (t * v) / 1099511627776real + speck()
        * v) by (nonlinear_arith);
    larger_product(v, 100000real, speck());
    times_within(tau, alpha);
    let x = vt * v;
    let ta = tau.times(alpha);
    assert(x <= 3real + 30real * part(1real));
    let most = 3real + 40real * part(1real);
    assert(value(ta) <= most);
    times_within(ta, d);
    larger_product(value(ta), most, vd);
    let over = slope + part(slope) + speck();
    larger_product(vd, over, most);
    times_little_more(over, 40real);
    // Hardly longer.
    let one = 1real + 4real * part(1real);
    assert(vt <= one);
    larger_product(vt, one, v);
    times_little_more(v, 4real);
    let longer = v + 6real * part(v) + 2real * speck();
    assert(value(ta) <= longer);
    larger_product(value(ta), longer, vd);
    let q = v * vd;
    assert((v + 6real * (v / 1099511627776real) + 2real * speck()) * vd == v * vd + 6real * ((v * vd)
        / 1099511627776real) + 2real * (speck() * vd)) by (nonlinear_arith);
    let w = vm / vd;
    let up = w + part(w) + speck();
    larger_product(v, up, vd);
    assert((w + w / 1099511627776real + speck()) * vd == w * vd + (w * vd) / 1099511627776real + speck()
        * vd) by (nonlinear_arith);
    larger_product(vd, 256real, speck());
}

/// Limiting two tangents that are not negative leaves them so, makes them short enough for
/// the stretch, and hardly longer than they were.
pub proof fn limited_is_short(m: Real, n: Real, d: Real, slope: real)
    requires
        is_positive(m) && value(m) <= 300real,
        is_positive(n) && value(n) <= 300real,
        is_slope(d, slope),
    ensures
        ({
            let (a, b) = limited(m, n, d);
            &&& is_positive(a) && 0real <= value(a) <= 3real * slope + 100real * part(slope)
            &&& is_positive(b) && 0real <= value(b) <= 3real * slope + 100real * part(slope)
            &&& value(a) <= value(m) + 20real * part(value(m)) + 10000real * speck()
            &&& value(b) <= value(n) + 20real * part(value(n)) + 10000real * speck()
        }),
{
    let zero = Real { bits: ZERO };
    order_is_by_value(m, n);
    order_is_by_value(n, m);
    order_is_by_value(d, m);
    slope_keeps(m, d);
    slope_keeps(n, d);
    over_within(m, d);
    over_within(n, d);
    let (a, b) = (m.over(d), n.over(d));
    let s = a.times(a).plus(b.times(b));
    squares_add_up(a, b);
    some_values();
    let nine = Real { bits: NINE };
    order_is_by_value(nine, s);
    zero_is_zero();
    order_is_by_value(zero, d);
    if nine.below(s) {
        scaled_back(m, d, slope, s);
        scaled_back(n, d, slope, s);
    } else {
        short_already(m, d, slope, value(s));
        short_already(n, d, slope, value(s));
    }
}

} // verus!
