//! Binary32 numbers near values: what sums, products, quotients and roots of them are near.
use vstd::arithmetic::power2::*;
use vstd::prelude::*;

use crate::binary::Real32;
use crate::exact::formats;
use crate::float::{
    bit_length, bit_length_bounds, exponent, nearest, negative, root_floor, signed, significand,
    unsigned, zero, Width,
};
use crate::growth::larger_product;
use crate::number::{
    SHORT_FOUR, SHORT_HALF, SHORT_ONE, SHORT_QUARTER, SHORT_SIXTEEN, SHORT_TWELVE, SHORT_TWO,
    SHORT_ZERO,
};
use crate::ordering::kept_within;
use crate::roots::root_exists;
use crate::single::{
    difference_rounds, is_number, magnitude, magnitude_by_parts, modest_length, nearest_is_near,
    order_is_by_value, product_rounds, quotient_rounds, signed_rounds, slack, sum_rounds, value,
    zero_is_zero,
};
use crate::units::units;
use crate::value::{power, power_adds, size};

verus! {

/// One part in 2^24.
pub open spec fn mite() -> real {
    1real / 16777216real
}

/// What rounding adds to an error at most, where nothing is above 18 in size.
pub open spec fn mote() -> real {
    1real / 800000real
}

/// A number is at most `e` away from a value.
pub open spec fn near(v: Real32, x: real, e: real) -> bool {
    is_number(v) && -e <= value(v) - x <= e
}

/// Rounding moves a value by at most one part in 2^24 of it and of 1.
pub proof fn slack_is_small(x: real, bound: real)
    requires
        size(x) <= bound,
    ensures
        0real <= slack(x) <= (bound + 1real) * mite(),
        power(20) == 1048576real,
{
    lemma2_to64();
    lemma2_to64_rest();
    lemma_pow2_strictly_increases(24, 149);
    let (p, q, s) = (power(24), power(149), size(x));
    assert(p == 16777216real);
    assert(0real <= s / p + 1real / q <= (bound + 1real) / p) by (nonlinear_arith)
        requires
            0real <= s <= bound,
            q > p,
            p > 0real,
    ;
    assert((bound + 1real) / p == (bound + 1real) * mite()) by (nonlinear_arith)
        requires
            p == 16777216real,
            mite() == 1real / 16777216real,
    ;
}

/// Rounding a value of at most 18 in size.
proof fn slack_is_a_mote(x: real)
    requires
        -18real <= x <= 18real,
    ensures
        0real <= slack(x) <= mote(),
        power(20) == 1048576real,
{
    slack_is_small(x, 18real);
    assert((18real + 1real) * mite() <= mote()) by (nonlinear_arith)
        requires
            mite() == 1real / 16777216real,
            mote() == 1real / 800000real,
    ;
}

/// A sum.
pub proof fn near_plus(a: Real32, x: real, ea: real, b: Real32, y: real, eb: real, e: real)
    requires
        near(a, x, ea),
        near(b, y, eb),
        size(x) + ea + size(y) + eb <= 18real,
        ea >= 0real,
        eb >= 0real,
        ea + eb + mote() <= e,
    ensures
        near(a.plus(b), x + y, e),
{
    slack_is_a_mote(0real);
    sum_rounds(a, b);
    slack_is_a_mote(value(a) + value(b));
}

/// A difference.
pub proof fn near_minus(a: Real32, x: real, ea: real, b: Real32, y: real, eb: real, e: real)
    requires
        near(a, x, ea),
        near(b, y, eb),
        size(x) + ea + size(y) + eb <= 18real,
        ea >= 0real,
        eb >= 0real,
        ea + eb + mote() <= e,
    ensures
        near(a.minus(b), x - y, e),
{
    slack_is_a_mote(0real);
    difference_rounds(a, b);
    slack_is_a_mote(value(a) - value(b));
}

/// A product.
pub proof fn near_by(
    a: Real32,
    x: real,
    ea: real,
    bound: real,
    b: Real32,
    y: real,
    eb: real,
    other: real,
    e: real,
)
    requires
        near(a, x, ea),
        near(b, y, eb),
        size(x) + ea <= bound,
        size(y) + eb <= other,
        ea >= 0real,
        eb >= 0real,
        bound <= 18real,
        other <= 18real,
        bound * other <= 18real,
        bound * eb + other * ea + mote() <= e,
    ensures
        near(a.times(b), x * y, e),
{
    slack_is_a_mote(0real);
    product_rounds(a, b);
    let (p, q) = (value(a), value(b));
    assert(-(bound * other) <= p * q <= bound * other) by (nonlinear_arith)
        requires
            -bound <= p <= bound,
            -other <= q <= other,
    ;
    slack_is_a_mote(p * q);
    let d = p * q - x * y;
    assert(-(bound * eb + other * ea) <= d <= bound * eb + other * ea) by (nonlinear_arith)
        requires
            d == p * q - x * y,
            -bound <= p <= bound,
            -other <= y <= other,
            -ea <= p - x <= ea,
            -eb <= q - y <= eb,
            ea >= 0real,
            eb >= 0real,
    {
        assert(d == p * (q - y) + y * (p - x));
        assert(-(bound * eb) <= p * (q - y) <= bound * eb);
        assert(-(other * ea) <= y * (p - x) <= other * ea);
    }
}

/// A quotient that is at most 10 in size, times its divisor, is hardly anything but the
/// dividend.
pub proof fn quotient_times_divisor(a: Real32, b: Real32)
    requires
        is_number(a) && -18real <= value(a) <= 18real,
        is_number(b) && 0real < value(b) <= 18real,
        value(b) * 100000real >= 1real,
        -(10real * value(b)) <= value(a) <= 10real * value(b),
    ensures
        is_number(a.over(b)),
        -(11real) <= value(a.over(b)) <= 11real,
        -(mote() * value(b)) <= value(a.over(b)) * value(b) - value(a) <= mote() * value(b),
        near(a.over(b), value(a) / value(b), mote()),
{
    slack_is_a_mote(0real);
    let (p, q) = (value(a), value(b));
    quotient_rounds(a, b);
    let t = p / q;
    assert(t * q == p) by (nonlinear_arith)
        requires
            t == p / q,
            q > 0real,
    ;
    assert(-10real <= t <= 10real) by (nonlinear_arith)
        requires
            t * q == p,
            q > 0real,
            -(10real * q) <= p <= 10real * q,
    ;
    slack_is_a_mote(t);
    let d = value(a.over(b)) - t;
    let m = mote();
    assert(-(m * q) <= d * q <= m * q) by (nonlinear_arith)
        requires
            -m <= d <= m,
            q > 0real,
    ;
    assert((t + d) * q == t * q + d * q) by (nonlinear_arith);
}

/// A number by its digits.
pub proof fn digits(bits: u32, n: nat, k: nat)
    requires
        crate::exact::finite(Width::Single, bits as u64),
        !negative(Width::Single, bits as u64),
        significand(Width::Single, bits as u64) == n,
        exponent(Width::Single, bits as u64) == -k,
        k <= 40,
    ensures
        value(Real32 { bits }) == n as real / power(k),
        is_number(Real32 { bits }),
{
    magnitude_by_parts(bits as u64);
    let x = (149 - k) as nat;
    power_adds(k, x);
    let (r, p, q) = (n as real, power(k), power(x));
    assert(r * q / (p * q) == r / p) by (nonlinear_arith)
        requires
            p > 0real,
            q > 0real,
    ;
}

/// The values of the constants.
pub proof fn short_values()
    ensures
        near(Real32 { bits: SHORT_ZERO }, 0real, 0real),
        near(Real32 { bits: SHORT_QUARTER }, 1real / 4real, 0real),
        near(Real32 { bits: SHORT_HALF }, 1real / 2real, 0real),
        near(Real32 { bits: SHORT_ONE }, 1real, 0real),
        near(Real32 { bits: SHORT_TWO }, 2real, 0real),
        near(Real32 { bits: SHORT_FOUR }, 4real, 0real),
        near(Real32 { bits: SHORT_TWELVE }, 12real, 0real),
        near(Real32 { bits: SHORT_SIXTEEN }, 16real, 0real),
{
    formats(Width::Single);
    lemma2_to64();
    zero_is_zero();
    assert(power(25) == 33554432real && power(24) == 16777216real && power(23) == 8388608real
        && power(22) == 4194304real && power(21) == 2097152real && power(20) == 1048576real
        && power(19) == 524288real);
    digits(SHORT_QUARTER, 0x80_0000, 25);
    digits(SHORT_HALF, 0x80_0000, 24);
    digits(SHORT_ONE, 0x80_0000, 23);
    digits(SHORT_TWO, 0x80_0000, 22);
    digits(SHORT_FOUR, 0x80_0000, 21);
    digits(SHORT_TWELVE, 0xC0_0000, 20);
    digits(SHORT_SIXTEEN, 0x80_0000, 19);
    assert(8388608real / 33554432real == 1real / 4real);
    assert(8388608real / 16777216real == 1real / 2real);
    assert(8388608real / 8388608real == 1real);
    assert(8388608real / 4194304real == 2real);
    assert(8388608real / 2097152real == 4real);
    assert(12582912real / 1048576real == 12real);
    assert(8388608real / 524288real == 16real);
}

/// Numbers are in the order of their values.
pub proof fn order_is_that_of_values(a: Real32, b: Real32)
    requires
        is_number(a),
        is_number(b),
    ensures
        a.below(b) <==> value(a) < value(b),
        a.same(b) <==> value(a) == value(b),
        a.at_most(b) <==> value(a) <= value(b),
{
    let w = Width::Single;
    let (c, d) = (
        Real32 { bits: unsigned(w, a.bits as u64) as u32 },
        Real32 { bits: unsigned(w, b.bits as u64) as u32 },
    );
    assert(unsigned(w, c.bits as u64) == unsigned(w, a.bits as u64) && !negative(w, c.bits as u64));
    assert(unsigned(w, d.bits as u64) == unsigned(w, b.bits as u64) && !negative(w, d.bits as u64));
    assert(units(w, c.bits as u64) == units(w, a.bits as u64));
    assert(units(w, d.bits as u64) == units(w, b.bits as u64));
    order_is_by_value(c, d);
    order_is_by_value(d, c);
    magnitude_by_parts(a.bits as u64);
    magnitude_by_parts(b.bits as u64);
    zero_is_zero();
    let zero = Real32 { bits: SHORT_ZERO };
    order_is_by_value(zero, c);
    order_is_by_value(zero, d);
    order_is_by_value(c, zero);
    order_is_by_value(d, zero);
}

/// A number that is clamped has the value that is nearest to its own in the range.
pub proof fn clamped_value(v: Real32, low: Real32, high: Real32)
    requires
        is_number(v),
        is_number(low),
        is_number(high),
    ensures
        is_number(v.clamped(low, high)),
        value(v.clamped(low, high)) == kept_within(value(v), value(low), value(high)),
{
    order_is_that_of_values(v, low);
    order_is_that_of_values(high, v);
}

/// The number under the root of a pattern, moved by an even number of places.
spec fn under(a: u64) -> nat {
    let e = exponent(Width::Single, a);
    let s = significand(Width::Single, a);
    if e % 2 == 0 {
        s * pow2(128)
    } else {
        2 * s * pow2(128)
    }
}

/// What a whole root counts.
spec fn root_unit(a: u64) -> real {
    power((exponent(Width::Single, a) / 2 - 64 + 298) as nat) / power(298)
}

/// The number under the root, in units of the square of what the root counts, is the value.
proof fn under_is(a: u64)
    requires
        crate::exact::finite(Width::Single, a),
    ensures
        under(a) as real * (root_unit(a) * root_unit(a)) == magnitude(a),
        root_unit(a) > 0real,
        exponent(Width::Single, a) >= -149,
{
    let w = Width::Single;
    magnitude_by_parts(a);
    let (s, e) = (significand(w, a), exponent(w, a));
    let f = (e / 2 - 64 + 298) as nat;
    let x = (e + 149) as nat;
    let (p, q, one) = (power(f), power(298), power(149));
    power_adds(f, f);
    power_adds(298, 298);
    power_adds(149, 447);
    power_adds(x, 447);
    let r = root_unit(a);
    assert(r > 0real) by (nonlinear_arith)
        requires
            r == p / q,
            p > 0real,
            q > 0real,
    ;
    assert(r * r == (p * p) / (q * q)) by (nonlinear_arith)
        requires
            r == p / q,
            q > 0real,
    ;
    let t = if e % 2 == 0 {
        s
    } else {
        2 * s
    };
    let n = t * pow2(128);
    assert(n as real == t as real * power(128)) by (nonlinear_arith)
        requires
            n == t * pow2(128),
    ;
    assert(under(a) == n);
    power_adds(128, f + f);
    let g = power(f + f);
    let all = power(596);
    lemma_pow2_pos(596);
    if e % 2 == 0 {
        assert(128 + f + f == x + 447);
        assert(t as real * (power(128) * g) == s as real * (power(x) * power(447)));
    } else {
        assert(128 + f + f + 1 == x + 447);
        lemma_pow2_unfold(x + 447);
        assert(power(x + 447) == 2real * power(128 + f + f));
        let (sr, z) = (s as real, power(128 + f + f));
        assert((2real * sr) * z == sr * (2real * z)) by (nonlinear_arith);
    }
    let (tr, sr, u, v, k) = (t as real, s as real, power(128), power(x), power(447));
    assert((tr * u) * (g / all) == (tr * (u * g)) / all) by (nonlinear_arith)
        requires
            all > 0real,
    ;
    assert((sr * (v * k)) / (one * k) == sr * v / one) by (nonlinear_arith)
        requires
            one > 0real,
            k > 0real,
    ;
}

/// The square of the root of a number from a quarter to 1 is hardly anything but the number.
pub proof fn root_is_near(a: Real32)
    requires
        is_number(a),
        1real / 5real <= value(a) <= 1real,
    ensures
        ({
            let r = value(a.root());
            &&& is_number(a.root())
            &&& 0real <= r <= 1real + mote()
            &&& -mote() <= r * r - value(a) <= mote()
        }),
{
    let w = Width::Single;
    reveal(Real32::spec_root);
    let bits = a.bits as u64;
    magnitude_by_parts(bits);
    under_is(bits);
    lemma_pow2_pos(149);
    let (s, e) = (significand(w, bits), exponent(w, bits));
    let n = under(bits);
    root_exists(n);
    let k = root_floor(n);
    let more = k * k != n;
    let f = e / 2 - 64;
    let v = nearest(w, k, more, f);
    assert(!zero(w, bits) && !negative(w, bits)) by {
        if s == 0 {
            let (p, one) = (power((e + 149) as nat), power(149));
            assert(0real * p / one == 0real) by (nonlinear_arith)
                requires
                    one > 0real,
            ;
        }
    }
    assert(square_root_is(bits, v));
    crate::roots::whole_root_is_long(s, n, k);
    lemma_pow2_pos(64);
    bit_length_bounds(k);
    if bit_length(k) <= 24 {
        lemma_pow2_strictly_increases(bit_length(k), 64);
    }
    let (c, r, va) = (k as real, root_unit(bits), value(a));
    let kk = k * k;
    let mm = (k + 1) * (k + 1);
    assert(kk as real == c * c && mm as real == (c + 1real) * (c + 1real)) by (nonlinear_arith)
        requires
            kk == k * k,
            mm == (k + 1) * (k + 1),
            c == k as real,
    ;
    let x = c * r;
    larger_product(0real, r, r);
    assert(0real * r == 0real) by (nonlinear_arith);
    larger_product(c * c, n as real, r * r);
    larger_product(n as real, (c + 1real) * (c + 1real), r * r);
    assert((c * c) * (r * r) == (c * r) * (c * r)) by (nonlinear_arith);
    assert(((c + 1real) * (c + 1real)) * (r * r) == (c * r + r) * (c * r + r)) by (nonlinear_arith);
    assert(x * x <= va <= (x + r) * (x + r));
    lemma2_to64();
    lemma2_to64_rest();
    larger_product(1125899906842624real, c, r);
    larger_product(0real, c, r);
    if x > 1real {
        larger_product(1real, x, x);
    }
    assert(0real <= x <= 1real);
    assert(0real < r <= 1real / 1000000000000real);
    assert((x + r) * (x + r) == x * x + r * (2real * x + r)) by (nonlinear_arith);
    assert(r * (2real * x + r) <= 1real / 100000000000real) by (nonlinear_arith)
        requires
            0real <= x <= 1real,
            0real < r <= 1real / 1000000000000real,
    ;
    // The number nearest to the root.
    let y = if more {
        c + (1real / 2real)
    } else {
        c
    };
    larger_product(c, y, r);
    larger_product(y, c + 1real, r);
    assert((c + 1real) * r == c * r + r) by (nonlinear_arith);
    let (p, q) = (power((f + 298) as nat), power(298));
    lemma_pow2_pos(298);
    lemma_pow2_pos((f + 298) as nat);
    assert(y * p / q == y * (p / q)) by (nonlinear_arith)
        requires
            q > 0real,
    ;
    power_adds(20, 298);
    assert(power(20) == 1048576real);
    assert(c * p <= power(20 + 298)) by (nonlinear_arith)
        requires
            c * (p / q) <= 1real,
            q > 0real,
            power(20 + 298) == power(20) * q,
            power(20) >= 1real,
    {
        assert(c * (p / q) == (c * p) / q);
        assert((c * p) / q * q == c * p);
    }
    modest_length(k, f, 20);
    nearest_is_near(k, more, f, y);
    let z = y * r;
    signed_rounds(false, v, z);
    slack_is_small(z, 2real);
    let m = value(a.root());
    let d = m - x;
    let h = 1real / 5000000real;
    assert(-h <= d <= h);
    assert(m * m - x * x == d * (2real * x + d)) by (nonlinear_arith)
        requires
            d == m - x,
    ;
    assert(-(5real / 2real * h) <= d * (2real * x + d) <= 5real / 2real * h) by (nonlinear_arith)
        requires
            -h <= d <= h,
            0real <= x <= 1real,
            h == 1real / 5000000real,
    ;
    if m < 0real {
        magnitude_by_parts(a.root().bits as u64);
    }
}

spec fn square_root_is(bits: u64, v: int) -> bool {
    crate::float::square_root(Width::Single, bits) == signed(Width::Single, false, v)
}

} // verus!
