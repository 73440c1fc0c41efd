//! What becomes of a number's value between the two formats.
use vstd::arithmetic::power2::*;
use vstd::prelude::*;

use crate::binary::{Real, Real32};
use crate::exact::{formats, is_number, nearest_keeps_order, nearest_of_shifted, parts_of};
use crate::float::{
    bit_length, bit_length_bounds, exponent, nearest, negative, signed, significand, unsigned,
    Width,
};
use crate::single;
use crate::single_near::{self, mite, mote};
use crate::units::{exact_units, nearest_in_units, units, units_keep_order};
use crate::value::{magnitude, magnitude_by_parts, power, power_adds, value, zero_is_zero};

verus! {

/// A number keeps its value in the longer format.
pub proof fn widened_value(v: Real32)
    requires
        single::is_number(v),
    ensures
        is_number(v.widened()),
        value(v.widened()) == single::value(v),
{
    let (w, d) = (Width::Single, Width::Double);
    reveal(Real32::spec_widened);
    let bits = v.bits as u64;
    single::magnitude_by_parts(bits);
    parts_of(w, bits);
    formats(w);
    formats(d);
    lemma_pow2_unfold(53);
    lemma_pow2_unfold(24);
    let (n, e) = (significand(w, bits), exponent(w, bits));
    let m = nearest(d, n, false, e);
    let r = v.widened();
    assert(r.bits == signed(d, negative(w, bits), m));
    if n == 0 {
        zero_is_zero();
        assert(units(d, r.bits) == units(d, 0)) by {
            assert(unsigned(d, r.bits) == 0);
        }
        let (p, one) = (power((e + 149) as nat), power(149));
        lemma_pow2_pos(149);
        assert(0real * p / one == 0real) by (nonlinear_arith)
            requires
                one > 0real,
        ;
    } else {
        let k = (e + 1074) as nat;
        lemma2_to64();
        nearest_in_units(d, n, e);
        exact_units(d, n, k);
        assert(unsigned(d, r.bits) == m);
        assert(units(d, r.bits) == units(d, m as u64));
        let u = n * pow2(k);
        assert(u as real == n as real * power(k)) by (nonlinear_arith)
            requires
                u == n * pow2(k),
                power(k) == pow2(k) as real,
        ;
        let j = (e + 149) as nat;
        power_adds(j, 925);
        power_adds(149, 925);
        let (a, b, c, q) = (n as real, power(j), power(925), power(149));
        assert(a * (b * c) / (q * c) == a * b / q) by (nonlinear_arith)
            requires
                c > 0real,
                q > 0real,
        ;
    }
}

/// A number of at most 18 in size is moved by at most a mote into the shorter format.
pub proof fn narrowed_is_near(v: Real)
    requires
        is_number(v),
        -18real <= value(v) <= 18real,
    ensures
        single_near::near(v.narrowed(), value(v), mote()),
{
    let (w, d) = (Width::Single, Width::Double);
    reveal(Real::spec_narrowed);
    magnitude_by_parts(v.bits);
    parts_of(d, v.bits);
    formats(w);
    formats(d);
    lemma_pow2_unfold(53);
    let (n, e) = (significand(d, v.bits), exponent(d, v.bits));
    let m = nearest(w, n, false, e);
    let minus = negative(d, v.bits);
    let x = magnitude(v.bits);
    let (p, one) = (power((e + 1074) as nat), power(1074));
    lemma_pow2_pos(1074);
    single_near::slack_is_small(x, 18real);
    assert((18real + 1real) * mite() <= mote()) by (nonlinear_arith)
        requires
            mite() == 1real / 16777216real,
            mote() == 1real / 800000real,
    ;
    let r = v.narrowed();
    if n == 0 {
        assert(0real * p / one == 0real) by (nonlinear_arith)
            requires
                one > 0real,
        ;
        single::zero_is_zero();
        single_near::slack_is_small(0real, 0real);
        single::signed_rounds(minus, 0, 0real);
        single::magnitude_by_parts(r.bits as u64);
        assert(units(w, r.bits as u64) == units(w, 0)) by {
            assert(unsigned(w, r.bits as u64) == 0);
        }
    } else if e >= -298 {
        let k = (e + 298) as nat;
        power_adds(k, 776);
        power_adds(298, 776);
        let (a, b, c, q) = (n as real, power(k), power(776), power(298));
        assert(a * (b * c) / (q * c) == a * b / q) by (nonlinear_arith)
            requires
                c > 0real,
                q > 0real,
        ;
        power_adds(20, 298);
        lemma2_to64();
        assert(a * b <= power(20 + 298)) by (nonlinear_arith)
            requires
                a * b / q <= 18real,
                q > 0real,
                power(20 + 298) == power(20) * q,
                power(20) >= 18real,
        {
            assert(a * b / q * q == a * b);
        }
        single::modest_length(n, e, 20);
        single::nearest_is_near(n, false, e, n as real);
        single::signed_rounds(minus, m, x);
        single::magnitude_by_parts(r.bits as u64);
    } else {
        tiny_is_lost(n, e);
        let t = (e + 1074) as nat;
        lemma2_to64();
        lemma_pow2_adds(t, (-298 - e) as nat);
        lemma_pow2_pos(t);
        lemma_pow2_strictly_increases(t, 776);
        power_adds(776, 298);
        power_adds(54, 244);
        lemma_pow2_pos(244);
        lemma2_to64_rest();
        let (a, c, q, h) = (n as real, power(776), power(54), power(244));
        assert(power(244) >= power(30)) by {
            lemma_pow2_strictly_increases(30, 244);
        }
        assert(x <= 1real / h) by (nonlinear_arith)
            requires
                x == a * p / one,
                0real <= a <= q,
                0real <= p <= c,
                one == c * (q * h),
                c > 0real,
                q > 0real,
                h > 0real,
        {
            assert(a * p <= q * c);
            assert(q * c / (c * (q * h)) == 1real / h);
            assert(a * p / one <= q * c / one);
        }
        assert(1real / h <= 1real / 1000000000real) by (nonlinear_arith)
            requires
                h >= 1073741824real,
        ;
        single_near::slack_is_small(single::magnitude(m as u64), 18real);
        single::signed_rounds(minus, m, single::magnitude(m as u64));
        single::magnitude_by_parts(r.bits as u64);
        assert(unsigned(w, r.bits as u64) == m);
        assert(units(w, r.bits as u64) == units(w, m as u64));
    }
}

/// What is far below the shorter format hardly leaves anything there.
proof fn tiny_is_lost(n: nat, e: int)
    requires
        0 < n < pow2(53),
        e < -298,
    ensures
        ({
            let m = nearest(Width::Single, n, false, e);
            &&& 0 <= m < crate::float::infinity(Width::Single)
            &&& crate::exact::finite(Width::Single, m as u64)
            &&& !negative(Width::Single, m as u64)
            &&& 0real <= single::magnitude(m as u64) <= 1real / 10000000real
        }),
{
    let w = Width::Single;
    formats(w);
    let t = (-200 - e) as nat;
    lemma_pow2_strictly_increases(53, t);
    nearest_keeps_order(w, n, pow2(t), e);
    nearest_keeps_order(w, 0, n, e);
    nearest_of_shifted(w, 1, t, -200);
    lemma2_to64();
    assert(1nat * pow2(t) == pow2(t)) by (nonlinear_arith);
    let b = nearest(w, 1, false, -200);
    bit_length_bounds(1);
    assert(bit_length(1) == 1) by {
        assert(bit_length(0) == 0);
    }
    single::nearest_is_near(1, false, -200, 1real);
    let m = nearest(w, n, false, e);
    single::magnitude_by_parts(m as u64);
    single::magnitude_by_parts(b as u64);
    units_keep_order(w, m as u64, b as u64);
    let (p, q, one) = (units(w, m as u64) as real, units(w, b as u64) as real, power(149));
    lemma_pow2_pos(149);
    assert(p / one <= q / one) by (nonlinear_arith)
        requires
            p <= q,
            one > 0real,
    ;
    // The larger number is tiny.
    power_adds(98, 200);
    let (f, g) = (power(98), power(200));
    lemma_pow2_pos(98);
    lemma_pow2_pos(200);
    lemma_pow2_strictly_increases(30, 200);
    lemma2_to64_rest();
    lemma_pow2_strictly_increases(30, 149);
    let x = 1real * f / power(298);
    assert(x == 1real / g) by (nonlinear_arith)
        requires
            x == 1real * f / (f * g),
            f > 0real,
            g > 0real,
    ;
    assert(0real <= 1real / g <= 1real / 1073741824real) by (nonlinear_arith)
        requires
            g >= 1073741824real,
    ;
    assert(1real / one <= 1real / 1073741824real) by (nonlinear_arith)
        requires
            one >= 1073741824real,
    ;
    let h = power(24);
    lemma_pow2_pos(24);
    assert(x / h <= x) by (nonlinear_arith)
        requires
            x >= 0real,
            h >= 1real,
    ;
}

} // verus!
