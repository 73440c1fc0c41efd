//! IEEE 754 arithmetic in software, on bit patterns of binary32 and binary64 numbers.
//!
//! Every operation gives the number nearest to the exact result, and of two equally
//! near ones the even one, so results do not depend on the machine.
use vstd::arithmetic::div_mod::*;
use vstd::arithmetic::mul::*;
use vstd::arithmetic::power2::*;
use vstd::prelude::*;

verus! {

/// The two formats.
#[derive(Clone, Copy, Debug, PartialEq, Eq, Structural)]
pub enum Width {
    Single,
    Double,
}

/// The number of stored fraction bits.
pub open spec fn fraction_bits(w: Width) -> nat {
    match w {
        Width::Single => 23,
        Width::Double => 52,
    }
}

/// The exponent of the last place of the smallest numbers.
pub open spec fn lowest(w: Width) -> int {
    match w {
        Width::Single => -149,
        Width::Double => -1074,
    }
}

/// The pattern of infinity.
pub open spec fn infinity(w: Width) -> int {
    match w {
        Width::Single => 0x7F80_0000,
        Width::Double => 0x7FF0_0000_0000_0000,
    }
}

/// The weight of the sign bit.
pub open spec fn sign_weight(w: Width) -> int {
    match w {
        Width::Single => 0x8000_0000,
        Width::Double => 0x8000_0000_0000_0000,
    }
}

/// How many bits a number takes.
pub open spec fn bit_length(n: nat) -> nat
    decreases n,
{
    if n == 0 {
        0
    } else {
        1 + bit_length(n / 2)
    }
}

/// `n / 2^s` rounded to the nearest whole number, ties to even. With `more`, the true
/// value lies a little above `n`.
pub open spec fn rounded(n: nat, s: nat, more: bool) -> nat {
    let q = n / pow2(s);
    let r = n % pow2(s);
    let half = pow2((s - 1) as nat);
    if r > half || (r == half && (more || q % 2 == 1)) {
        q + 1
    } else {
        q
    }
}

/// `n / 2^s`, rounded where `s` is positive.
pub open spec fn scaled(n: nat, s: int, more: bool) -> nat {
    if s <= 0 {
        n * pow2((-s) as nat)
    } else {
        rounded(n, s as nat, more)
    }
}

/// How many places of `n * 2^e` are dropped to fit the format.
pub open spec fn dropped(w: Width, n: nat, e: int) -> int {
    let by_length = bit_length(n) - (fraction_bits(w) + 1);
    let by_exponent = lowest(w) - e;
    if by_length >= by_exponent {
        by_length
    } else {
        by_exponent
    }
}

/// The pattern of the number nearest to `n * 2^e`, where with `more` the true value
/// lies between `n * 2^e` and `(n + 1) * 2^e`. What is too large is infinite.
pub open spec fn nearest(w: Width, n: nat, more: bool, e: int) -> int {
    if n == 0 {
        0
    } else {
        let s = dropped(w, n, e);
        let pattern = scaled(n, s, more) + (e + s - lowest(w)) * pow2(fraction_bits(w));
        if pattern < infinity(w) {
            pattern
        } else {
            infinity(w)
        }
    }
}

/// A number lies between two powers of two by its bit length.
pub proof fn bit_length_bounds(n: nat)
    requires
        n > 0,
    ensures
        bit_length(n) >= 1,
        pow2((bit_length(n) - 1) as nat) <= n < pow2(bit_length(n)),
    decreases n,
{
    if n == 1 {
        lemma2_to64();
        assert(bit_length(1) == 1 + bit_length(0));
    } else {
        bit_length_bounds(n / 2);
        lemma_pow2_unfold(bit_length(n));
        lemma_pow2_unfold((bit_length(n) - 1) as nat);
    }
}

/// The bit length of a number between two powers of two.
pub proof fn bit_length_is(n: nat, k: nat)
    requires
        k >= 1,
        pow2((k - 1) as nat) <= n < pow2(k),
    ensures
        bit_length(n) == k,
{
    lemma_pow2_pos((k - 1) as nat);
    bit_length_bounds(n);
    let b = bit_length(n);
    if b < k {
        if b < k - 1 {
            lemma_pow2_strictly_increases(b, (k - 1) as nat);
        }
    } else if b > k {
        if k < b - 1 {
            lemma_pow2_strictly_increases(k, (b - 1) as nat);
        }
    }
}

/// Moving a number moves its bit length.
pub proof fn bit_length_shifted(n: nat, t: nat, r: nat)
    requires
        n > 0,
        r < pow2(t),
    ensures
        bit_length(n * pow2(t) + r) == bit_length(n) + t,
{
    bit_length_bounds(n);
    let b = bit_length(n);
    let lo = pow2((b - 1) as nat);
    let hi = pow2(b);
    let p = pow2(t);
    lemma_pow2_adds((b - 1) as nat, t);
    lemma_pow2_adds(b, t);
    assert(lo * p <= n * p + r) by (nonlinear_arith)
        requires
            lo <= n,
            r >= 0,
            p >= 0,
    ;
    assert(n * p + r < hi * p) by (nonlinear_arith)
        requires
            n + 1 <= hi,
            r < p,
    ;
    bit_length_is(n * pow2(t) + r, b + t);
}

/// The digits that are dropped matter only by whether there are any: a long value can
/// be cut to a short one with a mark for what is left out.
pub proof fn nearest_of_cut(w: Width, n: nat, t: nat, r: nat, more: bool, e: int)
    requires
        n >= pow2(fraction_bits(w) + 2),
        r < pow2(t),
    ensures
        nearest(w, n * pow2(t) + r, more, e) == nearest(w, n, more || r > 0, e + t),
{
    let f = fraction_bits(w);
    let whole = n * pow2(t) + r;
    lemma_pow2_pos(f + 2);
    lemma_pow2_pos(t);
    bit_length_shifted(n, t, r);
    bit_length_bounds(n);
    let b = bit_length(n);
    if b < f + 3 {
        if b < f + 2 {
            lemma_pow2_strictly_increases(b, f + 2);
        }
    }
    assert(b >= f + 3);
    let s = dropped(w, n, e + t);
    assert(s >= 2);
    assert(dropped(w, whole, e) == s + t);
    let p = pow2(s as nat);
    let pt = pow2(t);
    let half = pow2((s - 1) as nat);
    lemma_pow2_pos(s as nat);
    lemma_pow2_adds(s as nat, t);
    lemma_pow2_adds((s - 1) as nat, t);
    assert((s - 1) as nat + t == (s + t - 1) as nat);
    let q = n / p;
    let rem = n % p;
    // whole / (p * pt) == q and whole % (p * pt) == rem * pt + r
    lemma_fundamental_div_mod(n as int, p as int);
    assert(n == p * q + rem);
    let left = rem * pt + r;
    assert(whole == q * (p * pt) + left) by (nonlinear_arith)
        requires
            n == p * q + rem,
            whole == n * pt + r,
            left == rem * pt + r,
    ;
    assert(0 <= left < p * pt) by (nonlinear_arith)
        requires
            left == rem * pt + r,
            rem + 1 <= p,
            0 <= r < pt,
            0 <= rem,
    ;
    lemma_fundamental_div_mod_converse(whole as int, (p * pt) as int, q as int, left as int);
    assert(whole / (p * pt) == q && whole % (p * pt) == left);
    assert(pow2((s + t) as nat) == p * pt);
    assert(pow2((s + t - 1) as nat) == half * pt);
    assert(left > half * pt <==> rem > half || (rem == half && r > 0)) by (nonlinear_arith)
        requires
            left == rem * pt + r,
            0 <= r < pt,
            0 <= rem,
            0 <= half,
    ;
    assert(left == half * pt <==> rem == half && r == 0) by (nonlinear_arith)
        requires
            left == rem * pt + r,
            0 <= r < pt,
            0 <= rem,
            0 <= half,
    ;
    assert(rounded(whole, (s + t) as nat, more) == rounded(n, s as nat, more || r > 0));
    assert(whole > 0) by (nonlinear_arith)
        requires
            whole == n * pt + r,
            n > 0,
            pt > 0,
            r >= 0,
    ;
}

/// The power of two with a small exponent.
fn power(s: u32) -> (p: u128)
    requires
        s < 128,
    ensures
        p == pow2(s as nat),
{
    let mut p: u128 = 1;
    let mut i: u32 = 0;
    proof {
        lemma2_to64();
        lemma2_to64_rest();
    }
    if s >= 64 {
        p = 0x1_0000_0000_0000_0000;
        i = 64;
        proof {
            lemma_pow2_adds(32, 32);
            assert(pow2(32) == 0x1_0000_0000);
        }
    }
    while i < s
        invariant
            i <= s < 128,
            p == pow2(i as nat),
        decreases s - i,
    {
        proof {
            lemma_pow2_unfold((i + 1) as nat);
            lemma_pow2_below_128((i + 1) as nat);
        }
        p = p * 2;
        i = i + 1;
    }
    p
}

proof fn lemma_pow2_below_128(k: nat)
    requires
        k < 128,
    ensures
        pow2(k) <= 0x8000_0000_0000_0000_0000_0000_0000_0000,
{
    lemma2_to64();
    lemma2_to64_rest();
    lemma_pow2_adds(63, 64);
    lemma_pow2_adds(32, 32);
    if k < 127 {
        lemma_pow2_strictly_increases(k, 127);
    }
}

proof fn bit_length_by_parts(n: nat, k: nat)
    requires
        n >= pow2(k),
    ensures
        bit_length(n) == k + bit_length(n / pow2(k)),
    decreases k,
{
    lemma_pow2_pos(k);
    if k == 0 {
        lemma2_to64();
        assert(n / 1 == n);
    } else {
        lemma_pow2_unfold(k);
        let j = (k - 1) as nat;
        lemma_pow2_pos(j);
        assert(n / 2 >= pow2(j));
        bit_length_by_parts(n / 2, j);
        lemma_div_denominator(n as int, 2, pow2(j) as int);
        assert(n / pow2(k) == (n / 2) / pow2(j));
    }
}

/// A number of fewer bits than another takes at most as many.
pub proof fn bit_length_at_most(n: nat, k: nat)
    requires
        n < pow2(k),
    ensures
        bit_length(n) <= k,
{
    if n > 0 {
        bit_length_bounds(n);
        let b = bit_length(n);
        if b > k && b - 1 > k {
            lemma_pow2_strictly_increases(k, (b - 1) as nat);
        }
    }
}

/// Takes `k` low bits off a number that has more than `k` bits.
fn shed(x: u128, k: u32, p: u128) -> (r: (u128, u32))
    requires
        p == pow2(k as nat),
        p <= 0x1_0000_0000_0000_0000,
        x < p * p,
        k <= 64,
    ensures
        bit_length(x as nat) == r.1 + bit_length(r.0 as nat),
        r.0 < p,
        r.1 <= k,
{
    proof {
        lemma_pow2_pos(k as nat);
    }
    if x >= p {
        proof {
            bit_length_by_parts(x as nat, k as nat);
            assert(x / p < p) by (nonlinear_arith)
                requires
                    x < p * p,
                    p > 0,
            ;
        }
        (x / p, k)
    } else {
        (x, 0)
    }
}

/// How many bits a number takes.
fn length_in_bits(n: u128) -> (r: u32)
    ensures
        r == bit_length(n as nat),
        r <= 128,
{
    proof {
        lemma2_to64();
        lemma_pow2_adds(32, 32);
        lemma_pow2_adds(64, 64);
        bit_length_at_most(n as nat, 128);
    }
    let a: (u128, u32) = shed(n, 64, 0x1_0000_0000_0000_0000);
    let b: (u128, u32) = shed(a.0, 32, 0x1_0000_0000);
    let c: (u128, u32) = shed(b.0, 16, 0x1_0000);
    let d: (u128, u32) = shed(c.0, 8, 0x100);
    let e: (u128, u32) = shed(d.0, 4, 0x10);
    let f: (u128, u32) = shed(e.0, 2, 4);
    let g: (u128, u32) = shed(f.0, 1, 2);
    proof {
        assert(bit_length(1) == 1 + bit_length(0));
        assert(bit_length(0) == 0);
    }
    a.1 + b.1 + c.1 + d.1 + e.1 + f.1 + g.1 + (g.0 as u32)
}

/// The pattern of the number nearest to `n * 2^e`.
fn round_to(w: Width, n: u128, more: bool, e: i32) -> (r: u64)
    requires
        n < 0x8000_0000_0000_0000_0000_0000_0000_0000,
        more ==> n >= pow2(fraction_bits(w) + 2),
        -10_000 <= e <= 10_000,
    ensures
        r == nearest(w, n as nat, more, e as int),
        r <= infinity(w),
{
    if n == 0 {
        return 0;
    }
    let frac: i32 = match w {
        Width::Single => 23,
        Width::Double => 52,
    };
    let low: i32 = match w {
        Width::Single => -149,
        Width::Double => -1074,
    };
    let inf: u64 = match w {
        Width::Single => 0x7F80_0000,
        Width::Double => 0x7FF0_0000_0000_0000,
    };
    let unit: u64 = match w {
        Width::Single => 0x80_0000,
        Width::Double => 0x10_0000_0000_0000,
    };
    proof {
        lemma2_to64();
        lemma2_to64_rest();
        bit_length_bounds(n as nat);
        lemma_pow2_below_128(127);
        lemma_pow2_adds(63, 64);
        lemma_pow2_adds(32, 32);
    }
    let len: i32 = length_in_bits(n) as i32;
    let by_length: i32 = len - (frac + 1);
    let by_exponent: i32 = low - e;
    let s: i32 = if by_length >= by_exponent {
        by_length
    } else {
        by_exponent
    };
    let ghost gs = dropped(w, n as nat, e as int);
    assert(s == gs);
    let m: u64 = if s <= 0 {
        let up: u32 = (-s) as u32;
        proof {
            // n takes len bits, and len + up is at most frac + 1.
            let total = (len + up) as nat;
            assert(total <= frac + 1);
            lemma_pow2_adds(len as nat, up as nat);
            if total < frac + 1 {
                lemma_pow2_strictly_increases(total, (frac + 1) as nat);
            }
            assert(n * pow2(up as nat) < pow2(len as nat) * pow2(up as nat)) by (nonlinear_arith)
                requires
                    n < pow2(len as nat),
                    pow2(up as nat) > 0,
            {
                lemma_pow2_pos(up as nat);
            }
        }
        let p: u128 = power(up);
        let shifted: u128 = n * p;
        shifted as u64
    } else if s >= 128 {
        proof {
            lemma_pow2_pos(s as nat);
            if s > 128 {
                lemma_pow2_strictly_increases(127, (s - 1) as nat);
            }
            lemma_pow2_strictly_increases((s - 1) as nat, s as nat);
            lemma_small_mod(n as nat, pow2(s as nat));
            lemma_basic_div(n as int, pow2(s as nat) as int);
        }
        0
    } else {
        let p: u128 = power(s as u32);
        proof {
            lemma_pow2_pos(s as nat);
        }
        let q: u128 = n / p;
        let r: u128 = n % p;
        let half: u128 = p / 2;
        proof {
            lemma_pow2_unfold(s as nat);
            lemma_pow2_pos((s - 1) as nat);
            assert(half == pow2((s - 1) as nat));
            // n takes len bits and s of them go.
            lemma_pow2_pos(s as nat);
            let keep = (frac + 1) as nat;
            lemma_pow2_adds(keep, s as nat);
            if len < keep + s {
                lemma_pow2_strictly_increases(len as nat, keep + s as nat);
            }
            assert(q < pow2(keep)) by {
                if q >= pow2(keep) {
                    lemma_fundamental_div_mod(n as int, p as int);
                    assert(p * q >= p * pow2(keep)) by (nonlinear_arith)
                        requires
                            q >= pow2(keep),
                            p >= 0,
                    ;
                    assert(p * pow2(keep) == pow2(keep) * p) by (nonlinear_arith);
                }
            }
        }
        if r > half || (r == half && (more || q % 2 == 1)) {
            (q + 1) as u64
        } else {
            q as u64
        }
    };
    assert(m == scaled(n as nat, gs, more));
    assert(m <= 2 * unit);
    let k: i32 = e + s - low;
    assert(k >= 0);
    let top: u64 = inf / unit;
    if k as u64 >= top {
        proof {
            let kk = k as int;
            let uu = unit as int;
            assert(kk * uu >= (top as int) * uu) by (nonlinear_arith)
                requires
                    kk >= top as int,
                    uu > 0,
            ;
        }
        return inf;
    }
    assert((k as u64) * unit <= 2046 * 0x10_0000_0000_0000) by (nonlinear_arith)
        requires
            k as u64 <= 2046,
            unit <= 0x10_0000_0000_0000,
    ;
    let pattern: u64 = m + (k as u64) * unit;
    if pattern < inf {
        pattern
    } else {
        inf
    }
}

/// A quiet NaN.
pub open spec fn not_a_number(w: Width) -> u64 {
    match w {
        Width::Single => 0x7FC0_0000,
        Width::Double => 0x7FF8_0000_0000_0000,
    }
}

/// A pattern of the format.
pub open spec fn valid(w: Width, a: u64) -> bool {
    a < 2 * sign_weight(w)
}

/// Whether the sign bit is set.
pub open spec fn negative(w: Width, a: u64) -> bool {
    a >= sign_weight(w)
}

/// The pattern without its sign.
pub open spec fn unsigned(w: Width, a: u64) -> int {
    if negative(w, a) {
        a - sign_weight(w)
    } else {
        a as int
    }
}

/// Whether a pattern is a NaN.
pub open spec fn nan(w: Width, a: u64) -> bool {
    unsigned(w, a) > infinity(w)
}

/// Whether a pattern is an infinity.
pub open spec fn infinite(w: Width, a: u64) -> bool {
    unsigned(w, a) == infinity(w)
}

/// Whether a pattern is a zero.
pub open spec fn zero(w: Width, a: u64) -> bool {
    unsigned(w, a) == 0
}

/// The significand: a finite number is `significand * 2^exponent`.
pub open spec fn significand(w: Width, a: u64) -> nat {
    let unit = pow2(fraction_bits(w));
    let m = unsigned(w, a) as nat;
    if m / unit == 0 {
        m % unit
    } else {
        m % unit + unit
    }
}

/// The exponent of the last place of the significand.
pub open spec fn exponent(w: Width, a: u64) -> int {
    let unit = pow2(fraction_bits(w));
    let m = unsigned(w, a) as nat;
    if m / unit == 0 {
        lowest(w)
    } else {
        m / unit - 1 + lowest(w)
    }
}

/// A magnitude with a sign.
pub open spec fn signed(w: Width, minus: bool, m: int) -> u64 {
    if minus {
        (m + sign_weight(w)) as u64
    } else {
        m as u64
    }
}

/// The product of two numbers.
pub open spec fn product(w: Width, a: u64, b: u64) -> u64 {
    let minus = negative(w, a) != negative(w, b);
    if nan(w, a) || nan(w, b) {
        not_a_number(w)
    } else if infinite(w, a) || infinite(w, b) {
        if zero(w, a) || zero(w, b) {
            not_a_number(w)
        } else {
            signed(w, minus, infinity(w))
        }
    } else {
        signed(
            w,
            minus,
            nearest(
                w,
                significand(w, a) * significand(w, b),
                false,
                exponent(w, a) + exponent(w, b),
            ),
        )
    }
}

/// A finite number in units of `2^e`, where `e` is at most its exponent.
pub open spec fn in_units(w: Width, a: u64, e: int) -> int {
    let n = significand(w, a) * pow2((exponent(w, a) - e) as nat);
    if negative(w, a) {
        -n
    } else {
        n as int
    }
}

/// The smaller of two exponents.
pub open spec fn common_exponent(w: Width, a: u64, b: u64) -> int {
    if exponent(w, a) <= exponent(w, b) {
        exponent(w, a)
    } else {
        exponent(w, b)
    }
}

/// The number nearest to `n * 2^e`; a zero has the sign `minus`.
pub open spec fn from_units(w: Width, n: int, minus: bool, e: int) -> u64 {
    if n == 0 {
        signed(w, minus, 0)
    } else if n < 0 {
        signed(w, true, nearest(w, (-n) as nat, false, e))
    } else {
        signed(w, false, nearest(w, n as nat, false, e))
    }
}

/// The sum of two numbers.
pub open spec fn sum(w: Width, a: u64, b: u64) -> u64 {
    if nan(w, a) || nan(w, b) {
        not_a_number(w)
    } else if infinite(w, a) {
        if infinite(w, b) && negative(w, a) != negative(w, b) {
            not_a_number(w)
        } else {
            a
        }
    } else if infinite(w, b) {
        b
    } else {
        let e = common_exponent(w, a, b);
        from_units(
            w,
            in_units(w, a, e) + in_units(w, b, e),
            negative(w, a) && negative(w, b),
            e,
        )
    }
}

/// A number with the other sign.
pub open spec fn opposite(w: Width, a: u64) -> u64 {
    if negative(w, a) {
        (a - sign_weight(w)) as u64
    } else {
        (a + sign_weight(w)) as u64
    }
}

/// The quotient of two numbers.
pub open spec fn quotient(w: Width, a: u64, b: u64) -> u64 {
    let minus = negative(w, a) != negative(w, b);
    if nan(w, a) || nan(w, b) || (infinite(w, a) && infinite(w, b)) || (zero(w, a) && zero(w, b)) {
        not_a_number(w)
    } else if infinite(w, a) || zero(w, b) {
        signed(w, minus, infinity(w))
    } else if infinite(w, b) {
        signed(w, minus, 0)
    } else {
        let n = significand(w, a) * pow2(128);
        let d = significand(w, b);
        signed(
            w,
            minus,
            nearest(w, n / d, n % d != 0, exponent(w, a) - exponent(w, b) - 128),
        )
    }
}

/// Takes a pattern apart: sign, significand and exponent.
fn unpack(w: Width, a: u64) -> (r: (bool, u64, i32))
    requires
        valid(w, a),
        unsigned(w, a) < infinity(w),
    ensures
        r.0 == negative(w, a),
        r.1 == significand(w, a),
        r.2 == exponent(w, a),
        r.1 < 2 * pow2(fraction_bits(w)),
        lowest(w) <= r.2 <= 971,
        r.2 > lowest(w) ==> r.1 >= pow2(fraction_bits(w)),
        (r.1 == 0) == zero(w, a),
{
    proof {
        lemma2_to64();
        lemma2_to64_rest();
    }
    let sign: u64 = match w {
        Width::Single => 0x8000_0000,
        Width::Double => 0x8000_0000_0000_0000,
    };
    let unit: u64 = match w {
        Width::Single => 0x80_0000,
        Width::Double => 0x10_0000_0000_0000,
    };
    let low: i32 = match w {
        Width::Single => -149,
        Width::Double => -1074,
    };
    let minus: bool = a >= sign;
    let m: u64 = if minus {
        a - sign
    } else {
        a
    };
    let e: u64 = m / unit;
    let f: u64 = m % unit;
    assert(e <= 2046) by {
        match w {
            Width::Single => {
                assert(m < 0x7F80_0000);
                assert(e <= 0xFE);
            },
            Width::Double => {
                assert(m < 0x7FF0_0000_0000_0000);
                assert(e <= 2046);
            },
        }
    }
    proof {
        match w {
            Width::Single => {
                assert(e <= 0xFE);
            },
            Width::Double => {},
        }
    }
    if e == 0 {
        (minus, f, low)
    } else {
        (minus, f + unit, e as i32 - 1 + low)
    }
}

/// Puts a sign on a magnitude.
fn with_sign(w: Width, minus: bool, m: u64) -> (r: u64)
    requires
        m < sign_weight(w),
    ensures
        r == signed(w, minus, m as int),
        valid(w, r),
{
    let sign: u64 = match w {
        Width::Single => 0x8000_0000,
        Width::Double => 0x8000_0000_0000_0000,
    };
    if minus {
        m + sign
    } else {
        m
    }
}

/// A pattern without its sign.
fn magnitude_of(w: Width, a: u64) -> (r: u64)
    requires
        valid(w, a),
    ensures
        r == unsigned(w, a),
        r < sign_weight(w),
{
    let sign: u64 = match w {
        Width::Single => 0x8000_0000,
        Width::Double => 0x8000_0000_0000_0000,
    };
    if a >= sign {
        a - sign
    } else {
        a
    }
}

/// Whether the sign bit is set.
fn is_negative(w: Width, a: u64) -> (r: bool)
    ensures
        r == negative(w, a),
{
    match w {
        Width::Single => a >= 0x8000_0000,
        Width::Double => a >= 0x8000_0000_0000_0000,
    }
}

/// The pattern of infinity.
fn infinity_of(w: Width) -> (r: u64)
    ensures
        r == infinity(w),
        r < sign_weight(w),
{
    match w {
        Width::Single => 0x7F80_0000,
        Width::Double => 0x7FF0_0000_0000_0000,
    }
}

/// A quiet NaN.
fn nan_of(w: Width) -> (r: u64)
    ensures
        r == not_a_number(w),
        valid(w, r),
{
    match w {
        Width::Single => 0x7FC0_0000,
        Width::Double => 0x7FF8_0000_0000_0000,
    }
}

/// Multiplies two numbers.
pub fn multiply(w: Width, a: u64, b: u64) -> (r: u64)
    requires
        valid(w, a),
        valid(w, b),
    ensures
        r == product(w, a, b),
        valid(w, r),
{
    let ma: u64 = magnitude_of(w, a);
    let mb: u64 = magnitude_of(w, b);
    let inf: u64 = infinity_of(w);
    let minus: bool = is_negative(w, a) != is_negative(w, b);
    if ma > inf || mb > inf {
        return nan_of(w);
    }
    if ma == inf || mb == inf {
        if ma == 0 || mb == 0 {
            return nan_of(w);
        }
        return with_sign(w, minus, inf);
    }
    let ua: (bool, u64, i32) = unpack(w, a);
    let ub: (bool, u64, i32) = unpack(w, b);
    proof {
        lemma2_to64();
        lemma2_to64_rest();
        let x = ua.1 as int;
        let y = ub.1 as int;
        assert(x * y < 0x20_0000_0000_0000 * 0x20_0000_0000_0000) by (nonlinear_arith)
            requires
                0 <= x < 0x20_0000_0000_0000,
                0 <= y < 0x20_0000_0000_0000,
        ;
    }
    let n: u128 = (ua.1 as u128) * (ub.1 as u128);
    let m: u64 = round_to(w, n, false, ua.2 + ub.2);
    with_sign(w, minus, m)
}

/// Flips the sign of a number.
pub fn negate(w: Width, a: u64) -> (r: u64)
    requires
        valid(w, a),
    ensures
        r == opposite(w, a),
        valid(w, r),
{
    let sign: u64 = match w {
        Width::Single => 0x8000_0000,
        Width::Double => 0x8000_0000_0000_0000,
    };
    if a >= sign {
        a - sign
    } else {
        a + sign
    }
}

/// Adds two finite numbers of which the first has the larger exponent.
fn add_ordered(w: Width, hi: (bool, u64, i32), lo: (bool, u64, i32)) -> (r: u64)
    requires
        lowest(w) <= lo.2 <= hi.2 <= 971,
        hi.1 < 2 * pow2(fraction_bits(w)),
        lo.1 < 2 * pow2(fraction_bits(w)),
        hi.2 > lowest(w) ==> hi.1 >= pow2(fraction_bits(w)),
    ensures
        ({
            let big = hi.1 * pow2((hi.2 - lo.2) as nat);
            let x = if hi.0 {
                -big
            } else {
                big as int
            };
            let y = if lo.0 {
                -(lo.1 as int)
            } else {
                lo.1 as int
            };
            r == from_units(w, x + y, hi.0 && lo.0, lo.2 as int)
        }),
        valid(w, r),
{
    proof {
        lemma2_to64();
        lemma2_to64_rest();
    }
    let d: i32 = hi.2 - lo.2;
    let ghost big = hi.1 * pow2(d as nat);
    if d <= 64 {
        let p: u128 = power(d as u32);
        proof {
            lemma_pow2_pos(d as nat);
            lemma_pow2_adds(32, 32);
            if d < 64 {
                lemma_pow2_strictly_increases(d as nat, 64);
            }
            let x = hi.1 as int;
            let y = p as int;
            assert(0 <= x * y <= 0x20_0000_0000_0000 * 0x1_0000_0000_0000_0000)
                by (nonlinear_arith)
                requires
                    0 <= x < 0x20_0000_0000_0000,
                    0 <= y <= 0x1_0000_0000_0000_0000,
            ;
        }
        let a: u128 = (hi.1 as u128) * p;
        let b: u128 = lo.1 as u128;
        if hi.0 == lo.0 {
            let m: u64 = round_to(w, a + b, false, lo.2);
            with_sign(w, hi.0, m)
        } else if a >= b {
            if a == b {
                return with_sign(w, false, 0);
            }
            let m: u64 = round_to(w, a - b, false, lo.2);
            with_sign(w, hi.0, m)
        } else {
            let m: u64 = round_to(w, b - a, false, lo.2);
            with_sign(w, lo.0, m)
        }
    } else {
        let ghost t = (d - 3) as nat;
        let ghost f = fraction_bits(w);
        proof {
            // The smaller number is below one unit of the larger one cut to three more bits.
            lemma_pow2_adds(3, t);
            assert(3 + t == d as nat);
            assert(big == (hi.1 * 8) * pow2(t)) by (nonlinear_arith)
                requires
                    big == hi.1 * pow2(d as nat),
                    pow2(d as nat) == 8 * pow2(t),
            ;
            if t > 54 {
                lemma_pow2_strictly_increases(54, t);
            }
            lemma_pow2_pos(t);
            assert(pow2(f + 2) == 4 * pow2(f)) by {
                lemma_pow2_adds(2, f);
            }
            assert(lo.1 < pow2(t));
        }
        if hi.0 == lo.0 || lo.1 == 0 {
            let n: u128 = (hi.1 as u128) * 8;
            proof {
                nearest_of_cut(w, n as nat, t, lo.1 as nat, false, lo.2 as int);
                assert(n * pow2(t) + lo.1 > 0) by (nonlinear_arith)
                    requires
                        n > 0,
                        pow2(t) > 0,
                        lo.1 >= 0,
                ;
            }
            let m: u64 = round_to(w, n, lo.1 > 0, hi.2 - 3);
            with_sign(w, hi.0, m)
        } else {
            let n: u128 = (hi.1 as u128) * 8 - 1;
            proof {
                let r = (pow2(t) - lo.1) as nat;
                assert(n * pow2(t) + r == big - lo.1) by (nonlinear_arith)
                    requires
                        n == hi.1 * 8 - 1,
                        r == pow2(t) - lo.1,
                        big == (hi.1 * 8) * pow2(t),
                ;
                nearest_of_cut(w, n as nat, t, r, false, lo.2 as int);
                assert(n * pow2(t) + r > 0) by (nonlinear_arith)
                    requires
                        n > 0,
                        pow2(t) > 0,
                        r >= 0,
                ;
            }
            let m: u64 = round_to(w, n, true, hi.2 - 3);
            with_sign(w, hi.0, m)
        }
    }
}

/// Adds two numbers.
pub fn add_up(w: Width, a: u64, b: u64) -> (r: u64)
    requires
        valid(w, a),
        valid(w, b),
    ensures
        r == sum(w, a, b),
        valid(w, r),
{
    let ma: u64 = magnitude_of(w, a);
    let mb: u64 = magnitude_of(w, b);
    let inf: u64 = infinity_of(w);
    if ma > inf || mb > inf {
        return nan_of(w);
    }
    if ma == inf {
        if mb == inf && is_negative(w, a) != is_negative(w, b) {
            return nan_of(w);
        }
        return a;
    }
    if mb == inf {
        return b;
    }
    let ua: (bool, u64, i32) = unpack(w, a);
    let ub: (bool, u64, i32) = unpack(w, b);
    proof {
        lemma2_to64();
        assert(pow2(0) == 1);
        assert(significand(w, a) * 1 == significand(w, a));
        assert(significand(w, b) * 1 == significand(w, b));
    }
    if ua.2 >= ub.2 {
        add_ordered(w, ua, ub)
    } else {
        add_ordered(w, ub, ua)
    }
}

/// A quotient to 64 places, of a numerator that fills the format, rounds as one to 128
/// places does.
proof fn quotient_of_cut(w: Width, s: nat, d: nat, j: nat, e: int)
    requires
        j <= 52,
        0 < d < 2 * pow2(fraction_bits(w)),
        s * pow2(j) >= pow2(fraction_bits(w)),
    ensures
        ({
            let num = (s * pow2(j)) * pow2(64);
            let whole = s * pow2(128);
            &&& num / d >= pow2(fraction_bits(w) + 2)
            &&& nearest(w, whole / d, whole % d != 0, e) == nearest(
                w,
                num / d,
                num % d != 0,
                e + 64 - j,
            )
        }),
{
    let f = fraction_bits(w);
    let num = (s * pow2(j)) * pow2(64);
    let whole = s * pow2(128);
    let t = (64 - j) as nat;
    let pt = pow2(t);
    let q = num / d;
    let rem = num % d;
    lemma_pow2_pos(t);
    lemma2_to64();
    lemma2_to64_rest();
    lemma_pow2_adds(32, 32);
    lemma_pow2_adds(64, 64);
    lemma_pow2_adds(j, t);
    let pj = pow2(j);
    let p64 = pow2(64);
    assert(s * (p64 * p64) == ((s * pj) * p64) * pt) by (nonlinear_arith)
        requires
            pj * pt == p64,
    ;
    assert(whole == num * pt);
    lemma_fundamental_div_mod(num as int, d as int);
    let r = (rem * pt) / d;
    let more = (rem * pt) % d;
    lemma_fundamental_div_mod((rem * pt) as int, d as int);
    assert(whole == (q * pt + r) * d + more) by (nonlinear_arith)
        requires
            whole == num * pt,
            num == d * q + rem,
            rem * pt == d * r + more,
    ;
    lemma_fundamental_div_mod_converse(whole as int, d as int, (q * pt + r) as int, more as int);
    assert(r < pt) by (nonlinear_arith)
        requires
            rem * pt == d * r + more,
            rem < d,
            more >= 0,
            pt > 0,
            d > 0,
    ;
    if rem == 0 {
        assert(rem * pt == 0) by (nonlinear_arith)
            requires
                rem == 0,
        ;
        lemma_basic_div(0, d as int);
        lemma_small_mod(0, d);
    } else {
        assert(rem * pt > 0) by (nonlinear_arith)
            requires
                rem > 0,
                pt > 0,
        ;
        if r == 0 && more == 0 {
            assert(d * r == 0) by (nonlinear_arith)
                requires
                    r == 0,
            ;
        }
    }
    assert((more != 0 || r > 0) == (rem != 0));
    let u = pow2(f);
    lemma_pow2_pos(f);
    assert(num >= u * p64) by (nonlinear_arith)
        requires
            num == (s * pj) * p64,
            s * pj >= u,
    ;
    assert(q >= 0x8000_0000_0000_0000) by (nonlinear_arith)
        requires
            num == d * q + rem,
            num >= u * p64,
            p64 == 0x1_0000_0000_0000_0000,
            rem < d,
            d < 2 * u,
            u > 0,
            q >= 0,
    ;
    lemma_pow2_strictly_increases(f + 2, 63);
    nearest_of_cut(w, q, t, r, more != 0, e);
}

/// A significand moved up until it fills the format.
proof fn lifted_fills(w: Width, s: nat, j: nat)
    requires
        0 < s < 2 * pow2(fraction_bits(w)),
        j == fraction_bits(w) + 1 - bit_length(s),
    ensures
        pow2(fraction_bits(w)) <= s * pow2(j) < 2 * pow2(fraction_bits(w)),
{
    let f = fraction_bits(w);
    let len = bit_length(s);
    bit_length_bounds(s);
    lemma_pow2_unfold(f + 1);
    bit_length_at_most(s, f + 1);
    lemma_pow2_adds((len - 1) as nat, j);
    lemma_pow2_adds(len, j);
    lemma_pow2_pos(j);
    let y = pow2(j);
    let lo = pow2((len - 1) as nat);
    let hi = pow2(len);
    assert(lo * y <= s * y < hi * y) by (nonlinear_arith)
        requires
            lo <= s < hi,
            y > 0,
    ;
    assert((len - 1) as nat + j == f);
    assert(len + j == f + 1);
}

/// Divides two significands.
fn divide_significands(w: Width, a: u64, b: u64, e: i32) -> (r: u64)
    requires
        0 < a < 2 * pow2(fraction_bits(w)),
        0 < b < 2 * pow2(fraction_bits(w)),
        -3000 <= e <= 3000,
    ensures
        r == nearest(w, (a * pow2(128)) as nat / b as nat, (a * pow2(128)) as nat % b as nat != 0, e - 128),
        r <= infinity(w),
{
    let frac: u32 = match w {
        Width::Single => 23,
        Width::Double => 52,
    };
    let len: u32 = length_in_bits(a as u128);
    proof {
        lemma2_to64();
        lemma2_to64_rest();
        lemma_pow2_adds(32, 32);
        lemma_pow2_unfold(fraction_bits(w) + 1);
        bit_length_at_most(a as nat, fraction_bits(w) + 1);
        bit_length_bounds(a as nat);
    }
    let j: u32 = frac + 1 - len;
    let p: u128 = power(j);
    proof {
        lifted_fills(w, a as nat, j as nat);
        assert(a * pow2(j as nat) < 0x20_0000_0000_0000);
        quotient_of_cut(w, a as nat, b as nat, j as nat, e - 128);
    }
    let lifted: u128 = (a as u128) * p;
    let num: u128 = lifted * 0x1_0000_0000_0000_0000;
    let den: u128 = b as u128;
    let q: u128 = num / den;
    let rem: u128 = num % den;
    assert(q <= num) by (nonlinear_arith)
        requires
            q == num / den,
            den >= 1,
    ;
    round_to(w, q, rem != 0, e - (j as i32) - 64)
}

/// Divides two numbers.
pub fn divide(w: Width, a: u64, b: u64) -> (r: u64)
    requires
        valid(w, a),
        valid(w, b),
    ensures
        r == quotient(w, a, b),
        valid(w, r),
{
    let ma: u64 = magnitude_of(w, a);
    let mb: u64 = magnitude_of(w, b);
    let inf: u64 = infinity_of(w);
    let minus: bool = is_negative(w, a) != is_negative(w, b);
    if ma > inf || mb > inf || (ma == inf && mb == inf) || (ma == 0 && mb == 0) {
        return nan_of(w);
    }
    if ma == inf || mb == 0 {
        return with_sign(w, minus, inf);
    }
    if mb == inf {
        return with_sign(w, minus, 0);
    }
    let ua: (bool, u64, i32) = unpack(w, a);
    let ub: (bool, u64, i32) = unpack(w, b);
    if ma == 0 {
        proof {
            let d = significand(w, b);
            lemma_mul_basics(pow2(128) as int);
            assert(significand(w, a) * pow2(128) == 0);
            lemma_basic_div(0, d as int);
            lemma_small_mod(0, d);
        }
        return with_sign(w, minus, 0);
    }
    let m: u64 = divide_significands(w, ua.1, ub.1, ua.2 - ub.2);
    with_sign(w, minus, m)
}

/// The whole part of a square root.
pub open spec fn root_floor(n: nat) -> nat {
    choose|r: nat| #[trigger] (r * r) <= n < (r + 1) * (r + 1)
}

proof fn root_floor_is(n: nat, r: nat)
    requires
        r * r <= n < (r + 1) * (r + 1),
    ensures
        root_floor(n) == r,
{
    let k = root_floor(n);
    assert(k * k <= n < (k + 1) * (k + 1));
    if k < r {
        assert((k + 1) * (k + 1) <= r * r) by (nonlinear_arith)
            requires
                k + 1 <= r,
                k >= 0,
        ;
    } else if r < k {
        assert((r + 1) * (r + 1) <= k * k) by (nonlinear_arith)
            requires
                r + 1 <= k,
                r >= 0,
        ;
    }
}

/// The square root of a number.
pub open spec fn square_root(w: Width, a: u64) -> u64 {
    if nan(w, a) {
        not_a_number(w)
    } else if zero(w, a) {
        a
    } else if negative(w, a) {
        not_a_number(w)
    } else if infinite(w, a) {
        a
    } else {
        let e = exponent(w, a);
        let s = if e % 2 == 0 {
            significand(w, a)
        } else {
            2 * significand(w, a)
        };
        let n = s * pow2(128);
        let r = root_floor(n);
        signed(w, false, nearest(w, r, r * r != n, e / 2 - 64))
    }
}

/// The whole part of the square root of a number of at most 120 bits.
fn whole_root(n: u128) -> (r: u128)
    requires
        n < 0x100_0000_0000_0000_0000_0000_0000_0000,
    ensures
        r * r <= n < (r + 1) * (r + 1),
        r < 0x1000_0000_0000_0000,
{
    let mut r: u128 = 0;
    let mut b: u128 = 0x800_0000_0000_0000;
    let mut k: u32 = 60;
    assert((0x1000_0000_0000_0000 as int) * 0x1000_0000_0000_0000
        == 0x100_0000_0000_0000_0000_0000_0000_0000) by (nonlinear_arith);
    proof {
        lemma2_to64();
        lemma2_to64_rest();
    }
    while k > 0
        invariant
            k <= 60,
            k > 0 ==> b == pow2((k - 1) as nat),
            r * r <= n,
            n < (r + pow2(k as nat)) * (r + pow2(k as nat)),
            r + pow2(k as nat) <= 0x1000_0000_0000_0000,
        decreases k,
    {
        proof {
            lemma_pow2_unfold(k as nat);
            lemma_pow2_pos((k - 1) as nat);
        }
        let c: u128 = r + b;
        assert(0 <= c * c <= 0x1000_0000_0000_0000 * 0x1000_0000_0000_0000) by (nonlinear_arith)
            requires
                0 <= c <= 0x1000_0000_0000_0000,
        ;
        if c * c <= n {
            r = c;
        }
        k = k - 1;
        if k > 0 {
            proof {
                lemma_pow2_unfold(k as nat);
            }
            b = b / 2;
        }
    }
    assert(pow2(0) == 1);
    r
}

/// A root to 32 places, of a number that about fills the format, rounds as one to 64
/// places does.
proof fn root_of_cut(w: Width, s: nat, i: nat, r: nat, e: int)
    requires
        i <= 32,
        r * r <= (s * pow2(2 * i)) * pow2(64) < (r + 1) * (r + 1),
        r >= pow2(fraction_bits(w) + 2),
    ensures
        ({
            let n = s * pow2(128);
            let whole = root_floor(n);
            nearest(w, whole, whole * whole != n, e) == nearest(
                w,
                r,
                r * r != (s * pow2(2 * i)) * pow2(64),
                e + 32 - i,
            )
        }),
{
    let t = (32 - i) as nat;
    let x = (s * pow2(2 * i)) * pow2(64);
    let n = s * pow2(128);
    let p = pow2(t);
    lemma_pow2_pos(t);
    lemma_pow2_adds(t, t);
    lemma_pow2_adds(2 * i, t + t);
    lemma_pow2_adds(64, 64);
    assert(2 * i + (t + t) == 64);
    let a = pow2(2 * i);
    let q = pow2(64);
    assert(n == x * (p * p)) by (nonlinear_arith)
        requires
            n == s * (q * q),
            x == (s * a) * q,
            a * (p * p) == q,
    ;
    let low = r * p;
    assert(low * low <= n) by (nonlinear_arith)
        requires
            low == r * p,
            r * r <= x,
            n == x * (p * p),
            p > 0,
    ;
    let high = (r + 1) * p;
    assert(n < high * high) by (nonlinear_arith)
        requires
            high == (r + 1) * p,
            x < (r + 1) * (r + 1),
            n == x * (p * p),
            p > 0,
    ;
    root_exists(n);
    let whole = root_floor(n);
    assert(whole * whole <= n < (whole + 1) * (whole + 1));
    if whole < low {
        assert((whole + 1) * (whole + 1) <= low * low) by (nonlinear_arith)
            requires
                whole + 1 <= low,
                whole >= 0,
        ;
    }
    if whole >= high {
        assert(high * high <= whole * whole) by (nonlinear_arith)
            requires
                high <= whole,
                high >= 0,
        ;
    }
    assert(high == low + p) by (nonlinear_arith)
        requires
            high == (r + 1) * p,
            low == r * p,
    ;
    let rest = (whole - low) as nat;
    assert(rest < p);
    let more = whole * whole != n;
    if r * r == x {
        assert(low * low == n) by (nonlinear_arith)
            requires
                low == r * p,
                r * r == x,
                n == x * (p * p),
        ;
        assert(n < (low + 1) * (low + 1)) by (nonlinear_arith)
            requires
                low * low == n,
                low >= 0,
        ;
        root_floor_is(n, low);
    } else if rest == 0 && !more {
        assert(low * low == (r * r) * (p * p)) by (nonlinear_arith)
            requires
                low == r * p,
        ;
        assert(r * r == x) by (nonlinear_arith)
            requires
                (r * r) * (p * p) == x * (p * p),
                p > 0,
        ;
    }
    assert((more || rest > 0) == (r * r != x));
    nearest_of_cut(w, r, t, rest, more, e);
}

/// Every number has a whole root.
proof fn root_exists(n: nat)
    ensures
        exists|r: nat| #[trigger] (r * r) <= n < (r + 1) * (r + 1),
    decreases n,
{
    if n == 0 {
        assert((0nat * 0nat) <= n < (0nat + 1) * (0nat + 1)) by (nonlinear_arith)
            requires
                n == 0,
        ;
    } else {
        root_exists((n - 1) as nat);
        let r = choose|r: nat| #[trigger] (r * r) <= n - 1 < (r + 1) * (r + 1);
        if n < (r + 1) * (r + 1) {
            assert((r * r) <= n < (r + 1) * (r + 1));
        } else {
            let k = r + 1;
            assert(n == k * k);
            assert(k * k < (k + 1) * (k + 1)) by (nonlinear_arith)
                requires
                    k >= 0,
            ;
            assert((k * k) <= n < (k + 1) * (k + 1));
        }
    }
}

/// A number of up to two bits more than the format, moved up by an even number of
/// places until it about fills the format.
proof fn root_lifted(w: Width, s: nat, i: nat)
    requires
        0 < s < 4 * pow2(fraction_bits(w)),
        i == (if bit_length(s) >= fraction_bits(w) + 1 {
            0
        } else {
            (fraction_bits(w) + 1 - bit_length(s)) / 2
        }),
    ensures
        pow2((fraction_bits(w) - 1) as nat) <= s * pow2(2 * i) < 4 * pow2(fraction_bits(w)),
{
    let f = fraction_bits(w);
    let len = bit_length(s);
    lemma_pow2_adds(2, f);
    lemma2_to64();
    bit_length_at_most(s, f + 2);
    bit_length_bounds(s);
    let lo = pow2((len - 1) as nat);
    let hi = pow2(len);
    let y = pow2(2 * i);
    lemma_pow2_pos(2 * i);
    lemma_pow2_adds((len - 1) as nat, 2 * i);
    lemma_pow2_adds(len, 2 * i);
    assert(lo * y <= s * y < hi * y) by (nonlinear_arith)
        requires
            lo <= s < hi,
            y > 0,
    ;
    let bottom = (len - 1 + 2 * i) as nat;
    let top = (len + 2 * i) as nat;
    if f - 1 < bottom {
        lemma_pow2_strictly_increases((f - 1) as nat, bottom);
    }
    if top < f + 2 {
        lemma_pow2_strictly_increases(top, f + 2);
    }
}

/// The root of `s * 2^(2 * half)`.
fn root_of_significand(w: Width, s: u64, half: i32) -> (r: u64)
    requires
        0 < s < 4 * pow2(fraction_bits(w)),
        -2000 <= half <= 2000,
    ensures
        ({
            let n = (s * pow2(128)) as nat;
            let root = root_floor(n);
            r == nearest(w, root, root * root != n, half - 64)
        }),
        r <= infinity(w),
{
    let frac: u32 = match w {
        Width::Single => 23,
        Width::Double => 52,
    };
    let len: u32 = length_in_bits(s as u128);
    proof {
        lemma2_to64();
        lemma2_to64_rest();
        lemma_pow2_adds(32, 32);
        bit_length_bounds(s as nat);
    }
    let i: u32 = if len >= frac + 1 {
        0
    } else {
        (frac + 1 - len) / 2
    };
    let p: u128 = power(2 * i);
    proof {
        root_lifted(w, s as nat, i as nat);
        assert(s * pow2((2 * i) as nat) < 0x40_0000_0000_0000);
    }
    let lifted: u128 = (s as u128) * p;
    let num: u128 = lifted * 0x1_0000_0000_0000_0000;
    let r: u128 = whole_root(num);
    proof {
        root_enough(w, r as nat, num as nat);
        root_of_cut(w, s as nat, i as nat, r as nat, half - 64);
    }
    assert(r * r <= 0x1000_0000_0000_0000 * 0x1000_0000_0000_0000) by (nonlinear_arith)
        requires
            0 <= r < 0x1000_0000_0000_0000,
    ;
    let more: bool = r * r != num;
    round_to(w, r, more, half - (i as i32) - 32)
}

/// The number is positive and finite: its root by the significand and the exponent.
fn root_of_positive(w: Width, a: u64) -> (r: u64)
    requires
        valid(w, a),
        !negative(w, a),
        0 < unsigned(w, a) < infinity(w),
    ensures
        r == square_root(w, a),
        r <= infinity(w),
{
    let u: (bool, u64, i32) = unpack(w, a);
    let ghost e = exponent(w, a);
    // The exponent made even; the offset keeps the division away from negative numbers.
    let shifted: i32 = u.2 + 2000;
    let odd: bool = shifted % 2 == 1;
    let half: i32 = shifted / 2 - 1000;
    assert(odd == (e % 2 == 1) && half == e / 2);
    proof {
        lemma2_to64();
        lemma2_to64_rest();
    }
    let s: u64 = if odd {
        u.1 * 2
    } else {
        u.1
    };
    root_of_significand(w, s, half)
}

/// Takes the square root of a number.
pub fn take_root(w: Width, a: u64) -> (r: u64)
    requires
        valid(w, a),
    ensures
        r == square_root(w, a),
        valid(w, r),
{
    let m: u64 = magnitude_of(w, a);
    let inf: u64 = infinity_of(w);
    if m > inf {
        return nan_of(w);
    }
    if m == 0 {
        return a;
    }
    if is_negative(w, a) {
        return nan_of(w);
    }
    if m == inf {
        return a;
    }
    root_of_positive(w, a)
}

proof fn root_enough(w: Width, r: nat, num: nat)
    requires
        num < (r + 1) * (r + 1),
        num >= pow2((fraction_bits(w) - 1) as nat) * 0x1_0000_0000_0000_0000,
    ensures
        r >= pow2(fraction_bits(w) + 2),
{
    let need = pow2(fraction_bits(w) + 2);
    lemma2_to64();
    lemma2_to64_rest();
    if r < need {
        assert((r + 1) * (r + 1) <= need * need) by (nonlinear_arith)
            requires
                r + 1 <= need,
        ;
        match w {
            Width::Single => {
                assert(need == 0x200_0000);
                assert(pow2(22) == 0x40_0000);
                assert(0x200_0000 * 0x200_0000 < 0x40_0000 * 0x1_0000_0000_0000_0000)
                    by (nonlinear_arith);
            },
            Width::Double => {
                assert(need == 0x40_0000_0000_0000);
                assert(pow2(51) == 0x8_0000_0000_0000);
                assert(0x40_0000_0000_0000 * 0x40_0000_0000_0000 < 0x8_0000_0000_0000
                    * 0x1_0000_0000_0000_0000) by (nonlinear_arith);
            },
        }
    }
}

/// The whole part of the magnitude of a finite number.
pub open spec fn whole_part(w: Width, a: u64) -> nat {
    let e = exponent(w, a);
    if e >= 0 {
        significand(w, a) * pow2(e as nat)
    } else {
        significand(w, a) / pow2((-e) as nat)
    }
}

/// Whether a finite number has a fraction.
pub open spec fn fractional(w: Width, a: u64) -> bool {
    let e = exponent(w, a);
    e < 0 && significand(w, a) % pow2((-e) as nat) != 0
}

/// Whether the fraction of a finite number is at least one half.
pub open spec fn half_or_more(w: Width, a: u64) -> bool {
    let e = exponent(w, a);
    e < 0 && 2 * (significand(w, a) % pow2((-e) as nat)) >= pow2((-e) as nat)
}

/// The largest whole number that is not above a finite number.
pub open spec fn floor_value(w: Width, a: u64) -> int {
    let n = whole_part(w, a) as int;
    if !negative(w, a) {
        n
    } else if fractional(w, a) {
        -n - 1
    } else {
        -n
    }
}

/// The smallest whole number that is not below a finite number.
pub open spec fn ceiling_value(w: Width, a: u64) -> int {
    let n = whole_part(w, a) as int;
    if negative(w, a) {
        -n
    } else if fractional(w, a) {
        n + 1
    } else {
        n
    }
}

/// The whole number nearest to a finite number; halves go away from zero.
pub open spec fn round_value(w: Width, a: u64) -> int {
    let n = whole_part(w, a) + (if half_or_more(w, a) {
        1int
    } else {
        0
    });
    if negative(w, a) {
        -n
    } else {
        n
    }
}

/// The 64-bit integer nearest to a whole number.
pub open spec fn saturated(n: int) -> i64 {
    if n < i64::MIN {
        i64::MIN
    } else if n > i64::MAX {
        i64::MAX
    } else {
        n as i64
    }
}

/// A number as a 64-bit integer, where `n` is its whole value if it is finite:
/// infinities go to the ends of the range and NaN to 0.
pub open spec fn integer_of(w: Width, a: u64, n: int) -> i64 {
    if nan(w, a) {
        0
    } else if infinite(w, a) {
        if negative(w, a) {
            i64::MIN
        } else {
            i64::MAX
        }
    } else {
        saturated(n)
    }
}

/// The whole part of a magnitude up to 2^64, and what is known of the fraction.
fn split(w: Width, a: u64) -> (r: (u128, bool, bool))
    requires
        valid(w, a),
        unsigned(w, a) < infinity(w),
    ensures
        r.0 == whole_part(w, a) || (r.0 == 0x1_0000_0000_0000_0000 && whole_part(w, a) >= r.0),
        r.0 <= 0x1_0000_0000_0000_0000,
        r.1 == fractional(w, a),
        r.2 == half_or_more(w, a),
        exponent(w, a) < 0 ==> r.0 == whole_part(w, a) && r.0 <= 2 * pow2(fraction_bits(w)),
{
    let u: (bool, u64, i32) = unpack(w, a);
    proof {
        lemma2_to64();
        lemma2_to64_rest();
        lemma_pow2_adds(32, 32);
    }
    if u.2 >= 0 {
        if u.1 == 0 {
            assert(significand(w, a) * pow2(u.2 as nat) == 0) by (nonlinear_arith)
                requires
                    significand(w, a) == 0,
            ;
            return (0, false, false);
        }
        if u.2 >= 64 {
            proof {
                if u.2 > 64 {
                    lemma_pow2_strictly_increases(64, u.2 as nat);
                }
                let x = u.1 as int;
                let y = pow2(u.2 as nat) as int;
                assert(x * y >= y) by (nonlinear_arith)
                    requires
                        x >= 1,
                        y > 0,
                ;
            }
            return (0x1_0000_0000_0000_0000, false, false);
        }
        let p: u128 = power(u.2 as u32);
        proof {
            if u.2 < 63 {
                lemma_pow2_strictly_increases(u.2 as nat, 63);
            }
            let x = u.1 as int;
            let y = p as int;
            assert(0 <= x * y <= 0x20_0000_0000_0000 * 0x8000_0000_0000_0000) by (nonlinear_arith)
                requires
                    0 <= x < 0x20_0000_0000_0000,
                    0 <= y <= 0x8000_0000_0000_0000,
            ;
        }
        let n: u128 = (u.1 as u128) * p;
        if n > 0x1_0000_0000_0000_0000 {
            (0x1_0000_0000_0000_0000, false, false)
        } else {
            (n, false, false)
        }
    } else {
        let k: u32 = (-u.2) as u32;
        if k >= 64 {
            proof {
                if k > 64 {
                    lemma_pow2_strictly_increases(64, k as nat);
                }
                lemma_small_mod(u.1 as nat, pow2(k as nat));
                lemma_basic_div(u.1 as int, pow2(k as nat) as int);
            }
            return (0, u.1 > 0, false);
        }
        let p: u128 = power(k);
        proof {
            lemma_pow2_pos(k as nat);
            if k < 63 {
                lemma_pow2_strictly_increases(k as nat, 63);
            }
        }
        let q: u128 = (u.1 as u128) / p;
        let f: u128 = (u.1 as u128) % p;
        assert(q <= u.1) by (nonlinear_arith)
            requires
                q == (u.1 as u128) / p,
                p >= 1,
        ;
        (q, f > 0, 2 * f >= p)
    }
}

/// Puts a sign on a whole number of at most 2^64 + 1 and keeps it in range.
fn signed_whole(minus: bool, n: u128) -> (r: i64)
    requires
        n <= 0x1_0000_0000_0000_0001,
    ensures
        r == saturated(
            if minus {
                -(n as int)
            } else {
                n as int
            },
        ),
{
    if minus {
        if n >= 0x8000_0000_0000_0000 {
            i64::MIN
        } else {
            -(n as i64)
        }
    } else if n > 0x7FFF_FFFF_FFFF_FFFF {
        i64::MAX
    } else {
        n as i64
    }
}

/// How a number is turned into a whole one.
#[derive(Clone, Copy, Debug, PartialEq, Eq, Structural)]
pub enum Rounding {
    Down,
    Up,
    Nearest,
}

/// The whole number that stands for a finite number.
pub open spec fn whole_value(w: Width, a: u64, how: Rounding) -> int {
    match how {
        Rounding::Down => floor_value(w, a),
        Rounding::Up => ceiling_value(w, a),
        Rounding::Nearest => round_value(w, a),
    }
}

/// A number as a 64-bit integer: infinities and what is out of range go to the ends of
/// the range, and NaN to 0.
pub fn to_integer(w: Width, a: u64, how: Rounding) -> (r: i64)
    requires
        valid(w, a),
    ensures
        r == integer_of(w, a, whole_value(w, a, how)),
{
    let m: u64 = magnitude_of(w, a);
    let inf: u64 = infinity_of(w);
    let minus: bool = is_negative(w, a);
    if m > inf {
        return 0;
    }
    if m == inf {
        return if minus {
            i64::MIN
        } else {
            i64::MAX
        };
    }
    let parts: (u128, bool, bool) = split(w, a);
    let away: bool = match how {
        Rounding::Down => minus && parts.1,
        Rounding::Up => !minus && parts.1,
        Rounding::Nearest => parts.2,
    };
    let n: u128 = if away {
        parts.0 + 1
    } else {
        parts.0
    };
    signed_whole(minus, n)
}

/// A number rounded to a whole one, in the same format. The sign stays, also on zero.
pub open spec fn whole(w: Width, a: u64, how: Rounding) -> u64 {
    if nan(w, a) {
        not_a_number(w)
    } else if infinite(w, a) || exponent(w, a) >= 0 {
        a
    } else {
        let v = whole_value(w, a, how);
        signed(
            w,
            negative(w, a),
            nearest(
                w,
                (if v < 0 {
                    -v
                } else {
                    v
                }) as nat,
                false,
                0,
            ),
        )
    }
}

/// Rounds a number to a whole one, in the same format.
pub fn to_whole(w: Width, a: u64, how: Rounding) -> (r: u64)
    requires
        valid(w, a),
    ensures
        r == whole(w, a, how),
        valid(w, r),
{
    let m: u64 = magnitude_of(w, a);
    let inf: u64 = infinity_of(w);
    let minus: bool = is_negative(w, a);
    if m > inf {
        return nan_of(w);
    }
    if m == inf {
        return a;
    }
    let u: (bool, u64, i32) = unpack(w, a);
    if u.2 >= 0 {
        return a;
    }
    let parts: (u128, bool, bool) = split(w, a);
    let away: bool = match how {
        Rounding::Down => minus && parts.1,
        Rounding::Up => !minus && parts.1,
        Rounding::Nearest => parts.2,
    };
    let n: u128 = if away {
        parts.0 + 1
    } else {
        parts.0
    };
    let rounded: u64 = round_to(w, n, false, 0);
    with_sign(w, minus, rounded)
}

/// The number nearest to a whole number.
pub open spec fn of_integer(w: Width, n: int) -> u64 {
    from_units(w, n, false, 0)
}

/// The number nearest to an unsigned whole number below 2^127.
pub fn from_unsigned(w: Width, n: u128) -> (r: u64)
    requires
        n < 0x8000_0000_0000_0000_0000_0000_0000_0000,
    ensures
        r == of_integer(w, n as int),
        valid(w, r),
{
    let m: u64 = round_to(w, n, false, 0);
    with_sign(w, false, m)
}

/// The number nearest to a signed whole number.
pub fn from_signed(w: Width, n: i64) -> (r: u64)
    ensures
        r == of_integer(w, n as int),
        valid(w, r),
{
    if n >= 0 {
        from_unsigned(w, n as u128)
    } else {
        let size: u128 = if n == i64::MIN {
            0x8000_0000_0000_0000
        } else {
            (-n) as u128
        };
        let m: u64 = round_to(w, size, false, 0);
        with_sign(w, true, m)
    }
}

/// A number in another format.
pub open spec fn converted(from: Width, to: Width, a: u64) -> u64 {
    if nan(from, a) {
        not_a_number(to)
    } else if infinite(from, a) {
        signed(to, negative(from, a), infinity(to))
    } else {
        signed(
            to,
            negative(from, a),
            nearest(to, significand(from, a), false, exponent(from, a)),
        )
    }
}

/// Brings a number into another format.
pub fn convert(from: Width, to: Width, a: u64) -> (r: u64)
    requires
        valid(from, a),
    ensures
        r == converted(from, to, a),
        valid(to, r),
{
    let m: u64 = magnitude_of(from, a);
    let inf: u64 = infinity_of(from);
    let minus: bool = is_negative(from, a);
    if m > inf {
        return nan_of(to);
    }
    if m == inf {
        return with_sign(to, minus, infinity_of(to));
    }
    let u: (bool, u64, i32) = unpack(from, a);
    proof {
        lemma2_to64();
        lemma2_to64_rest();
    }
    let n: u64 = round_to(to, u.1 as u128, false, u.2);
    with_sign(to, minus, n)
}

/// The place of a number among all others; both zeros have place 0.
pub open spec fn place(w: Width, a: u64) -> int {
    if negative(w, a) {
        -unsigned(w, a)
    } else {
        unsigned(w, a)
    }
}

/// Whether one number is below another. NaN is below nothing.
pub open spec fn less(w: Width, a: u64, b: u64) -> bool {
    !nan(w, a) && !nan(w, b) && place(w, a) < place(w, b)
}

/// Whether two numbers are equal. NaN equals nothing.
pub open spec fn equal(w: Width, a: u64, b: u64) -> bool {
    !nan(w, a) && !nan(w, b) && place(w, a) == place(w, b)
}

/// Whether one number is below another.
pub fn is_less(w: Width, a: u64, b: u64) -> (r: bool)
    requires
        valid(w, a),
        valid(w, b),
    ensures
        r == less(w, a, b),
{
    let ma: u64 = magnitude_of(w, a);
    let mb: u64 = magnitude_of(w, b);
    let inf: u64 = infinity_of(w);
    if ma > inf || mb > inf {
        return false;
    }
    match (is_negative(w, a), is_negative(w, b)) {
        (false, false) => ma < mb,
        (true, true) => mb < ma,
        (true, false) => ma > 0 || mb > 0,
        (false, true) => false,
    }
}

/// Whether two numbers are equal.
pub fn is_equal(w: Width, a: u64, b: u64) -> (r: bool)
    requires
        valid(w, a),
        valid(w, b),
    ensures
        r == equal(w, a, b),
{
    let ma: u64 = magnitude_of(w, a);
    let mb: u64 = magnitude_of(w, b);
    let inf: u64 = infinity_of(w);
    if ma > inf || mb > inf {
        return false;
    }
    ma == mb && (ma == 0 || is_negative(w, a) == is_negative(w, b))
}

/// What is left of a number after taking another away as often as it fits; it has the
/// sign of the first.
pub open spec fn remainder(w: Width, a: u64, b: u64) -> u64 {
    if nan(w, a) || nan(w, b) || infinite(w, a) || zero(w, b) {
        not_a_number(w)
    } else if infinite(w, b) {
        a
    } else {
        let e = common_exponent(w, a, b);
        let n = significand(w, a) * pow2((exponent(w, a) - e) as nat);
        let d = significand(w, b) * pow2((exponent(w, b) - e) as nat);
        signed(w, negative(w, a), nearest(w, n % d, false, e))
    }
}

/// `a * 2^k` modulo `d`.
fn shifted_remainder(a: u64, k: u32, d: u64) -> (r: u64)
    requires
        0 < d < 0x20_0000_0000_0000,
    ensures
        r == (a as nat * pow2(k as nat)) % (d as nat),
        r < d,
{
    let mut x: u64 = a % d;
    let mut i: u32 = 0;
    proof {
        lemma2_to64();
    }
    while i < k
        invariant
            i <= k,
            0 < d < 0x20_0000_0000_0000,
            x == (a as nat * pow2(i as nat)) % (d as nat),
            x < d,
        decreases k - i,
    {
        proof {
            let n = (a as nat * pow2(i as nat)) as int;
            lemma_pow2_unfold((i + 1) as nat);
            assert(a * pow2((i + 1) as nat) == 2 * n) by (nonlinear_arith)
                requires
                    pow2((i + 1) as nat) == 2 * pow2(i as nat),
                    n == a * pow2(i as nat),
            ;
            lemma_mul_mod_noop_right(2, n, d as int);
        }
        x = (2 * x) % d;
        i = i + 1;
    }
    x
}

/// The significand of a remainder, in units of the smaller exponent.
fn significand_left(a: u64, ea: i32, b: u64, eb: i32) -> (r: u64)
    requires
        a < 0x20_0000_0000_0000,
        0 < b < 0x20_0000_0000_0000,
        -2000 <= ea <= 2000,
        -2000 <= eb <= 2000,
    ensures
        ea <= eb ==> r == a as nat % (b as nat * pow2((eb - ea) as nat)),
        ea > eb ==> r == (a as nat * pow2((ea - eb) as nat)) % (b as nat),
        r < 0x20_0000_0000_0000,
{
    if ea > eb {
        return shifted_remainder(a, (ea - eb) as u32, b);
    }
    let k: u32 = (eb - ea) as u32;
    proof {
        lemma2_to64();
        lemma2_to64_rest();
    }
    if k >= 64 {
        proof {
            if k > 64 {
                lemma_pow2_strictly_increases(64, k as nat);
            }
            let m = b * pow2(k as nat);
            assert(m >= pow2(k as nat)) by (nonlinear_arith)
                requires
                    m == b * pow2(k as nat),
                    b >= 1,
            ;
            lemma_small_mod(a as nat, m as nat);
        }
        return a;
    }
    let p: u128 = power(k);
    proof {
        if k < 64 {
            lemma_pow2_strictly_increases(k as nat, 64);
        }
        lemma_pow2_pos(k as nat);
        assert(0 < b * p <= 0x20_0000_0000_0000 * 0x1_0000_0000_0000_0000) by (nonlinear_arith)
            requires
                0 < b < 0x20_0000_0000_0000,
                0 < p <= 0x1_0000_0000_0000_0000,
        ;
    }
    let d: u128 = b as u128 * p;
    let x: u128 = a as u128 % d;
    proof {
        if a < d {
            lemma_small_mod(a as nat, d as nat);
        }
    }
    x as u64
}

/// What is left of a number after taking another away as often as it fits.
pub fn take_remainder(w: Width, a: u64, b: u64) -> (r: u64)
    requires
        valid(w, a),
        valid(w, b),
    ensures
        r == remainder(w, a, b),
        valid(w, r),
{
    let ma: u64 = magnitude_of(w, a);
    let mb: u64 = magnitude_of(w, b);
    let inf: u64 = infinity_of(w);
    if ma >= inf || mb > inf || mb == 0 {
        return nan_of(w);
    }
    if mb == inf {
        return a;
    }
    let ua: (bool, u64, i32) = unpack(w, a);
    let ub: (bool, u64, i32) = unpack(w, b);
    proof {
        lemma2_to64();
        lemma2_to64_rest();
        assert(pow2(0) == 1);
        lemma_mul_basics(ua.1 as int);
        lemma_mul_basics(ub.1 as int);
    }
    let x: u64 = significand_left(ua.1, ua.2, ub.1, ub.2);
    let e: i32 = if ua.2 <= ub.2 {
        ua.2
    } else {
        ub.2
    };
    let m: u64 = round_to(w, x as u128, false, e);
    with_sign(w, ua.0, m)
}

/// A binary64 number from 0 on in tenths, rounded to the nearest whole number of them, ties
/// to even.
pub open spec fn tenths(a: u64) -> nat {
    scaled(10 * significand(Width::Double, a), -exponent(Width::Double, a), false)
}

/// A binary64 number from 0 to 100 in tenths.
pub fn to_tenths(a: u64) -> (r: u64)
    requires
        a <= 0x4059_0000_0000_0000,
    ensures
        r == tenths(a),
{
    let (_minus, n, e): (bool, u64, i32) = unpack(Width::Double, a);
    proof {
        lemma2_to64();
        lemma2_to64_rest();
        assert(e <= -46) by {
            assert(unsigned(Width::Double, a) == a);
            assert(a as nat / 0x10_0000_0000_0000 <= 0x405);
        }
    }
    let s: u32 = (-e) as u32;
    let m: u128 = n as u128 * 10;
    if s >= 64 {
        proof {
            lemma_pow2_strictly_increases(62, s as nat);
            if s > 64 {
                lemma_pow2_strictly_increases(63, (s - 1) as nat);
            }
            assert(m < 0x8000_0000_0000_0000);
            lemma_small_mod(m as nat, pow2(s as nat));
            lemma_basic_div(m as int, pow2(s as nat) as int);
        }
        return 0;
    }
    let p: u128 = power(s);
    let q: u128 = m / p;
    let left: u128 = m % p;
    proof {
        lemma_pow2_unfold(s as nat);
        assert(q <= m) by (nonlinear_arith)
            requires
                q == m / p,
                p > 0,
        ;
    }
    let half: u128 = p / 2;
    if left > half || (left == half && q % 2 == 1) {
        (q + 1) as u64
    } else {
        q as u64
    }
}

} // verus!
