//! The hash behind grain tells arguments apart.
use vstd::arithmetic::div_mod::*;
use vstd::prelude::*;

use crate::ops::finish::{grain_hash, mix, splitmix64, GOLDEN};

verus! {

/// Products with a factor that has an inverse tell numbers apart.
proof fn product_separates(a: u64, b: u64, factor: u64, inverse: int, rest: int)
    requires
        a.wrapping_mul(factor) == b.wrapping_mul(factor),
        factor * inverse == 1 + rest * 0x1_0000_0000_0000_0000,
    ensures
        a == b,
{
    let n = 0x1_0000_0000_0000_0000int;
    let (x, y, f) = (a as int, b as int, factor as int);
    lemma_fundamental_div_mod(x * f, n);
    lemma_fundamental_div_mod(y * f, n);
    let d = x - y;
    let k = (x * f) / n - (y * f) / n;
    assert((x * f) % n == (y * f) % n);
    assert(d * f == n * k) by (nonlinear_arith)
        requires
            d == x - y,
            x * f == n * ((x * f) / n) + (x * f) % n,
            y * f == n * ((y * f) / n) + (y * f) % n,
            (x * f) % n == (y * f) % n,
            k == (x * f) / n - (y * f) / n,
    ;
    let m = k * inverse - d * rest;
    assert(d * (f * inverse) == n * (k * inverse)) by (nonlinear_arith)
        requires
            d * f == n * k,
    ;
    assert(d * (1 + rest * n) == d + n * (d * rest)) by (nonlinear_arith);
    assert(n * m == n * (k * inverse) - n * (d * rest)) by (nonlinear_arith)
        requires
            m == k * inverse - d * rest,
    ;
    assert(d == n * m);
    assert(m == 0) by (nonlinear_arith)
        requires
            d == n * m,
            -n < d < n,
            n > 0,
    ;
}

/// Sums with a constant tell numbers apart.
proof fn sum_separates(a: u64, b: u64, c: u64)
    requires
        a.wrapping_add(c) == b.wrapping_add(c),
    ensures
        a == b,
{
}

/// The mix of the generator tells seeds apart.
proof fn mix_separates(a: u64, b: u64)
    requires
        splitmix64(a) == splitmix64(b),
    ensures
        a == b,
{
    let (a0, b0) = (a.wrapping_add(GOLDEN), b.wrapping_add(GOLDEN));
    let (a1, b1) = (mix(a0, 30, 0xBF58_476D_1CE4_E5B9), mix(b0, 30, 0xBF58_476D_1CE4_E5B9));
    let (a2, b2) = (mix(a1, 27, 0x94D0_49BB_1331_11EB), mix(b1, 27, 0x94D0_49BB_1331_11EB));
    assert((a2 ^ (a2 >> 31u64)) == (b2 ^ (b2 >> 31u64)) ==> a2 == b2) by (bit_vector);
    product_separates(
        a1 ^ (a1 >> 27u64),
        b1 ^ (b1 >> 27u64),
        0x94D0_49BB_1331_11EB,
        0x3196_42B2_D24D_8EC3,
        2077064247507883091,
    );
    assert((a1 ^ (a1 >> 27u64)) == (b1 ^ (b1 >> 27u64)) ==> a1 == b1) by (bit_vector);
    product_separates(
        a0 ^ (a0 >> 30u64),
        b0 ^ (b0 >> 30u64),
        0xBF58_476D_1CE4_E5B9,
        0x96DE_1B17_3F11_9089,
        8125545580553827436,
    );
    assert((a0 ^ (a0 >> 30u64)) == (b0 ^ (b0 >> 30u64)) ==> a0 == b0) by (bit_vector);
    sum_separates(a, b, GOLDEN);
}

/// Numbers that differ are told apart by what is laid over both, and what is laid over one
/// number tells them apart.
proof fn laying_over_separates(a: u64, b: u64, c: u64)
    ensures
        a ^ c == b ^ c ==> a == b,
        c ^ a == c ^ b ==> a == b,
{
    assert(a ^ c == b ^ c ==> a == b) by (bit_vector);
    assert(c ^ a == c ^ b ==> a == b) by (bit_vector);
}

/// Two lists of arguments that differ in exactly one of them have different hashes.
pub proof fn hashes_tell_apart(
    x: u64,
    y: u64,
    seed: u64,
    channel: u64,
    other_x: u64,
    other_y: u64,
    other_seed: u64,
    other_channel: u64,
)
    requires
        ({
            ||| x != other_x && y == other_y && seed == other_seed && channel == other_channel
            ||| x == other_x && y != other_y && seed == other_seed && channel == other_channel
            ||| x == other_x && y == other_y && seed != other_seed && channel == other_channel
            ||| x == other_x && y == other_y && seed == other_seed && channel != other_channel
        }),
    ensures
        grain_hash(x, y, seed, channel) != grain_hash(other_x, other_y, other_seed, other_channel),
{
    if grain_hash(x, y, seed, channel) == grain_hash(other_x, other_y, other_seed, other_channel) {
        let (s, t) = (seed ^ 0xA076_1D64_78BD_642F, other_seed ^ 0xA076_1D64_78BD_642F);
        let (a, b) = (
            x.wrapping_mul(0xD6E8_FEB8_6659_FD93),
            other_x.wrapping_mul(0xD6E8_FEB8_6659_FD93),
        );
        let (h1, g1) = (splitmix64(s), splitmix64(t));
        let (h2, g2) = (splitmix64(h1 ^ a), splitmix64(g1 ^ b));
        let (c, d) = (
            y.wrapping_mul(0xE703_7ED1_A0B4_28DB),
            other_y.wrapping_mul(0xE703_7ED1_A0B4_28DB),
        );
        let (h3, g3) = (splitmix64(h2 ^ c), splitmix64(g2 ^ d));
        let (e, f) = (channel.wrapping_mul(GOLDEN), other_channel.wrapping_mul(GOLDEN));
        mix_separates(h3 ^ e, g3 ^ f);
        if channel != other_channel {
            laying_over_separates(e, f, h3);
            product_separates(channel, other_channel, GOLDEN, 0xF1DE_83E1_9937_733D, 10771413168148108919);
        } else {
            laying_over_separates(h3, g3, e);
            mix_separates(h2 ^ c, g2 ^ d);
            if y != other_y {
                laying_over_separates(c, d, h2);
                product_separates(
                    y,
                    other_y,
                    0xE703_7ED1_A0B4_28DB,
                    0x2E1B_9953_F3B3_9353,
                    2998140081284585247,
                );
            } else {
                laying_over_separates(h2, g2, c);
                mix_separates(h1 ^ a, g1 ^ b);
                if x != other_x {
                    laying_over_separates(a, b, h1);
                    product_separates(
                        x,
                        other_x,
                        0xD6E8_FEB8_6659_FD93,
                        0xCFEE_444D_8B59_A89B,
                        12578109465933073204,
                    );
                } else {
                    laying_over_separates(h1, g1, a);
                    mix_separates(s, t);
                    laying_over_separates(seed, other_seed, 0xA076_1D64_78BD_642F);
                }
            }
        }
    }
}

} // verus!
