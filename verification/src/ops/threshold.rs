//! Thresholding to black and white.
use vstd::prelude::*;

use crate::binary::{Real, Real32};
use crate::error::{op_error, op_fault, verdict, AtxError, Fault};
use crate::integral::{grid, rect_sum, table_of, Table};
use crate::linear::{unit_byte, unit_to_u8, LinearImage};
use crate::number::{is_within, within, Number, ONE, SHORT_ONE, SHORT_ZERO, ZERO};
use crate::raster::{place, place_is_inside, Image, Rgba32};
use crate::recipe::ThresholdMethod;
use crate::sums::{sum_box, sum_box_agrees, sum_range, sum_range_bounds};
use crate::text::{cat2, cat5, dec, decimal};

verus! {

/// The name of a method.
pub open spec fn method_name(method: ThresholdMethod) -> Seq<char> {
    match method {
        ThresholdMethod::Fixed => "fixed"@,
        ThresholdMethod::Otsu => "otsu"@,
        ThresholdMethod::Sauvola => "sauvola"@,
    }
}

impl ThresholdMethod {
    /// The name of the method.
    pub fn as_str(self) -> (r: &'static str)
        ensures
            r@ == method_name(self),
    {
        match self {
            ThresholdMethod::Fixed => "fixed",
            ThresholdMethod::Otsu => "otsu",
            ThresholdMethod::Sauvola => "sauvola",
        }
    }
}

/// A parameter that another method takes.
pub open spec fn misplaced_text(
    parameter: Seq<char>,
    taker: Seq<char>,
    method: ThresholdMethod,
    value: Seq<char>,
) -> Seq<char> {
    parameter + " is only valid with method \""@ + taker + "\", but method is \""@ + method_name(
        method,
    ) + ("\" (got "@ + parameter + " "@ + value + ")"@)
}

/// What is wrong with the parameters of `threshold`: the fixed method takes a value
/// and needs one, and only the Sauvola method takes a window, which is odd, and `k`.
pub open spec fn threshold_fault(
    index: int,
    method: ThresholdMethod,
    value: Option<u8>,
    window: Option<u32>,
    k: Option<Number>,
) -> Option<Fault> {
    if method == ThresholdMethod::Fixed && value is None {
        op_fault(index, "threshold"@, "method \"fixed\" requires value (0..=255)"@)
    } else if method != ThresholdMethod::Fixed && value is Some {
        op_fault(
            index,
            "threshold"@,
            misplaced_text("value"@, "fixed"@, method, decimal(value->0 as nat)),
        )
    } else if method != ThresholdMethod::Sauvola && window is Some {
        op_fault(
            index,
            "threshold"@,
            misplaced_text("window"@, "sauvola"@, method, decimal(window->0 as nat)),
        )
    } else if method != ThresholdMethod::Sauvola && k is Some {
        op_fault(index, "threshold"@, misplaced_text("k"@, "sauvola"@, method, k->0.text@))
    } else if window is Some && !(3 <= window->0 <= 255) {
        op_fault(
            index,
            "threshold"@,
            "window must be within 3..=255, got "@ + decimal(window->0 as nat),
        )
    } else if window is Some && window->0 % 2 == 0 {
        op_fault(
            index,
            "threshold"@,
            "window must be odd so the local window is centred on the pixel, got "@ + decimal(
                window->0 as nat,
            ),
        )
    } else if k is Some && !within(k->0.bits, ZERO, ONE) {
        op_fault(index, "threshold"@, "k must be finite and within 0..=1, got "@ + k->0.text@)
    } else {
        None
    }
}

/// The message for a parameter that another method takes.
fn misplaced(parameter: &str, taker: &str, method: ThresholdMethod, value: &str) -> (r: String)
    ensures
        r@ == misplaced_text(parameter@, taker@, method, value@),
{
    let head: String = cat5(
        parameter,
        " is only valid with method \"",
        taker,
        "\", but method is \"",
        method.as_str(),
    );
    let tail: String = cat5("\" (got ", parameter, " ", value, ")");
    cat2(head.as_str(), tail.as_str())
}

/// Checks the parameters of `threshold`.
pub fn validate(
    index: usize,
    method: ThresholdMethod,
    value: Option<u8>,
    window: Option<u32>,
    k: &Option<Number>,
) -> (r: Result<(), AtxError>)
    ensures
        verdict(r) == threshold_fault(index as int, method, value, window, *k),
{
    match (method, value) {
        (ThresholdMethod::Fixed, None) => {
            return Err(
                op_error(index, "threshold", "method \"fixed\" requires value (0..=255)"),
            );
        },
        (ThresholdMethod::Otsu, Some(v)) | (ThresholdMethod::Sauvola, Some(v)) => {
            let number: String = dec(v as u64);
            let message: String = misplaced("value", "fixed", method, number.as_str());
            return Err(op_error(index, "threshold", message.as_str()));
        },
        _ => {},
    }
    if method != ThresholdMethod::Sauvola {
        if let Some(w) = window {
            let number: String = dec(w as u64);
            let message: String = misplaced("window", "sauvola", method, number.as_str());
            return Err(op_error(index, "threshold", message.as_str()));
        }
        if let Some(kv) = k {
            let message: String = misplaced("k", "sauvola", method, kv.text.as_str());
            return Err(op_error(index, "threshold", message.as_str()));
        }
    }
    if let Some(w) = window {
        if w < 3 || w > 255 {
            let number: String = dec(w as u64);
            let message: String = cat2("window must be within 3..=255, got ", number.as_str());
            return Err(op_error(index, "threshold", message.as_str()));
        }
        if w % 2 == 0 {
            let number: String = dec(w as u64);
            let message: String = cat2(
                "window must be odd so the local window is centred on the pixel, got ",
                number.as_str(),
            );
            return Err(op_error(index, "threshold", message.as_str()));
        }
    }
    if let Some(kv) = k {
        if !is_within(kv.bits, ZERO, ONE) {
            let message: String = cat2(
                "k must be finite and within 0..=1, got ",
                kv.text.as_str(),
            );
            return Err(op_error(index, "threshold", message.as_str()));
        }
    }
    Ok(())
}

/// The luminance of a colour, from its bytes.
pub open spec fn luma_byte(p: Rgba32) -> u8 {
    ((2126 * unit_byte(p.r) + 7152 * unit_byte(p.g) + 722 * unit_byte(p.b) + 5000) / 10000) as u8
}

/// The luminance of a colour, from its bytes.
pub fn luma_u8(p: Rgba32) -> (r: u8)
    ensures
        r == luma_byte(p),
{
    let r: u32 = unit_to_u8(p.r) as u32;
    let g: u32 = unit_to_u8(p.g) as u32;
    let b: u32 = unit_to_u8(p.b) as u32;
    ((2126 * r + 7152 * g + 722 * b + 5000) / 10000) as u8
}

/// The luminance of all pixels, row by row.
pub open spec fn lumas(img: LinearImage) -> Seq<u8> {
    img.data@.map_values(|p: Rgba32| luma_byte(p))
}

fn luma_plane(img: &LinearImage) -> (r: Vec<u8>)
    ensures
        r@ == lumas(*img),
{
    let mut r: Vec<u8> = Vec::new();
    let mut i: usize = 0;
    while i < img.data.len()
        invariant
            i <= img.data@.len(),
            r@ =~= lumas(*img).take(i as int),
        decreases img.data.len() - i,
    {
        r.push(luma_u8(img.data[i]));
        i = i + 1;
    }
    assert(r@ =~= lumas(*img));
    r
}

/// One where a value is `v`, else nothing.
pub open spec fn one_where(s: Seq<u8>, v: int) -> spec_fn(int) -> int {
    |i: int|
        if s[i] == v {
            1int
        } else {
            0
        }
}

/// How often each value occurs.
pub open spec fn is_histogram(s: Seq<u8>, hist: Seq<u64>) -> bool {
    hist.len() == 256 && forall|v: int|
        0 <= v < 256 ==> #[trigger] hist[v] == sum_range(one_where(s, v), 0, s.len() as int)
}

/// How often each value occurs.
pub fn histogram(luma: &Vec<u8>) -> (hist: Vec<u64>)
    ensures
        is_histogram(luma@, hist@),
{
    let mut hist: Vec<u64> = vec![0; 256];
    let mut i: usize = 0;
    while i < luma.len()
        invariant
            i <= luma@.len(),
            hist@.len() == 256,
            forall|v: int|
                0 <= v < 256 ==> #[trigger] hist@[v] == sum_range(one_where(luma@, v), 0, i as int),
        decreases luma.len() - i,
    {
        let v: usize = luma[i] as usize;
        proof {
            sum_range_bounds(one_where(luma@, v as int), 0, i as int, 0, 1);
        }
        let count: u64 = hist[v];
        let ghost before = hist@;
        hist.set(v, count + 1);
        proof {
            assert forall|u: int| 0 <= u < 256 implies #[trigger] hist@[u] == sum_range(
                one_where(luma@, u),
                0,
                i + 1,
            ) by {
                assert(before[u] == sum_range(one_where(luma@, u), 0, i as int));
            }
        }
        i = i + 1;
    }
    hist
}

/// The counts of the values from 0 to `t`.
pub open spec fn weight_to(hist: Seq<u64>, t: int) -> int {
    sum_range(|v: int| hist[v] as int, 0, t + 1)
}

/// The values from 0 to `t` times their counts.
pub open spec fn sum_to(hist: Seq<u64>, t: int) -> int {
    sum_range(|v: int| v * hist[v], 0, t + 1)
}

/// The difference of two numbers without its sign.
pub open spec fn gap(a: int, b: int) -> int {
    if a >= b {
        a - b
    } else {
        b - a
    }
}

/// How well the threshold `t` parts the values in two: the variance between the two
/// classes, as a numerator and a denominator. It is 0 where a class is empty.
pub open spec fn parting(hist: Seq<u64>, t: int) -> (int, int) {
    let total = weight_to(hist, 255);
    let low = weight_to(hist, t);
    if low == 0 || low == total {
        (0, 1)
    } else {
        let d = gap(sum_to(hist, t) * total, sum_to(hist, 255) * low);
        (d * d, low * (total - low))
    }
}

/// One fraction is greater than another. Denominators are positive.
pub open spec fn exceeds(a: (int, int), b: (int, int)) -> bool {
    a.0 * b.1 > b.0 * a.1
}

/// `t` parts the values best, and no smaller threshold does so as well.
pub open spec fn parts_best(hist: Seq<u64>, t: int) -> bool {
    &&& forall|u: int|
        0 <= u < 256 ==> !exceeds(#[trigger] parting(hist, u), parting(hist, t))
    &&& forall|u: int| 0 <= u < t ==> exceeds(parting(hist, t), #[trigger] parting(hist, u))
}

/// A fraction by its whole part, what is left over, and its denominator.
pub open spec fn is_split(v: (u128, u128, u128), f: (int, int)) -> bool {
    &&& v.2 == f.1
    &&& f.1 > 0
    &&& v.1 < v.2
    &&& f.0 == v.0 * f.1 + v.1
}

proof fn split_order(q1: int, r1: int, d1: int, q2: int, r2: int, d2: int)
    requires
        0 <= r1 < d1,
        0 <= r2 < d2,
        0 <= q1,
        0 <= q2,
    ensures
        q1 > q2 ==> exceeds((q1 * d1 + r1, d1), (q2 * d2 + r2, d2)),
        q1 == q2 ==> (exceeds((q1 * d1 + r1, d1), (q2 * d2 + r2, d2)) <==> r1 * d2 > r2 * d1),
        q1 < q2 ==> !exceeds((q1 * d1 + r1, d1), (q2 * d2 + r2, d2)),
{
    let left = (q1 * d1 + r1) * d2;
    let right = (q2 * d2 + r2) * d1;
    let p = d1 * d2;
    assert(left == q1 * p + r1 * d2) by (nonlinear_arith)
        requires
            left == (q1 * d1 + r1) * d2,
            p == d1 * d2,
    ;
    assert(right == q2 * p + r2 * d1) by (nonlinear_arith)
        requires
            right == (q2 * d2 + r2) * d1,
            p == d1 * d2,
    ;
    assert(0 <= r1 * d2 < p) by (nonlinear_arith)
        requires
            0 <= r1 < d1,
            0 < d2,
            p == d1 * d2,
    ;
    assert(0 <= r2 * d1 < p) by (nonlinear_arith)
        requires
            0 <= r2 < d2,
            0 < d1,
            p == d1 * d2,
    ;
    if q1 > q2 {
        assert(q1 * p >= q2 * p + p) by (nonlinear_arith)
            requires
                q1 >= q2 + 1,
                p > 0,
        ;
    } else if q1 < q2 {
        assert(q2 * p >= q1 * p + p) by (nonlinear_arith)
            requires
                q2 >= q1 + 1,
                p > 0,
        ;
    }
}

/// Whether one fraction is greater than another, without a product of both wholes.
fn greater(
    a: (u128, u128, u128),
    b: (u128, u128, u128),
    Ghost(f): Ghost<(int, int)>,
    Ghost(g): Ghost<(int, int)>,
) -> (r: bool)
    requires
        is_split(a, f),
        is_split(b, g),
        a.2 <= 0x100_0000_0000_0000,
        b.2 <= 0x100_0000_0000_0000,
    ensures
        r == exceeds(f, g),
{
    proof {
        split_order(
            a.0 as int,
            a.1 as int,
            a.2 as int,
            b.0 as int,
            b.1 as int,
            b.2 as int,
        );
        let (x, y, z, u) = (a.1 as int, b.2 as int, b.1 as int, a.2 as int);
        assert(0 <= x * y <= 0x100_0000_0000_0000 * 0x100_0000_0000_0000) by (nonlinear_arith)
            requires
                0 <= x <= 0x100_0000_0000_0000,
                0 <= y <= 0x100_0000_0000_0000,
        ;
        assert(0 <= z * u <= 0x100_0000_0000_0000 * 0x100_0000_0000_0000) by (nonlinear_arith)
            requires
                0 <= z <= 0x100_0000_0000_0000,
                0 <= u <= 0x100_0000_0000_0000,
        ;
    }
    if a.0 != b.0 {
        return a.0 > b.0;
    }
    a.1 * b.2 > b.1 * a.2
}

proof fn weights_grow(hist: Seq<u64>, t: int, u: int)
    requires
        -1 <= t <= u < 256,
        hist.len() == 256,
    ensures
        0 <= weight_to(hist, t) <= weight_to(hist, u),
        0 <= sum_to(hist, t) <= 255 * weight_to(hist, t),
        0 <= sum_to(hist, u) - sum_to(hist, t) <= 255 * (weight_to(hist, u) - weight_to(hist, t)),
    decreases u + 1, t + 1,
{
    if t >= 0 {
        weights_grow(hist, t - 1, t - 1);
        let c = hist[t] as int;
        assert(0 <= t * c <= 255 * c) by (nonlinear_arith)
            requires
                0 <= t <= 255,
                c >= 0,
        ;
    }
    if t < u {
        weights_grow(hist, t, u - 1);
        let c = hist[u] as int;
        assert(0 <= u * c <= 255 * c) by (nonlinear_arith)
            requires
                0 <= u <= 255,
                c >= 0,
        ;
    }
}

/// How far two products are apart where the values on each side are bytes.
proof fn gap_is_bounded(total: int, sum: int, w0: int, s0: int)
    requires
        0 < w0 < total <= 0x2000_0000,
        0 <= s0 <= 255 * w0,
        0 <= sum - s0 <= 255 * (total - w0),
    ensures
        0 <= s0 * total <= 255 * 0x2000_0000 * 0x2000_0000,
        0 <= sum * w0 <= 255 * 0x2000_0000 * 0x2000_0000,
        0 <= gap(s0 * total, sum * w0) <= 0xFF00_0000_0000_0000,
        0 < w0 * (total - w0) <= 0x100_0000_0000_0000,
{
    let (w1, s1) = (total - w0, sum - s0);
    assert(0 <= s0 * total <= 255 * 0x2000_0000 * 0x2000_0000) by (nonlinear_arith)
        requires
            0 <= s0 <= 255 * 0x2000_0000,
            0 <= total <= 0x2000_0000,
    ;
    assert(0 <= sum * w0 <= 255 * 0x2000_0000 * 0x2000_0000) by (nonlinear_arith)
        requires
            0 <= sum <= 255 * 0x2000_0000,
            0 <= w0 <= 0x2000_0000,
    ;
    assert(s0 * total - sum * w0 == s0 * w1 - s1 * w0) by (nonlinear_arith)
        requires
            total == w0 + w1,
            sum == s0 + s1,
    ;
    let p = w0 * w1;
    assert(0 <= s0 * w1 <= 255 * p) by (nonlinear_arith)
        requires
            0 <= s0 <= 255 * w0,
            w1 >= 0,
            p == w0 * w1,
    ;
    assert(0 <= s1 * w0 <= 255 * p) by (nonlinear_arith)
        requires
            0 <= s1 <= 255 * w1,
            w0 >= 0,
            p == w0 * w1,
    ;
    assert(0 < p <= 0x100_0000_0000_0000) by (nonlinear_arith)
        requires
            p == w0 * w1,
            w0 > 0,
            w1 > 0,
            w0 + w1 <= 0x2000_0000,
    {
        let d = w0 - w1;
        assert(d * d >= 0);
        assert(4 * p == (w0 + w1) * (w0 + w1) - d * d);
        assert((w0 + w1) * (w0 + w1) <= 0x2000_0000 * 0x2000_0000);
    }
}

/// The whole part, the rest and the denominator of how well a threshold parts.
fn parting_score(total: u128, sum: u128, w0: u128, s0: u128) -> (r: (u128, u128, u128))
    requires
        0 < w0 < total <= 0x2000_0000,
        s0 <= 255 * w0,
        s0 <= sum,
        sum - s0 <= 255 * (total - w0),
    ensures
        r.2 == w0 * (total - w0),
        r.2 <= 0x100_0000_0000_0000,
        is_split(
            r,
            (
                gap(s0 * total, sum * w0) * gap(s0 * total, sum * w0),
                w0 * (total - w0),
            ),
        ),
{
    proof {
        gap_is_bounded(total as int, sum as int, w0 as int, s0 as int);
    }
    let a: u128 = s0 * total;
    let b: u128 = sum * w0;
    let diff: u128 = if a >= b {
        a - b
    } else {
        b - a
    };
    assert(0 <= diff * diff <= 0xFE01_0000_0000_0000_0000_0000_0000_0000) by (nonlinear_arith)
        requires
            0 <= diff <= 0xFF00_0000_0000_0000,
    ;
    let w1: u128 = total - w0;
    let n: u128 = diff * diff;
    let d: u128 = w0 * w1;
    proof {
        vstd::arithmetic::div_mod::lemma_fundamental_div_mod(n as int, d as int);
        let q = n as int / d as int;
        assert(d * q == q * d) by (nonlinear_arith);
    }
    (n / d, n % d, d)
}

/// The threshold that parts the values of a histogram best; of several, the smallest.
pub fn otsu_threshold(hist: &Vec<u64>) -> (t: u8)
    requires
        hist@.len() == 256,
        weight_to(hist@, 255) <= 0x2000_0000,
    ensures
        parts_best(hist@, t as int),
{
    let mut total: u128 = 0;
    let mut sum: u128 = 0;
    let mut i: usize = 0;
    while i < 256
        invariant
            i <= 256,
            hist@.len() == 256,
            weight_to(hist@, 255) <= 0x2000_0000,
            total == weight_to(hist@, i - 1),
            sum == sum_to(hist@, i - 1),
        decreases 256 - i,
    {
        let c: u128 = hist[i] as u128;
        proof {
            weights_grow(hist@, i as int, 255);
            weights_grow(hist@, i - 1, i as int);
            assert(i * c <= 255 * 0xFFFF_FFFF_FFFF_FFFF) by (nonlinear_arith)
                requires
                    0 <= i <= 255,
                    0 <= c <= 0xFFFF_FFFF_FFFF_FFFF,
            ;
        }
        total = total + c;
        sum = sum + i as u128 * c;
        i = i + 1;
    }
    proof {
        weights_grow(hist@, 255, 255);
    }
    let mut best_t: u8 = 0;
    let mut best: (u128, u128, u128) = (0, 0, 1);
    let ghost mut best_f: (int, int) = (0, 1);
    let mut w0: u128 = 0;
    let mut s0: u128 = 0;
    let mut k: usize = 0;
    while k < 256
        invariant
            k <= 256,
            hist@.len() == 256,
            total == weight_to(hist@, 255),
            sum == sum_to(hist@, 255),
            total <= 0x2000_0000,
            sum <= 255 * total,
            w0 == weight_to(hist@, k - 1),
            s0 == sum_to(hist@, k - 1),
            is_split(best, best_f),
            best.2 <= 0x100_0000_0000_0000,
            best_t < k || (best_t == 0 && k == 0),
            k == 0 ==> best_f == (0int, 1int),
            k > 0 ==> best_f == parting(hist@, best_t as int) || (best_f == (0int, 1int)
                && best_t == 0),
            forall|u: int| 0 <= u < k ==> !exceeds(#[trigger] parting(hist@, u), best_f),
            forall|u: int| 0 <= u < best_t ==> exceeds(best_f, #[trigger] parting(hist@, u)),
        decreases 256 - k,
    {
        let c: u128 = hist[k] as u128;
        proof {
            weights_grow(hist@, k as int, 255);
            weights_grow(hist@, k - 1, k as int);
            assert(k * c <= 255 * 0xFFFF_FFFF_FFFF_FFFF) by (nonlinear_arith)
                requires
                    0 <= k <= 255,
                    0 <= c <= 0xFFFF_FFFF_FFFF_FFFF,
            ;
        }
        w0 = w0 + c;
        s0 = s0 + k as u128 * c;
        let ghost f = parting(hist@, k as int);
        if w0 != 0 && w0 != total {
            let candidate: (u128, u128, u128) = parting_score(total, sum, w0, s0);
            assert(is_split(candidate, f));
            if greater(candidate, best, Ghost(f), Ghost(best_f)) {
                proof {
                    assert forall|u: int| 0 <= u < k implies exceeds(
                        f,
                        #[trigger] parting(hist@, u),
                    ) by {
                        parting_is_fraction(hist@, u);
                        exceeds_carries(parting(hist@, u), best_f, f);
                    }
                    assert forall|u: int| 0 <= u < k + 1 implies !exceeds(
                        #[trigger] parting(hist@, u),
                        f,
                    ) by {
                        parting_is_fraction(hist@, u);
                        exceeds_once(f, parting(hist@, u));
                    }
                    best_f = f;
                }
                best = candidate;
                best_t = k as u8;
            }
        } else {
            assert(f == (0int, 1int));
            proof {
                let (q, d) = (best.0 as int, best_f.1);
                assert(q * d >= 0) by (nonlinear_arith)
                    requires
                        q >= 0,
                        d > 0,
                ;
                assert(0 * d == 0) by (nonlinear_arith);
                assert(!exceeds(f, best_f));
            }
        }
        k = k + 1;
    }
    proof {
        if best_f == (0int, 1int) && best_t == 0 {
            // Nothing exceeds 0, so the first threshold is as good as any.
            parting_is_fraction(hist@, 0);
            let p = parting(hist@, 0);
            assert(p.0 == 0);
            assert forall|u: int| 0 <= u < 256 implies !exceeds(
                #[trigger] parting(hist@, u),
                p,
            ) by {
                parting_is_fraction(hist@, u);
                let q = parting(hist@, u);
                assert(q.0 == 0);
                let (c, d) = (p.1, q.1);
                assert(0 * c == 0 && 0 * d == 0) by (nonlinear_arith);
            }
        }
    }
    best_t
}

proof fn parting_is_fraction(hist: Seq<u64>, t: int)
    requires
        hist.len() == 256,
        0 <= t < 256,
    ensures
        parting(hist, t).0 >= 0,
        parting(hist, t).1 > 0,
{
    weights_grow(hist, t, 255);
    let total = weight_to(hist, 255);
    let low = weight_to(hist, t);
    if low != 0 && low != total {
        let d = gap(sum_to(hist, t) * total, sum_to(hist, 255) * low);
        assert(d * d >= 0) by (nonlinear_arith);
        let high = total - low;
        assert(low * high > 0) by (nonlinear_arith)
            requires
                low > 0,
                high > 0,
        ;
    }
}

/// What does not exceed a fraction that a third exceeds, the third exceeds too.
proof fn exceeds_carries(a: (int, int), b: (int, int), c: (int, int))
    requires
        a.1 > 0,
        b.1 > 0,
        c.1 > 0,
        a.0 >= 0,
        b.0 >= 0,
        c.0 >= 0,
        !exceeds(a, b),
        exceeds(c, b),
    ensures
        exceeds(c, a),
{
    let (p, q) = (a.0, a.1);
    let (r, s) = (b.0, b.1);
    let (t, u) = (c.0, c.1);
    // p / q <= r / s < t / u
    assert(p * s * u <= r * q * u) by (nonlinear_arith)
        requires
            p * s <= r * q,
            u > 0,
    ;
    assert(t * s * q > r * u * q) by (nonlinear_arith)
        requires
            t * s > r * u,
            q > 0,
    ;
    assert(t * q * s > p * u * s) by (nonlinear_arith)
        requires
            p * s * u <= r * q * u,
            t * s * q > r * u * q,
    ;
    assert(t * q > p * u) by (nonlinear_arith)
        requires
            t * q * s > p * u * s,
            s > 0,
    ;
}

proof fn exceeds_once(a: (int, int), b: (int, int))
    requires
        a == b || exceeds(a, b),
    ensures
        !exceeds(b, a),
{
}

/// Sums of luminance and of its squares over any rectangle.
pub struct Integral {
    pub sum: Table,
    pub sum_sq: Table,
    pub values: Ghost<Seq<u32>>,
    pub squares: Ghost<Seq<u32>>,
    pub luma: Ghost<Seq<u8>>,
}

/// Luminance as a function of column and row.
pub open spec fn luma_at(luma: Seq<u8>, w: int) -> spec_fn(int, int) -> int {
    |x: int, y: int| luma[place(w, x, y)] as int
}

/// The square of luminance as a function of column and row.
pub open spec fn luma_square_at(luma: Seq<u8>, w: int) -> spec_fn(int, int) -> int {
    |x: int, y: int| luma[place(w, x, y)] * luma[place(w, x, y)]
}

impl Integral {
    /// The tables belong to luminance in `h` rows of `w`.
    pub open spec fn holds(&self, luma: Seq<u8>, w: int, h: int) -> bool {
        &&& luma.len() == w * h
        &&& self.luma@ == luma
        &&& self.sum.sums_up(self.values@, w, h)
        &&& self.sum_sq.sums_up(self.squares@, w, h)
        &&& forall|i: int| 0 <= i < luma.len() ==> #[trigger] self.values@[i] == luma[i]
        &&& forall|i: int| 0 <= i < luma.len() ==> #[trigger] self.squares@[i] == luma[i] * luma[i]
    }

    /// The tables of luminance in `h` rows of `w`.
    pub fn build(luma: &Vec<u8>, w: usize, h: usize) -> (r: Integral)
        requires
            luma@.len() == w * h,
            luma@.len() <= 0x2000_0000_0000,
            (w + 1) * (h + 1) <= usize::MAX,
        ensures
            r.holds(luma@, w as int, h as int),
    {
        let mut values: Vec<u32> = Vec::new();
        let mut squares: Vec<u32> = Vec::new();
        let mut i: usize = 0;
        while i < luma.len()
            invariant
                i <= luma@.len(),
                values@.len() == i,
                squares@.len() == i,
                forall|k: int| 0 <= k < i ==> #[trigger] values@[k] == luma@[k],
                forall|k: int| 0 <= k < i ==> #[trigger] squares@[k] == luma@[k] * luma@[k],
                forall|k: int| 0 <= k < i ==> #[trigger] squares@[k] <= 0xFFFF,
            decreases luma.len() - i,
        {
            let v: u32 = luma[i] as u32;
            assert(0 <= v * v <= 255 * 255) by (nonlinear_arith)
                requires
                    0 <= v <= 255,
            ;
            values.push(v);
            squares.push(v * v);
            i = i + 1;
        }
        let sum: Table = table_of(&values, w, h);
        let sum_sq: Table = table_of(&squares, w, h);
        Integral {
            sum,
            sum_sq,
            values: Ghost(values@),
            squares: Ghost(squares@),
            luma: Ghost(luma@),
        }
    }

    /// The sum, the sum of squares and the count over the columns `x0` to `x1` and the
    /// rows `y0` to `y1`, both with their ends.
    pub fn window(&self, x0: usize, y0: usize, x1: usize, y1: usize) -> (r: (u64, u64, u64))
        requires
            self.holds(self.luma@, self.sum.stride - 1, self.sum.rows - 1),
            x0 <= x1 < self.sum.stride - 1,
            y0 <= y1 < self.sum.rows - 1,
        ensures
            r.0 == sum_box(
                luma_at(self.luma@, self.sum.stride - 1),
                x0 as int,
                x1 + 1,
                y0 as int,
                y1 + 1,
            ),
            r.1 == sum_box(
                luma_square_at(self.luma@, self.sum.stride - 1),
                x0 as int,
                x1 + 1,
                y0 as int,
                y1 + 1,
            ),
            r.2 == (x1 - x0 + 1) * (y1 - y0 + 1),
    {
        let s: u64 = rect_sum(&self.sum, Ghost(self.values@), x0, y0, x1 + 1, y1 + 1);
        let q: u64 = rect_sum(&self.sum_sq, Ghost(self.squares@), x0, y0, x1 + 1, y1 + 1);
        proof {
            let w = self.sum.stride - 1;
            let h = self.sum.rows - 1;
            assert forall|x: int, y: int|
                x0 <= x < x1 + 1 && y0 <= y < y1 + 1 implies #[trigger] grid(self.values@, w)(x, y)
                == luma_at(self.luma@, w)(x, y) by {
                place_is_inside(w, h, x, y);
            }
            assert forall|x: int, y: int|
                x0 <= x < x1 + 1 && y0 <= y < y1 + 1 implies #[trigger] grid(
                self.squares@,
                w,
            )(x, y) == luma_square_at(self.luma@, w)(x, y) by {
                place_is_inside(w, h, x, y);
            }
            sum_box_agrees(
                grid(self.values@, w),
                luma_at(self.luma@, w),
                x0 as int,
                x1 + 1,
                y0 as int,
                y1 + 1,
            );
            sum_box_agrees(
                grid(self.squares@, w),
                luma_square_at(self.luma@, w),
                x0 as int,
                x1 + 1,
                y0 as int,
                y1 + 1,
            );
            let a = x1 - x0 + 1;
            let b = y1 - y0 + 1;
            assert(0 <= a * b <= w * h) by (nonlinear_arith)
                requires
                    0 <= a <= w,
                    0 <= b <= h,
            ;
        }
        let count: u64 = (x1 - x0 + 1) as u64 * (y1 - y0 + 1) as u64;
        (s, q, count)
    }
}

/// Half the range of a byte, which the deviation is measured against: 128.
pub const SAUVOLA_R: u64 = 0x4060_0000_0000_0000;

/// The sensitivity where none is given, 0.2.
pub const K_DEFAULT: u64 = 0x3FC9_9999_9999_999A;

/// The side of the window where none is given.
pub const WINDOW_DEFAULT: u32 = 31;

/// The local threshold of a window: its mean, lowered the more the less its values
/// deviate, on a grid of millionths.
pub open spec fn local_threshold(sum: int, sum_sq: int, count: int, k: Real) -> Real {
    let one = Real { bits: ONE };
    let n = Real::nearest_to(count);
    let mean = Real::nearest_to(sum).over(n);
    let mean_sq = Real::nearest_to(sum_sq).over(n);
    let square = mean.times(mean);
    let variance = if square.below(mean_sq) {
        mean_sq.minus(square)
    } else {
        Real { bits: ZERO }
    };
    let ratio = variance.root().over(Real { bits: SAUVOLA_R });
    mean.times(one.plus(k.times(ratio.minus(one)))).on_grid()
}

/// The local threshold of a window.
pub fn sauvola_threshold(sum: u64, sum_sq: u64, count: u64, k: Real) -> (r: Real)
    ensures
        r == local_threshold(sum as int, sum_sq as int, count as int, k),
{
    let one: Real = Real { bits: ONE };
    let n: Real = Real::from_whole(count as u128);
    let mean: Real = Real::from_whole(sum as u128).over(n);
    let mean_sq: Real = Real::from_whole(sum_sq as u128).over(n);
    let square: Real = mean.times(mean);
    let variance: Real = if square.below(mean_sq) {
        mean_sq.minus(square)
    } else {
        Real { bits: ZERO }
    };
    let ratio: Real = variance.root().over(Real { bits: SAUVOLA_R });
    mean.times(one.plus(k.times(ratio.minus(one)))).on_grid()
}

/// The first place of a window around `v`.
pub open spec fn window_start(v: int, half: int) -> int {
    if v - half < 0 {
        0
    } else {
        v - half
    }
}

/// The place after the last of a window around `v`.
pub open spec fn window_end(v: int, half: int, len: int) -> int {
    if v + half + 1 > len {
        len
    } else {
        v + half + 1
    }
}

/// Whether a pixel is above the local threshold of the window around it. The window
/// ends at the edges.
pub open spec fn above_local(luma: Seq<u8>, w: int, h: int, half: int, k: Real, x: int, y: int) -> bool {
    let (x0, x1) = (window_start(x, half), window_end(x, half, w));
    let (y0, y1) = (window_start(y, half), window_end(y, half, h));
    local_threshold(
        sum_box(luma_at(luma, w), x0, x1, y0, y1),
        sum_box(luma_square_at(luma, w), x0, x1, y0, y1),
        (x1 - x0) * (y1 - y0),
        k,
    ).below(Real::of_byte(luma[place(w, x, y)]))
}

/// A pixel in white or black. Opacity stays.
#[verifier::allow_in_spec]
pub fn paint(p: Rgba32, white: bool) -> Rgba32
    returns
        (if white {
            Rgba32 {
                r: Real32 { bits: SHORT_ONE },
                g: Real32 { bits: SHORT_ONE },
                b: Real32 { bits: SHORT_ONE },
                a: p.a,
            }
        } else {
            Rgba32 {
                r: Real32 { bits: SHORT_ZERO },
                g: Real32 { bits: SHORT_ZERO },
                b: Real32 { bits: SHORT_ZERO },
                a: p.a,
            }
        }),
{
    let v: Real32 = if white {
        Real32 { bits: SHORT_ONE }
    } else {
        Real32 { bits: SHORT_ZERO }
    };
    Rgba32 { r: v, g: v, b: v, a: p.a }
}

/// `out` is `img` in white, where the luminance is above `t`, and black, or the other
/// way round.
pub open spec fn is_cut_at(img: LinearImage, t: u8, invert: bool, out: LinearImage) -> bool {
    &&& out.well_formed()
    &&& out.width == img.width
    &&& out.height == img.height
    &&& forall|x: int, y: int|
        0 <= x < img.width && 0 <= y < img.height ==> #[trigger] out.pixel(x, y) == paint(
            img.pixel(x, y),
            (luma_byte(img.pixel(x, y)) > t) != invert,
        )
}

/// `out` is `img` in white, where the luminance is above the local threshold, and black,
/// or the other way round.
pub open spec fn is_cut_locally(
    img: LinearImage,
    half: int,
    k: Real,
    invert: bool,
    out: LinearImage,
) -> bool {
    &&& out.well_formed()
    &&& out.width == img.width
    &&& out.height == img.height
    &&& forall|x: int, y: int|
        0 <= x < img.width && 0 <= y < img.height ==> #[trigger] out.pixel(x, y) == paint(
            img.pixel(x, y),
            above_local(lumas(img), img.width as int, img.height as int, half, k, x, y) != invert,
        )
}

/// `out` is what a threshold makes of `img`.
pub open spec fn is_thresholded(
    img: LinearImage,
    method: ThresholdMethod,
    value: Option<u8>,
    window: Option<u32>,
    k: Option<Real>,
    invert: bool,
    out: LinearImage,
) -> bool {
    match method {
        ThresholdMethod::Fixed => is_cut_at(
            img,
            match value {
                Some(v) => v,
                None => 0,
            },
            invert,
            out,
        ),
        ThresholdMethod::Otsu => exists|hist: Seq<u64>, t: u8|
            #![trigger is_histogram(lumas(img), hist), parts_best(hist, t as int)]
            is_histogram(lumas(img), hist) && parts_best(hist, t as int) && is_cut_at(
                img,
                t,
                invert,
                out,
            ),
        ThresholdMethod::Sauvola => is_cut_locally(
            img,
            match window {
                Some(v) => v / 2,
                None => WINDOW_DEFAULT / 2,
            } as int,
            match k {
                Some(v) => v,
                None => Real { bits: K_DEFAULT },
            },
            invert,
            out,
        ),
    }
}

fn cut_at(img: &LinearImage, t: u8, invert: bool) -> (r: LinearImage)
    requires
        img.well_formed(),
    ensures
        is_cut_at(*img, t, invert, r),
{
    let count: usize = img.data.len();
    let f = |x: u32, y: u32| -> (p: Rgba32)
        requires
            img.well_formed(),
            x < img.width,
            y < img.height,
        ensures
            p == paint(
                img.pixel(x as int, y as int),
                (luma_byte(img.pixel(x as int, y as int)) > t) != invert,
            ),
        {
            let px: Rgba32 = img.get(x, y);
            paint(px, (luma_u8(px) > t) != invert)
        };
    let r: LinearImage = Image::build(img.width, img.height, f);
    proof {
        assert forall|x: int, y: int|
            0 <= x < img.width && 0 <= y < img.height implies #[trigger] r.pixel(x, y) == paint(
            img.pixel(x, y),
            (luma_byte(img.pixel(x, y)) > t) != invert,
        ) by {
            assert(call_ensures(
                f,
                (x as u32, y as u32),
                r.pixel(x as u32 as int, y as u32 as int),
            ));
        }
    }
    r
}

fn is_above_local(
    integral: &Integral,
    luma: &Vec<u8>,
    w: u32,
    h: u32,
    half: u32,
    k: Real,
    x: u32,
    y: u32,
) -> (r: bool)
    requires
        integral.holds(luma@, w as int, h as int),
        x < w,
        y < h,
    ensures
        r == above_local(luma@, w as int, h as int, half as int, k, x as int, y as int),
{
    let count: usize = luma.len();
    let (wu, hu): (usize, usize) = (w as usize, h as usize);
    let x0: usize = if x < half {
        0
    } else {
        (x - half) as usize
    };
    let x1: usize = if half >= w - x {
        wu - 1
    } else {
        (x + half) as usize
    };
    let y0: usize = if y < half {
        0
    } else {
        (y - half) as usize
    };
    let y1: usize = if half >= h - y {
        hu - 1
    } else {
        (y + half) as usize
    };
    let (s, q, n): (u64, u64, u64) = integral.window(x0, y0, x1, y1);
    let t: Real = sauvola_threshold(s, q, n, k);
    proof {
        place_is_inside(w as int, h as int, x as int, y as int);
        let (a, b) = (y as int, w as int);
        assert(0 <= a * b) by (nonlinear_arith)
            requires
                a >= 0,
                b >= 0,
        ;
    }
    t.below(Real::of_byte(luma[y as usize * wu + x as usize]))
}

fn cut_locally(img: &LinearImage, half: u32, k: Real, invert: bool) -> (r: LinearImage)
    requires
        img.well_formed(),
        img.data@.len() <= 0x2000_0000_0000,
        (img.width + 1) * (img.height + 1) <= usize::MAX,
        img.width > 0,
        img.height > 0,
    ensures
        is_cut_locally(*img, half as int, k, invert, r),
{
    let count: usize = img.data.len();
    let luma: Vec<u8> = luma_plane(img);
    let (w, h): (u32, u32) = (img.width, img.height);
    let integral: Integral = Integral::build(&luma, w as usize, h as usize);
    let f = |x: u32, y: u32| -> (p: Rgba32)
        requires
            img.well_formed(),
            w == img.width,
            h == img.height,
            integral.holds(luma@, w as int, h as int),
            x < img.width,
            y < img.height,
        ensures
            p == paint(
                img.pixel(x as int, y as int),
                above_local(
                    luma@,
                    w as int,
                    h as int,
                    half as int,
                    k,
                    x as int,
                    y as int,
                ) != invert,
            ),
        {
            let white: bool = is_above_local(&integral, &luma, w, h, half, k, x, y);
            paint(img.get(x, y), white != invert)
        };
    let r: LinearImage = Image::build(w, h, f);
    proof {
        assert forall|x: int, y: int|
            0 <= x < img.width && 0 <= y < img.height implies #[trigger] r.pixel(x, y) == paint(
            img.pixel(x, y),
            above_local(
                lumas(*img),
                img.width as int,
                img.height as int,
                half as int,
                k,
                x,
                y,
            ) != invert,
        ) by {
            assert(call_ensures(
                f,
                (x as u32, y as u32),
                r.pixel(x as u32 as int, y as u32 as int),
            ));
        }
    }
    r
}

/// Brings an image to black and white. By Otsu's method the squares that are compared fit in
/// 128 bits up to 2^29 pixels; by Sauvola's the tables of sums need room.
pub fn apply(
    img: &LinearImage,
    method: ThresholdMethod,
    value: Option<u8>,
    window: Option<u32>,
    k: Option<Real>,
    invert: bool,
) -> (r: LinearImage)
    requires
        img.well_formed(),
        method == ThresholdMethod::Otsu ==> img.data@.len() <= 0x2000_0000,
        method == ThresholdMethod::Sauvola ==> img.data@.len() <= 0x2000_0000_0000 && (img.width
            + 1) * (img.height + 1) <= usize::MAX,
    ensures
        is_thresholded(*img, method, value, window, k, invert, r),
{
    match method {
        ThresholdMethod::Fixed => {
            let t: u8 = match value {
                Some(v) => v,
                None => 0,
            };
            cut_at(img, t, invert)
        },
        ThresholdMethod::Otsu => {
            let luma: Vec<u8> = luma_plane(img);
            let hist: Vec<u64> = histogram(&luma);
            proof {
                histogram_weight(luma@, hist@);
            }
            let t: u8 = otsu_threshold(&hist);
            assert(is_histogram(lumas(*img), hist@) && parts_best(hist@, t as int));
            cut_at(img, t, invert)
        },
        ThresholdMethod::Sauvola => {
            let side: u32 = match window {
                Some(v) => v,
                None => WINDOW_DEFAULT,
            };
            let sensitivity: Real = match k {
                Some(v) => v,
                None => Real { bits: K_DEFAULT },
            };
            if img.width == 0 || img.height == 0 {
                return cut_at(img, 0, invert);
            }
            cut_locally(img, side / 2, sensitivity, invert)
        },
    }
}

/// One where a value is at most `v`, else nothing.
spec fn one_up_to(s: Seq<u8>, v: int) -> spec_fn(int) -> int {
    |i: int|
        if s[i] <= v {
            1int
        } else {
            0
        }
}

proof fn counts_add_up(s: Seq<u8>, v: int, n: int)
    requires
        0 <= n <= s.len(),
    ensures
        sum_range(one_up_to(s, v), 0, n) == sum_range(one_up_to(s, v - 1), 0, n) + sum_range(
            one_where(s, v),
            0,
            n,
        ),
    decreases n,
{
    if n > 0 {
        counts_add_up(s, v, n - 1);
    }
}

proof fn weights_count(s: Seq<u8>, hist: Seq<u64>, t: int)
    requires
        is_histogram(s, hist),
        -1 <= t < 256,
    ensures
        weight_to(hist, t) == sum_range(one_up_to(s, t), 0, s.len() as int),
    decreases t + 1,
{
    if t >= 0 {
        weights_count(s, hist, t - 1);
        counts_add_up(s, t, s.len() as int);
    } else {
        sum_range_bounds(one_up_to(s, t), 0, s.len() as int, 0, 0);
    }
}

/// The counts of a histogram add up to the number of values.
pub proof fn histogram_weight(s: Seq<u8>, hist: Seq<u64>)
    requires
        is_histogram(s, hist),
    ensures
        weight_to(hist, 255) == s.len(),
{
    weights_count(s, hist, 255);
    sum_range_bounds(one_up_to(s, 255), 0, s.len() as int, 1, 1);
}

} // verus!
