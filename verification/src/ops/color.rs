//! Colour matrix, curves and levels.
use vstd::prelude::*;

use crate::binary::{byte_range, Real};
use crate::error::{first_fault, op_error, op_fault, verdict, AtxError, Fault};
use crate::number::{
    finite, is_finite, is_within, within, Number, BYTE_MAX, EIGHT, MINUS_EIGHT, MINUS_TWO, NINE,
    ONE, TEN, TENTH, THREE, TWO, ZERO,
};
use crate::linear::quantize_1e9;
use crate::raster::{is_mapped, map_pixels, Image, Rgba};
use crate::text::{cat2, cat4, cat5, dec, decimal};
use crate::wholes::{wholes_are_billionths, wholes_round_to_themselves};

verus! {

/// What is wrong with the elements of a colour matrix from place `i` on.
pub open spec fn matrix_element_fault(index: int, matrix: Seq<Number>, i: int) -> Option<Fault>
    decreases matrix.len() - i,
{
    if i >= matrix.len() {
        None
    } else if !finite(matrix[i].bits) {
        op_fault(
            index,
            "color_matrix"@,
            "matrix["@ + decimal(i as nat) + "] must be finite, got "@ + matrix[i].text@,
        )
    } else if !within(matrix[i].bits, MINUS_EIGHT, EIGHT) {
        op_fault(
            index,
            "color_matrix"@,
            "matrix["@ + decimal(i as nat) + "] must be within -8..=8, got "@ + matrix[i].text@,
        )
    } else {
        matrix_element_fault(index, matrix, i + 1)
    }
}

/// What is wrong with a colour matrix: it has 20 elements, each from -8 to 8.
pub open spec fn matrix_fault(index: int, matrix: Seq<Number>) -> Option<Fault> {
    if matrix.len() != 20 {
        op_fault(
            index,
            "color_matrix"@,
            "matrix must have exactly 20 elements (4 rows x 5 columns, row-major), got "@
                + decimal(matrix.len()),
        )
    } else {
        matrix_element_fault(index, matrix, 0)
    }
}

/// Checks a colour matrix.
pub fn validate_matrix(index: usize, matrix: &Vec<Number>) -> (r: Result<(), AtxError>)
    ensures
        verdict(r) == matrix_fault(index as int, matrix@),
{
    if matrix.len() != 20 {
        let number: String = dec(matrix.len() as u64);
        let message: String = cat2(
            "matrix must have exactly 20 elements (4 rows x 5 columns, row-major), got ",
            number.as_str(),
        );
        return Err(op_error(index, "color_matrix", message.as_str()));
    }
    let mut i: usize = 0;
    while i < matrix.len()
        invariant
            i <= matrix.len(),
            matrix@.len() == 20,
            matrix_fault(index as int, matrix@) == matrix_element_fault(
                index as int,
                matrix@,
                i as int,
            ),
        decreases matrix.len() - i,
    {
        let bits: u64 = matrix[i].bits;
        if !is_finite(bits) {
            let number: String = dec(i as u64);
            let message: String = cat4(
                "matrix[",
                number.as_str(),
                "] must be finite, got ",
                matrix[i].text.as_str(),
            );
            return Err(op_error(index, "color_matrix", message.as_str()));
        }
        if !is_within(bits, MINUS_EIGHT, EIGHT) {
            let number: String = dec(i as u64);
            let message: String = cat4(
                "matrix[",
                number.as_str(),
                "] must be within -8..=8, got ",
                matrix[i].text.as_str(),
            );
            return Err(op_error(index, "color_matrix", message.as_str()));
        }
        i = i + 1;
    }
    Ok(())
}

/// What is wrong with the order of the control points from place `i` on.
pub open spec fn curve_order_fault(
    index: int,
    name: Seq<char>,
    points: Seq<[u8; 2]>,
    i: int,
) -> Option<Fault>
    decreases points.len() - i,
{
    if i + 1 >= points.len() {
        None
    } else if points[i][0] >= points[i + 1][0] {
        op_fault(
            index,
            "curves"@,
            name + " control point x values must be strictly increasing, got "@ + decimal(
                points[i + 1][0] as nat,
            ) + " after "@ + decimal(points[i][0] as nat),
        )
    } else {
        curve_order_fault(index, name, points, i + 1)
    }
}

/// What is wrong with one curve: 1 to 32 control points, strictly increasing in x.
pub open spec fn curve_fault(
    index: int,
    name: Seq<char>,
    channel: Option<Vec<[u8; 2]>>,
) -> Option<Fault> {
    match channel {
        None => None,
        Some(points) => if points@.len() == 0 || points@.len() > 32 {
            op_fault(
                index,
                "curves"@,
                name + " must have 1..=32 control points, got "@ + decimal(points@.len()),
            )
        } else {
            curve_order_fault(index, name, points@, 0)
        },
    }
}

/// What is wrong with the parameters of `curves`.
pub open spec fn curves_fault(
    index: int,
    master: Option<Vec<[u8; 2]>>,
    red: Option<Vec<[u8; 2]>>,
    green: Option<Vec<[u8; 2]>>,
    blue: Option<Vec<[u8; 2]>>,
) -> Option<Fault> {
    if master is None && red is None && green is None && blue is None {
        op_fault(index, "curves"@, "at least one of master, red, green, blue is required"@)
    } else {
        first_fault(
            curve_fault(index, "master"@, master),
            first_fault(
                curve_fault(index, "red"@, red),
                first_fault(
                    curve_fault(index, "green"@, green),
                    curve_fault(index, "blue"@, blue),
                ),
            ),
        )
    }
}

/// Checks one curve.
fn validate_curve(index: usize, name: &str, channel: &Option<Vec<[u8; 2]>>) -> (r: Result<
    (),
    AtxError,
>)
    ensures
        verdict(r) == curve_fault(index as int, name@, *channel),
{
    let points: &Vec<[u8; 2]> = match channel {
        None => {
            return Ok(());
        },
        Some(points) => points,
    };
    if points.len() == 0 || points.len() > 32 {
        let number: String = dec(points.len() as u64);
        let message: String = cat2(name, " must have 1..=32 control points, got ");
        let message: String = cat2(message.as_str(), number.as_str());
        return Err(op_error(index, "curves", message.as_str()));
    }
    let mut i: usize = 0;
    while i + 1 < points.len()
        invariant
            points@.len() <= 32,
            i < points.len(),
            *channel == Some(*points),
            curve_fault(index as int, name@, *channel) == curve_order_fault(
                index as int,
                name@,
                points@,
                i as int,
            ),
        decreases points.len() - i,
    {
        let left: u8 = points[i][0];
        let right: u8 = points[i + 1][0];
        if left >= right {
            let after: String = dec(left as u64);
            let got: String = dec(right as u64);
            let message: String = cat5(
                name,
                " control point x values must be strictly increasing, got ",
                got.as_str(),
                " after ",
                after.as_str(),
            );
            return Err(op_error(index, "curves", message.as_str()));
        }
        i = i + 1;
    }
    Ok(())
}

/// Checks the parameters of `curves`.
pub fn validate_curves(
    index: usize,
    master: &Option<Vec<[u8; 2]>>,
    red: &Option<Vec<[u8; 2]>>,
    green: &Option<Vec<[u8; 2]>>,
    blue: &Option<Vec<[u8; 2]>>,
) -> (r: Result<(), AtxError>)
    ensures
        verdict(r) == curves_fault(index as int, *master, *red, *green, *blue),
{
    if master.is_none() && red.is_none() && green.is_none() && blue.is_none() {
        return Err(
            op_error(index, "curves", "at least one of master, red, green, blue is required"),
        );
    }
    match validate_curve(index, "master", master) {
        Err(e) => return Err(e),
        Ok(_) => {},
    }
    match validate_curve(index, "red", red) {
        Err(e) => return Err(e),
        Ok(_) => {},
    }
    match validate_curve(index, "green", green) {
        Err(e) => return Err(e),
        Ok(_) => {},
    }
    validate_curve(index, "blue", blue)
}

/// What is wrong with the parameters of `levels`.
pub open spec fn levels_fault(
    index: int,
    in_black: u8,
    in_white: u8,
    gamma: Number,
    out_black: u8,
    out_white: u8,
) -> Option<Fault> {
    if in_black >= in_white {
        op_fault(
            index,
            "levels"@,
            "in_black must be less than in_white, got in_black="@ + decimal(in_black as nat)
                + ", in_white="@ + decimal(in_white as nat),
        )
    } else if out_black > out_white {
        op_fault(
            index,
            "levels"@,
            "out_black must be less than or equal to out_white, got out_black="@ + decimal(
                out_black as nat,
            ) + ", out_white="@ + decimal(out_white as nat),
        )
    } else if !within(gamma.bits, TENTH, TEN) {
        op_fault(
            index,
            "levels"@,
            "gamma must be a finite value within 0.1..=10, got "@ + gamma.text@,
        )
    } else {
        None
    }
}

/// Checks the parameters of `levels`.
pub fn validate_levels(
    index: usize,
    in_black: u8,
    in_white: u8,
    gamma: &Number,
    out_black: u8,
    out_white: u8,
) -> (r: Result<(), AtxError>)
    ensures
        verdict(r) == levels_fault(index as int, in_black, in_white, *gamma, out_black, out_white),
{
    if in_black >= in_white {
        let black: String = dec(in_black as u64);
        let white: String = dec(in_white as u64);
        let message: String = cat4(
            "in_black must be less than in_white, got in_black=",
            black.as_str(),
            ", in_white=",
            white.as_str(),
        );
        return Err(op_error(index, "levels", message.as_str()));
    }
    if out_black > out_white {
        let black: String = dec(out_black as u64);
        let white: String = dec(out_white as u64);
        let message: String = cat4(
            "out_black must be less than or equal to out_white, got out_black=",
            black.as_str(),
            ", out_white=",
            white.as_str(),
        );
        return Err(op_error(index, "levels", message.as_str()));
    }
    if !is_within(gamma.bits, TENTH, TEN) {
        let message: String = cat2(
            "gamma must be a finite value within 0.1..=10, got ",
            gamma.text.as_str(),
        );
        return Err(op_error(index, "levels", message.as_str()));
    }
    Ok(())
}

/// A number as the nearest byte, on a grid of 1e-9 first; halves go away from zero.
pub open spec fn grid_byte(v: Real) -> u8 {
    byte_range(quantize_1e9(v).round_integer() as int)
}

fn to_range(n: i64) -> (r: u8)
    ensures
        r == byte_range(n as int),
{
    if n < 0 {
        0
    } else if n > 255 {
        255
    } else {
        n as u8
    }
}

fn quantize_round_u8(v: Real) -> (r: u8)
    ensures
        r == grid_byte(v),
{
    to_range(quantize_1e9(v).round_integer())
}

/// A table that gives each byte back.
pub open spec fn is_identity(lut: Seq<u8>) -> bool {
    lut.len() == 256 && forall|i: int| 0 <= i < 256 ==> #[trigger] lut[i] == i
}

/// The table that gives each byte back.
pub fn identity_lut() -> (r: Vec<u8>)
    ensures
        is_identity(r@),
{
    let mut r: Vec<u8> = Vec::new();
    let mut i: u16 = 0;
    while i < 256
        invariant
            i <= 256,
            r@.len() == i,
            forall|k: int| 0 <= k < i ==> #[trigger] r@[k] == k,
        decreases 256 - i,
    {
        r.push(i as u8);
        i = i + 1;
    }
    r
}

/// The columns of the points are in strictly ascending order.
pub open spec fn ascending(points: Seq<[u8; 2]>) -> bool {
    forall|i: int, j: int| 0 <= i < j < points.len() ==> points[i][0] < points[j][0]
}

/// The slope between the points `k` and `k + 1`.
pub open spec fn slope(points: Seq<[u8; 2]>, k: int) -> Real {
    Real::of_byte(points[k + 1][1]).minus(Real::of_byte(points[k][1])).over(
        Real::of_byte(points[k + 1][0]).minus(Real::of_byte(points[k][0])),
    )
}

/// The slopes between neighbouring points.
pub open spec fn slopes(points: Seq<[u8; 2]>) -> Seq<Real> {
    Seq::new((points.len() - 1) as nat, |k: int| slope(points, k))
}

/// The tangent at point `k` before it is limited: at the ends the slope there, else the
/// mean of the two slopes.
pub open spec fn first_tangent(d: Seq<Real>, k: int) -> Real {
    if k == 0 {
        d[0]
    } else if k == d.len() {
        d[d.len() - 1]
    } else {
        d[k - 1].plus(d[k]).over(Real { bits: TWO })
    }
}

/// The tangents before they are limited.
pub open spec fn first_tangents(d: Seq<Real>) -> Seq<Real> {
    Seq::new(d.len() + 1, |k: int| first_tangent(d, k))
}

/// A tangent that does not point against the slope.
#[verifier::allow_in_spec]
pub fn with_slope(m: Real, d: Real) -> Real
    returns
        (if m.over(d).below(Real { bits: ZERO }) {
            Real { bits: ZERO }
        } else {
            m
        }),
{
    let zero: Real = Real { bits: ZERO };
    if m.over(d).below(zero) {
        zero
    } else {
        m
    }
}

/// The tangents at the two ends of a stretch with slope `d`, short enough for the curve
/// to stay between its ends.
pub open spec fn limited(m0: Real, m1: Real, d: Real) -> (Real, Real) {
    let zero = Real { bits: ZERO };
    if d.same(zero) {
        (zero, zero)
    } else {
        let a = with_slope(m0, d);
        let b = with_slope(m1, d);
        let alpha = a.over(d);
        let beta = b.over(d);
        let s = alpha.times(alpha).plus(beta.times(beta));
        if (Real { bits: NINE }).below(s) {
            let tau = (Real { bits: THREE }).over(s.root());
            (tau.times(alpha).times(d), tau.times(beta).times(d))
        } else {
            (a, b)
        }
    }
}

fn limit(m0: Real, m1: Real, d: Real) -> (r: (Real, Real))
    ensures
        r == limited(m0, m1, d),
{
    let zero: Real = Real { bits: ZERO };
    if d.same(zero) {
        return (zero, zero);
    }
    let a: Real = with_slope(m0, d);
    let b: Real = with_slope(m1, d);
    let alpha: Real = a.over(d);
    let beta: Real = b.over(d);
    let s: Real = alpha.times(alpha).plus(beta.times(beta));
    let nine: Real = Real { bits: NINE };
    if nine.below(s) {
        let three: Real = Real { bits: THREE };
        let tau: Real = three.over(s.root());
        (tau.times(alpha).times(d), tau.times(beta).times(d))
    } else {
        (a, b)
    }
}

/// The tangents after the first `n` stretches have been limited, one after the other.
pub open spec fn limited_tangents(d: Seq<Real>, n: nat) -> Seq<Real>
    decreases n,
{
    if n == 0 {
        first_tangents(d)
    } else {
        let m = limited_tangents(d, (n - 1) as nat);
        let (a, b) = limited(m[n - 1], m[n as int], d[n - 1]);
        m.update(n - 1, a).update(n as int, b)
    }
}

/// The tangents of a curve.
pub open spec fn tangents(points: Seq<[u8; 2]>) -> Seq<Real> {
    limited_tangents(slopes(points), slopes(points).len())
}

/// The first stretch from `s` on that ends beyond `x`, or the last.
pub open spec fn stretch_from(points: Seq<[u8; 2]>, x: int, s: int) -> int
    decreases points.len() - s,
{
    if s + 2 < points.len() && points[s + 1][0] <= x {
        stretch_from(points, x, s + 1)
    } else {
        s
    }
}

/// The cubic between two points at the part `t` of a stretch of length `h`.
#[verifier::allow_in_spec]
pub fn hermite(t: Real, h: Real, y0: Real, y1: Real, m0: Real, m1: Real) -> Real
    returns
        (Real { bits: TWO }).times(t.times(t).times(t)).minus(
            (Real { bits: THREE }).times(t.times(t)),
        ).plus(Real { bits: ONE }).times(y0).plus(
            t.times(t).times(t).minus((Real { bits: TWO }).times(t.times(t))).plus(t).times(
                h,
            ).times(m0),
        ).plus(
            (Real { bits: MINUS_TWO }).times(t.times(t).times(t)).plus(
                (Real { bits: THREE }).times(t.times(t)),
            ).times(y1),
        ).plus(t.times(t).times(t).minus(t.times(t)).times(h).times(m1)),
{
    let (two, three): (Real, Real) = (Real { bits: TWO }, Real { bits: THREE });
    let minus_two: Real = Real { bits: MINUS_TWO };
    let t2: Real = t.times(t);
    let t3: Real = t2.times(t);
    let h00: Real = two.times(t3).minus(three.times(t2)).plus(Real { bits: ONE });
    let h10: Real = t3.minus(two.times(t2)).plus(t);
    let h01: Real = minus_two.times(t3).plus(three.times(t2));
    let h11: Real = t3.minus(t2);
    h00.times(y0).plus(h10.times(h).times(m0)).plus(h01.times(y1)).plus(h11.times(h).times(m1))
}

/// The height of a curve at `x`. Beyond its ends a curve is flat.
pub open spec fn curve_height(points: Seq<[u8; 2]>, x: int) -> Real {
    let n = points.len() as int;
    if x <= points[0][0] {
        Real::of_byte(points[0][1])
    } else if x >= points[n - 1][0] {
        Real::of_byte(points[n - 1][1])
    } else {
        let s = stretch_from(points, x, 0);
        let x0 = Real::of_byte(points[s][0]);
        let h = Real::of_byte(points[s + 1][0]).minus(x0);
        let t = Real::nearest_to(x).minus(x0).over(h);
        let m = tangents(points);
        hermite(
            t,
            h,
            Real::of_byte(points[s][1]),
            Real::of_byte(points[s + 1][1]),
            m[s],
            m[s + 1],
        )
    }
}

/// `lut` is the table of a curve: the identity without points, a constant for one, else
/// the heights of the curve.
pub open spec fn is_curve(points: Seq<[u8; 2]>, lut: Seq<u8>) -> bool {
    &&& lut.len() == 256
    &&& points.len() == 0 ==> is_identity(lut)
    &&& points.len() == 1 ==> forall|i: int| 0 <= i < 256 ==> #[trigger] lut[i] == points[0][1]
    &&& points.len() >= 2 ==> forall|i: int|
        0 <= i < 256 ==> #[trigger] lut[i] == grid_byte(curve_height(points, i))
}

fn find_slopes(points: &Vec<[u8; 2]>) -> (d: Vec<Real>)
    requires
        points@.len() >= 2,
    ensures
        d@ == slopes(points@),
{
    let mut d: Vec<Real> = Vec::new();
    let mut k: usize = 0;
    while k < points.len() - 1
        invariant
            points@.len() >= 2,
            k <= points@.len() - 1,
            d@ =~= slopes(points@).take(k as int),
        decreases points.len() - 1 - k,
    {
        let rise: Real = Real::of_byte(points[k + 1][1]).minus(Real::of_byte(points[k][1]));
        let run: Real = Real::of_byte(points[k + 1][0]).minus(Real::of_byte(points[k][0]));
        d.push(rise.over(run));
        k = k + 1;
    }
    d
}

fn find_tangents(d: &Vec<Real>) -> (m: Vec<Real>)
    requires
        d@.len() >= 1,
        d@.len() < usize::MAX,
    ensures
        m@ == limited_tangents(d@, d@.len()),
{
    let mut m: Vec<Real> = Vec::new();
    let mut k: usize = 0;
    while k <= d.len()
        invariant
            1 <= d@.len() < usize::MAX,
            k <= d@.len() + 1,
            m@ =~= first_tangents(d@).take(k as int),
        decreases d.len() + 1 - k,
    {
        let t: Real = if k == 0 {
            d[0]
        } else if k == d.len() {
            d[d.len() - 1]
        } else {
            d[k - 1].plus(d[k]).over(Real { bits: TWO })
        };
        m.push(t);
        k = k + 1;
    }
    let mut n: usize = 0;
    while n < d.len()
        invariant
            n <= d@.len(),
            1 <= d@.len() < usize::MAX,
            m@.len() == d@.len() + 1,
            m@ =~= limited_tangents(d@, n as nat),
        decreases d.len() - n,
    {
        let (a, b): (Real, Real) = limit(m[n], m[n + 1], d[n]);
        m.set(n, a);
        m.set(n + 1, b);
        n = n + 1;
    }
    m
}

fn find_height(points: &Vec<[u8; 2]>, m: &Vec<Real>, x: u16) -> (r: Real)
    requires
        points@.len() >= 2,
        m@ == tangents(points@),
        m@.len() == points@.len(),
        x < 256,
    ensures
        r == curve_height(points@, x as int),
{
    let n: usize = points.len();
    if x <= points[0][0] as u16 {
        return Real::of_byte(points[0][1]);
    }
    if x >= points[n - 1][0] as u16 {
        return Real::of_byte(points[n - 1][1]);
    }
    let mut s: usize = 0;
    while s + 2 < n && points[s + 1][0] as u16 <= x
        invariant
            n == points@.len(),
            n >= 2,
            s + 2 <= n,
            stretch_from(points@, x as int, s as int) == stretch_from(points@, x as int, 0),
        decreases n - s,
    {
        s = s + 1;
    }
    let x0: Real = Real::of_byte(points[s][0]);
    let h: Real = Real::of_byte(points[s + 1][0]).minus(x0);
    let t: Real = Real::from_integer(x as i64).minus(x0).over(h);
    hermite(
        t,
        h,
        Real::of_byte(points[s][1]),
        Real::of_byte(points[s + 1][1]),
        m[s],
        m[s + 1],
    )
}

/// The table of a curve through points in ascending order.
pub fn lut_from_points(points: &Vec<[u8; 2]>) -> (r: Vec<u8>)
    requires
        ascending(points@),
    ensures
        is_curve(points@, r@),
{
    let n: usize = points.len();
    if n == 0 {
        return identity_lut();
    }
    let mut r: Vec<u8> = Vec::new();
    if n == 1 {
        let y: u8 = points[0][1];
        let mut i: u16 = 0;
        while i < 256
            invariant
                i <= 256,
                r@.len() == i,
                forall|k: int| 0 <= k < i ==> #[trigger] r@[k] == y,
            decreases 256 - i,
        {
            r.push(y);
            i = i + 1;
        }
        return r;
    }
    let d: Vec<Real> = find_slopes(points);
    let m: Vec<Real> = find_tangents(&d);
    proof {
        tangents_len(d@, d@.len());
    }
    let mut i: u16 = 0;
    while i < 256
        invariant
            i <= 256,
            points@.len() >= 2,
            m@ == tangents(points@),
            m@.len() == points@.len(),
            r@.len() == i,
            forall|k: int|
                0 <= k < i ==> #[trigger] r@[k] == grid_byte(curve_height(points@, k)),
        decreases 256 - i,
    {
        let y: Real = find_height(points, &m, i);
        r.push(quantize_round_u8(y));
        i = i + 1;
    }
    r
}

proof fn tangents_len(d: Seq<Real>, n: nat)
    requires
        n <= d.len(),
    ensures
        limited_tangents(d, n).len() == d.len() + 1,
    decreases n,
{
    if n > 0 {
        tangents_len(d, (n - 1) as nat);
    }
}

/// `first`, then `second`.
pub open spec fn is_composed(first: Seq<u8>, second: Seq<u8>, out: Seq<u8>) -> bool {
    out.len() == 256 && forall|i: int|
        0 <= i < 256 ==> #[trigger] out[i] == second[first[i] as int]
}

/// The table that applies `first`, then `second`.
pub fn compose(first: &Vec<u8>, second: &Vec<u8>) -> (r: Vec<u8>)
    requires
        first@.len() == 256,
        second@.len() == 256,
    ensures
        is_composed(first@, second@, r@),
{
    let mut r: Vec<u8> = Vec::new();
    let mut i: usize = 0;
    while i < 256
        invariant
            i <= 256,
            first@.len() == 256,
            second@.len() == 256,
            r@.len() == i,
            forall|k: int| 0 <= k < i ==> #[trigger] r@[k] == second@[first@[k] as int],
        decreases 256 - i,
    {
        r.push(second[first[i] as usize]);
        i = i + 1;
    }
    r
}

/// A colour looked up in a table for each channel. Opacity stays.
pub open spec fn looked_up(red: Seq<u8>, green: Seq<u8>, blue: Seq<u8>, p: Rgba) -> Rgba {
    Rgba { r: red[p.r as int], g: green[p.g as int], b: blue[p.b as int], a: p.a }
}

/// Looks each channel up in its table.
pub fn apply_rgb_luts(img: &Image<Rgba>, red: &Vec<u8>, green: &Vec<u8>, blue: &Vec<u8>) -> (r:
    Image<Rgba>)
    requires
        img.well_formed(),
        red@.len() == 256,
        green@.len() == 256,
        blue@.len() == 256,
    ensures
        is_mapped(*img, r, |p: Rgba| looked_up(red@, green@, blue@, p)),
{
    let f = |p: Rgba| -> (q: Rgba)
        requires
            red@.len() == 256,
            green@.len() == 256,
            blue@.len() == 256,
        ensures
            q == looked_up(red@, green@, blue@, p),
        {
            Rgba {
                r: red[p.r as usize],
                g: green[p.g as usize],
                b: blue[p.b as usize],
                a: p.a,
            }
        };
    map_pixels(img, f, Ghost(|p: Rgba| looked_up(red@, green@, blue@, p)))
}

/// A row of a colour matrix times a colour from 0 to 1.
#[verifier::allow_in_spec]
pub fn matrix_row(m0: Real, m1: Real, m2: Real, m3: Real, m4: Real, p: Rgba) -> u8
    returns
        byte_range(
            m0.times(Real::of_byte(p.r).over(Real { bits: BYTE_MAX })).plus(
                m1.times(Real::of_byte(p.g).over(Real { bits: BYTE_MAX })),
            ).plus(m2.times(Real::of_byte(p.b).over(Real { bits: BYTE_MAX }))).plus(
                m3.times(Real::of_byte(p.a).over(Real { bits: BYTE_MAX })),
            ).plus(m4).clamped(Real { bits: ZERO }, Real { bits: ONE }).times(
                Real { bits: BYTE_MAX },
            ).round_integer() as int,
        ),
{
    let top: Real = Real { bits: BYTE_MAX };
    let v: Real = m0.times(Real::of_byte(p.r).over(top)).plus(
        m1.times(Real::of_byte(p.g).over(top)),
    ).plus(m2.times(Real::of_byte(p.b).over(top))).plus(
        m3.times(Real::of_byte(p.a).over(top)),
    ).plus(m4);
    to_range(v.clamped(Real { bits: ZERO }, Real { bits: ONE }).times(top).round_integer())
}

/// A colour times a matrix of four rows and five columns. A matrix of another size
/// leaves it as it is.
pub open spec fn matrix_pixel(m: Seq<Real>, p: Rgba) -> Rgba {
    if m.len() != 20 {
        p
    } else {
        Rgba {
            r: matrix_row(m[0], m[1], m[2], m[3], m[4], p),
            g: matrix_row(m[5], m[6], m[7], m[8], m[9], p),
            b: matrix_row(m[10], m[11], m[12], m[13], m[14], p),
            a: matrix_row(m[15], m[16], m[17], m[18], m[19], p),
        }
    }
}

fn multiply_pixel(m: &Vec<Real>, p: Rgba) -> (q: Rgba)
    ensures
        q == matrix_pixel(m@, p),
{
    if m.len() != 20 {
        return p;
    }
    Rgba {
        r: matrix_row(m[0], m[1], m[2], m[3], m[4], p),
        g: matrix_row(m[5], m[6], m[7], m[8], m[9], p),
        b: matrix_row(m[10], m[11], m[12], m[13], m[14], p),
        a: matrix_row(m[15], m[16], m[17], m[18], m[19], p),
    }
}

/// Multiplies each colour, with its opacity, with a matrix.
pub fn color_matrix(img: &Image<Rgba>, matrix: &Vec<Real>) -> (r: Image<Rgba>)
    requires
        img.well_formed(),
    ensures
        is_mapped(*img, r, |p: Rgba| matrix_pixel(matrix@, p)),
{
    let f = |p: Rgba| -> (q: Rgba)
        ensures
            q == matrix_pixel(matrix@, p),
        { multiply_pixel(matrix, p) };
    map_pixels(img, f, Ghost(|p: Rgba| matrix_pixel(matrix@, p)))
}

/// The points of a curve that may be left out; left out it is the identity.
pub open spec fn points_of(curve: Option<Vec<[u8; 2]>>) -> Seq<[u8; 2]> {
    match curve {
        Some(points) => points@,
        None => Seq::empty(),
    }
}

fn lut_of(curve: &Option<Vec<[u8; 2]>>) -> (r: Vec<u8>)
    requires
        ascending(points_of(*curve)),
    ensures
        is_curve(points_of(*curve), r@),
{
    match curve {
        Some(points) => lut_from_points(points),
        None => identity_lut(),
    }
}

/// What curves make of an image: `master` first, then the curve of the channel.
pub open spec fn is_curved(
    img: Image<Rgba>,
    master: Seq<[u8; 2]>,
    red: Seq<[u8; 2]>,
    green: Seq<[u8; 2]>,
    blue: Seq<[u8; 2]>,
    out: Image<Rgba>,
) -> bool {
    exists|m: Seq<u8>, r: Seq<u8>, g: Seq<u8>, b: Seq<u8>|
        {
            &&& #[trigger] is_curve(master, m)
            &&& #[trigger] is_curve(red, r)
            &&& #[trigger] is_curve(green, g)
            &&& #[trigger] is_curve(blue, b)
            &&& is_mapped(
                img,
                out,
                |p: Rgba|
                    Rgba {
                        r: r[m[p.r as int] as int],
                        g: g[m[p.g as int] as int],
                        b: b[m[p.b as int] as int],
                        a: p.a,
                    },
            )
        }
}

/// Applies curves to an image.
pub fn curves(
    img: &Image<Rgba>,
    master: &Option<Vec<[u8; 2]>>,
    red: &Option<Vec<[u8; 2]>>,
    green: &Option<Vec<[u8; 2]>>,
    blue: &Option<Vec<[u8; 2]>>,
) -> (out: Image<Rgba>)
    requires
        img.well_formed(),
        ascending(points_of(*master)),
        ascending(points_of(*red)),
        ascending(points_of(*green)),
        ascending(points_of(*blue)),
    ensures
        is_curved(
            *img,
            points_of(*master),
            points_of(*red),
            points_of(*green),
            points_of(*blue),
            out,
        ),
{
    let m: Vec<u8> = lut_of(master);
    let r: Vec<u8> = lut_of(red);
    let g: Vec<u8> = lut_of(green);
    let b: Vec<u8> = lut_of(blue);
    let mr: Vec<u8> = compose(&m, &r);
    let mg: Vec<u8> = compose(&m, &g);
    let mb: Vec<u8> = compose(&m, &b);
    let out: Image<Rgba> = apply_rgb_luts(img, &mr, &mg, &mb);
    proof {
        let f = |p: Rgba|
            Rgba {
                r: r@[m@[p.r as int] as int],
                g: g@[m@[p.g as int] as int],
                b: b@[m@[p.b as int] as int],
                a: p.a,
            };
        assert(is_mapped(*img, out, f));
        assert(is_curve(points_of(*master), m@) && is_curve(points_of(*red), r@) && is_curve(
            points_of(*green),
            g@,
        ) && is_curve(points_of(*blue), b@));
    }
    out
}

/// Where a byte lies between black and white, from 0 to 1.
pub open spec fn level_input(i: int, in_black: u8, in_white: u8) -> Real {
    let low = Real::of_byte(in_black);
    let zero = Real { bits: ZERO };
    let one = Real { bits: ONE };
    let difference = Real::of_byte(in_white).minus(low);
    let span = if zero.below(difference) {
        difference
    } else {
        one
    };
    Real::nearest_to(i).minus(low).over(span).clamped(zero, one)
}

/// Where a byte lies between black and white, from 0 to 1.
pub fn levels_input(i: u8, in_black: u8, in_white: u8) -> (r: Real)
    ensures
        r == level_input(i as int, in_black, in_white),
{
    let low: Real = Real::of_byte(in_black);
    let zero: Real = Real { bits: ZERO };
    let one: Real = Real { bits: ONE };
    let difference: Real = Real::of_byte(in_white).minus(low);
    let span: Real = if zero.below(difference) {
        difference
    } else {
        one
    };
    Real::of_byte(i).minus(low).over(span).clamped(zero, one)
}

/// The exponent that shapes levels, one over gamma.
#[verifier::allow_in_spec]
pub fn levels_exponent(gamma: Real) -> Real
    returns
        (Real { bits: ONE }).over(gamma),
{
    let one: Real = Real { bits: ONE };
    one.over(gamma)
}

/// An entry of the table of levels. `powers` are the inputs to the power of the
/// exponent; they are not used where gamma is 1.
pub open spec fn level_entry(
    i: int,
    in_black: u8,
    in_white: u8,
    gamma: Real,
    out_black: u8,
    out_white: u8,
    powers: Seq<Real>,
) -> u8 {
    let shaped = if gamma.same(Real { bits: ONE }) {
        level_input(i, in_black, in_white)
    } else {
        powers[i]
    };
    let low = Real::of_byte(out_black);
    grid_byte(low.plus(shaped.times(Real::of_byte(out_white).minus(low))))
}

/// The table of levels.
pub fn levels_lut(
    in_black: u8,
    in_white: u8,
    gamma: Real,
    out_black: u8,
    out_white: u8,
    powers: &Vec<Real>,
) -> (r: Vec<u8>)
    requires
        powers@.len() == 256,
    ensures
        r@.len() == 256,
        forall|i: int|
            0 <= i < 256 ==> #[trigger] r@[i] == level_entry(
                i,
                in_black,
                in_white,
                gamma,
                out_black,
                out_white,
                powers@,
            ),
{
    let mut r: Vec<u8> = Vec::new();
    let plain: bool = gamma.same(Real { bits: ONE });
    let low: Real = Real::of_byte(out_black);
    let span: Real = Real::of_byte(out_white).minus(low);
    let mut i: u16 = 0;
    while i < 256
        invariant
            i <= 256,
            powers@.len() == 256,
            plain == gamma.same(Real { bits: ONE }),
            low == Real::of_byte(out_black),
            span == Real::of_byte(out_white).minus(low),
            r@.len() == i,
            forall|k: int|
                0 <= k < i ==> #[trigger] r@[k] == level_entry(
                    k,
                    in_black,
                    in_white,
                    gamma,
                    out_black,
                    out_white,
                    powers@,
                ),
        decreases 256 - i,
    {
        let shaped: Real = if plain {
            levels_input(i as u8, in_black, in_white)
        } else {
            powers[i as usize]
        };
        r.push(quantize_round_u8(low.plus(shaped.times(span))));
        i = i + 1;
    }
    r
}

/// A pixel after levels. Opacity stays.
pub open spec fn leveled(
    p: Rgba,
    in_black: u8,
    in_white: u8,
    gamma: Real,
    out_black: u8,
    out_white: u8,
    powers: Seq<Real>,
) -> Rgba {
    Rgba {
        r: level_entry(p.r as int, in_black, in_white, gamma, out_black, out_white, powers),
        g: level_entry(p.g as int, in_black, in_white, gamma, out_black, out_white, powers),
        b: level_entry(p.b as int, in_black, in_white, gamma, out_black, out_white, powers),
        a: p.a,
    }
}

/// Applies levels to an image.
pub fn levels(
    img: &Image<Rgba>,
    in_black: u8,
    in_white: u8,
    gamma: Real,
    out_black: u8,
    out_white: u8,
    powers: &Vec<Real>,
) -> (r: Image<Rgba>)
    requires
        img.well_formed(),
        powers@.len() == 256,
    ensures
        is_mapped(
            *img,
            r,
            |p: Rgba| leveled(p, in_black, in_white, gamma, out_black, out_white, powers@),
        ),
{
    let lut: Vec<u8> = levels_lut(in_black, in_white, gamma, out_black, out_white, powers);
    apply_rgb_luts(img, &lut, &lut, &lut)
}

/// Beyond its first and last points a curve stays at their heights.
pub proof fn curves_are_flat_beyond_their_ends(points: Seq<[u8; 2]>, lut: Seq<u8>, i: int)
    requires
        is_curve(points, lut),
        ascending(points),
        points.len() > 0,
        0 <= i < 256,
    ensures
        i <= points[0][0] ==> lut[i] == points[0][1],
        i >= points.last()[0] ==> lut[i] == points.last()[1],
{
    if points.len() >= 2 {
        assert(lut[i] == grid_byte(curve_height(points, i)));
        bytes_stay_on_the_grid(points[0][1]);
        bytes_stay_on_the_grid(points.last()[1]);
    }
}

proof fn bytes_stay_on_the_grid(b: u8)
    ensures
        grid_byte(Real::of_byte(b)) == b,
{
    wholes_are_billionths(b as nat);
    wholes_round_to_themselves(b as nat);
}

} // verus!
