//! Resizing with a Lanczos window, on light times opacity.
//!
//! The window needs sines. `window_angles` lists the angles, and what is made from their
//! sines is verified for every value of them.
use vstd::prelude::*;

use crate::binary::{Real, Real32};
use crate::linear::{
    premultiplied, premultiplied_pixel, unpremultiplied_pixel, unpremultiply, LinearImage,
};
use crate::number::{HALF, ONE, SHORT_ZERO, THREE, ZERO};
use crate::pixel_ops::{show_size, size_text};
use crate::raster::{copy, inside, mapped_pixel, Image, Rgba32};
use crate::text::cat5;

verus! {

/// Pi.
pub const PI: u64 = 0x4009_21FB_5444_2D18;

/// 1e-12.
pub const AT_ZERO: u64 = 0x3D71_9799_812D_EA11;

/// The sines of an angle and of a third of it.
#[derive(Clone, Copy, Debug, PartialEq, Eq, Structural)]
pub struct Sines {
    pub whole: Real,
    pub third: Real,
}

/// The Lanczos window with three lobes. `sines` are those of pi times `x`.
pub open spec fn window(x: Real, sines: Sines) -> Real {
    let three = Real { bits: THREE };
    let angle = (Real { bits: PI }).times(x);
    if x.absolute().below(Real { bits: AT_ZERO }) {
        Real { bits: ONE }
    } else if three.at_most(x.absolute()) {
        Real { bits: ZERO }
    } else {
        sines.whole.over(angle).times(sines.third.over(angle.over(three)))
    }
}

/// The Lanczos window with three lobes. `sines` are those of pi times `x`.
pub fn lanczos3(x: Real, sines: Sines) -> (r: Real)
    ensures
        r == window(x, sines),
{
    let three: Real = Real { bits: THREE };
    if x.absolute().below(Real { bits: AT_ZERO }) {
        return Real { bits: ONE };
    }
    if three.at_most(x.absolute()) {
        return Real { bits: ZERO };
    }
    let pi: Real = Real { bits: PI };
    let angle: Real = pi.times(x);
    sines.whole.over(angle).times(sines.third.over(angle.over(three)))
}

/// Where the source of one place of the result lies.
#[derive(Clone, Copy, Debug, PartialEq, Eq, Structural)]
pub struct Reach {
    /// The middle of the place, in the coordinates of the source.
    pub center: Real,
    /// How much wider than usual the window is.
    pub stretch: Real,
    /// The first and the last place of the source in the window.
    pub first: i64,
    pub last: i64,
}

/// How many places of the source one place of the result stands for.
#[verifier::allow_in_spec]
pub fn length_ratio(src_len: u32, dst_len: u32) -> Real
    returns
        Real::nearest_to(src_len as int).over(Real::nearest_to(dst_len as int)),
{
    Real::from_integer(src_len as i64).over(Real::from_integer(dst_len as i64))
}

/// How much the window is widened: by the ratio, where the result is smaller.
#[verifier::allow_in_spec]
pub fn stretch_of(ratio: Real) -> Real
    returns
        (if (Real { bits: ONE }).below(ratio) {
            ratio
        } else {
            Real { bits: ONE }
        }),
{
    let one: Real = Real { bits: ONE };
    if one.below(ratio) {
        ratio
    } else {
        one
    }
}

/// Where the source of place `o` of the result lies.
pub open spec fn reach(src_len: u32, dst_len: u32, o: u32) -> Reach {
    let half = Real { bits: HALF };
    let ratio = length_ratio(src_len, dst_len);
    let stretch = stretch_of(ratio);
    let support = (Real { bits: THREE }).times(stretch);
    let center = Real::nearest_to(o as int).plus(half).times(ratio);
    Reach {
        center,
        stretch,
        first: center.minus(support).minus(half).ceiling_integer(),
        last: center.plus(support).minus(half).floor_integer(),
    }
}

/// Where the source of place `o` of the result lies.
pub fn find_reach(src_len: u32, dst_len: u32, o: u32) -> (r: Reach)
    ensures
        r == reach(src_len, dst_len, o),
{
    let half: Real = Real { bits: HALF };
    let three: Real = Real { bits: THREE };
    let ratio: Real = length_ratio(src_len, dst_len);
    let stretch: Real = stretch_of(ratio);
    let support: Real = three.times(stretch);
    let center: Real = Real::from_integer(o as i64).plus(half).times(ratio);
    Reach {
        center,
        stretch,
        first: center.minus(support).minus(half).ceiling_integer(),
        last: center.plus(support).minus(half).floor_integer(),
    }
}

impl Reach {
    /// How many places of the source are in the window.
    pub open spec fn taps(self) -> nat {
        if self.first <= self.last {
            (self.last - self.first + 1) as nat
        } else {
            0
        }
    }

    /// Where in the window place `first + k` of the source lies.
    pub open spec fn offset(self, k: int) -> Real {
        Real::nearest_to(self.first + k).plus(Real { bits: HALF }).minus(self.center).over(
            self.stretch,
        )
    }

    /// Where in the window place `i` of the source lies.
    fn find_offset(self, i: i64) -> (r: Real)
        ensures
            r == self.offset(i - self.first),
    {
        Real::from_integer(i).plus(Real { bits: HALF }).minus(self.center).over(self.stretch)
    }
}

/// The angles whose sines place `o` of the result needs.
pub open spec fn angles_at(src_len: u32, dst_len: u32, o: u32) -> Seq<Real> {
    let at = reach(src_len, dst_len, o);
    Seq::new(at.taps(), |k: int| (Real { bits: PI }).times(at.offset(k)))
}

fn list_angles(src_len: u32, dst_len: u32, o: u32) -> (r: Vec<Real>)
    ensures
        r@ == angles_at(src_len, dst_len, o),
{
    let at: Reach = find_reach(src_len, dst_len, o);
    let pi: Real = Real { bits: PI };
    let mut r: Vec<Real> = Vec::new();
    if at.first > at.last {
        assert(r@ =~= angles_at(src_len, dst_len, o));
        return r;
    }
    let mut i: i64 = at.first;
    r.push(pi.times(at.find_offset(i)));
    while i < at.last
        invariant
            at == reach(src_len, dst_len, o),
            pi == (Real { bits: PI }),
            at.first <= i <= at.last,
            r@.len() == i - at.first + 1,
            forall|k: int| 0 <= k < r@.len() ==> #[trigger] r@[k] == pi.times(at.offset(k)),
        decreases at.last - i,
    {
        i = i + 1;
        r.push(pi.times(at.find_offset(i)));
    }
    assert(r@ =~= angles_at(src_len, dst_len, o));
    r
}

/// The angles whose sines are needed to go from one length to another: a list for each
/// place of the result.
pub fn window_angles(src_len: u32, dst_len: u32) -> (r: Vec<Vec<Real>>)
    ensures
        r@.len() == dst_len,
        forall|o: u32| o < dst_len ==> #[trigger] r@[o as int]@ == angles_at(src_len, dst_len, o),
{
    let mut r: Vec<Vec<Real>> = Vec::new();
    let mut o: u32 = 0;
    while o < dst_len
        invariant
            o <= dst_len,
            r@.len() == o,
            forall|j: u32| j < o ==> #[trigger] r@[j as int]@ == angles_at(src_len, dst_len, j),
        decreases dst_len - o,
    {
        r.push(list_angles(src_len, dst_len, o));
        o = o + 1;
    }
    r
}

/// The part that the source has in one place of the result: a weight for each place from
/// `start` on.
pub struct Contribution {
    pub start: i64,
    pub weights: Vec<Real32>,
}

/// The heights of the window, on a grid of 1e-6.
pub open spec fn heights(at: Reach, sines: Seq<Sines>) -> Seq<Real> {
    Seq::new(at.taps(), |k: int| window(at.offset(k), sines[k]).on_grid())
}

/// The sum of numbers, from the first to the last.
pub open spec fn total(s: Seq<Real>) -> Real
    decreases s.len(),
{
    if s.len() == 0 {
        Real { bits: ZERO }
    } else {
        total(s.drop_last()).plus(s.last())
    }
}

/// Numbers over their sum, where that is not zero.
pub open spec fn shares(raw: Seq<Real>) -> Seq<Real32> {
    let sum = total(raw);
    Seq::new(
        raw.len(),
        |k: int|
            if sum.same(Real { bits: ZERO }) {
                raw[k].narrowed()
            } else {
                raw[k].over(sum).narrowed()
            },
    )
}

/// The weights of place `o` of the result.
pub open spec fn weights_at(src_len: u32, dst_len: u32, o: u32, sines: Seq<Sines>) -> Seq<Real32> {
    shares(heights(reach(src_len, dst_len, o), sines))
}

fn measure_heights(at: Reach, sines: &Vec<Sines>) -> (r: (Vec<Real>, Real))
    requires
        sines@.len() == at.taps(),
    ensures
        r.0@ == heights(at, sines@),
        r.1 == total(r.0@),
{
    let mut raw: Vec<Real> = Vec::new();
    let mut sum: Real = Real { bits: ZERO };
    let mut k: usize = 0;
    while k < sines.len()
        invariant
            sines@.len() == at.taps(),
            k <= sines@.len(),
            raw@ == heights(at, sines@).take(k as int),
            sum == total(raw@),
        decreases sines.len() - k,
    {
        let i: i64 = (at.first as i128 + k as i128) as i64;
        let v: Real = lanczos3(at.find_offset(i), sines[k]).on_grid();
        let ghost before = raw@;
        raw.push(v);
        sum = sum.plus(v);
        proof {
            assert(raw@.drop_last() =~= before);
            assert(raw@ =~= heights(at, sines@).take(k + 1));
        }
        k = k + 1;
    }
    assert(raw@ =~= heights(at, sines@));
    (raw, sum)
}

fn contribution(src_len: u32, dst_len: u32, o: u32, sines: &Vec<Sines>) -> (r: Contribution)
    requires
        sines@.len() == reach(src_len, dst_len, o).taps(),
    ensures
        r.start == reach(src_len, dst_len, o).first,
        r.weights@ == weights_at(src_len, dst_len, o, sines@),
{
    let at: Reach = find_reach(src_len, dst_len, o);
    let (raw, sum): (Vec<Real>, Real) = measure_heights(at, sines);
    let even: bool = sum.same(Real { bits: ZERO });
    let mut weights: Vec<Real32> = Vec::new();
    let mut k: usize = 0;
    while k < raw.len()
        invariant
            sum == total(raw@),
            even == sum.same(Real { bits: ZERO }),
            k <= raw@.len(),
            weights@ == shares(raw@).take(k as int),
        decreases raw.len() - k,
    {
        if even {
            weights.push(raw[k].narrowed());
        } else {
            weights.push(raw[k].over(sum).narrowed());
        }
        proof {
            assert(weights@ =~= shares(raw@).take(k + 1));
        }
        k = k + 1;
    }
    assert(weights@ =~= shares(raw@));
    Contribution { start: at.first, weights }
}

/// There are sines for each place in each window.
pub open spec fn sines_fit(src_len: u32, dst_len: u32, sines: Seq<Vec<Sines>>) -> bool {
    &&& sines.len() == dst_len
    &&& forall|o: u32|
        o < dst_len ==> (#[trigger] sines[o as int])@.len() == reach(src_len, dst_len, o).taps()
}

/// Whether there are sines for each place in each window.
pub fn check_sines(src_len: u32, dst_len: u32, sines: &Vec<Vec<Sines>>) -> (r: bool)
    ensures
        r == sines_fit(src_len, dst_len, sines@),
{
    if sines.len() as u64 != dst_len as u64 {
        return false;
    }
    let mut o: u32 = 0;
    while o < dst_len
        invariant
            o <= dst_len,
            sines@.len() == dst_len,
            forall|j: u32|
                j < o ==> (#[trigger] sines@[j as int])@.len() == reach(src_len, dst_len, j).taps(),
        decreases dst_len - o,
    {
        let at: Reach = find_reach(src_len, dst_len, o);
        let taps: i128 = if at.first > at.last {
            0
        } else {
            at.last as i128 - at.first as i128 + 1
        };
        if sines[o as usize].len() as i128 != taps {
            assert(sines@[o as int]@.len() != reach(src_len, dst_len, o).taps());
            return false;
        }
        o = o + 1;
    }
    true
}

/// Each place of the result has its part of the source.
pub open spec fn contributions_are(
    src_len: u32,
    dst_len: u32,
    sines: Seq<Vec<Sines>>,
    parts: Seq<Contribution>,
) -> bool {
    &&& parts.len() == dst_len
    &&& forall|o: u32|
        o < dst_len ==> (#[trigger] parts[o as int]).start == reach(src_len, dst_len, o).first
            && parts[o as int].weights@ == weights_at(src_len, dst_len, o, sines[o as int]@)
}

/// The parts that the source has in the places of the result.
pub fn build_contributions(src_len: u32, dst_len: u32, sines: &Vec<Vec<Sines>>) -> (r: Vec<
    Contribution,
>)
    requires
        sines_fit(src_len, dst_len, sines@),
    ensures
        contributions_are(src_len, dst_len, sines@, r@),
{
    let mut r: Vec<Contribution> = Vec::new();
    let mut o: u32 = 0;
    while o < dst_len
        invariant
            sines_fit(src_len, dst_len, sines@),
            o <= dst_len,
            r@.len() == o,
            forall|j: u32|
                j < o ==> (#[trigger] r@[j as int]).start == reach(src_len, dst_len, j).first
                    && r@[j as int].weights@ == weights_at(src_len, dst_len, j, sines@[j as int]@),
        decreases dst_len - o,
    {
        assert(sines@[o as int]@.len() == reach(src_len, dst_len, o).taps());
        r.push(contribution(src_len, dst_len, o, &sines[o as usize]));
        o = o + 1;
    }
    r
}

/// No colour at all.
#[verifier::allow_in_spec]
pub fn no_colour() -> Rgba32
    returns
        (Rgba32 {
            r: Real32 { bits: SHORT_ZERO },
            g: Real32 { bits: SHORT_ZERO },
            b: Real32 { bits: SHORT_ZERO },
            a: Real32 { bits: SHORT_ZERO },
        }),
{
    let o: Real32 = Real32 { bits: SHORT_ZERO };
    Rgba32 { r: o, g: o, b: o, a: o }
}

/// A sum of colours with one more weighted colour.
#[verifier::allow_in_spec]
pub fn with_part(acc: Rgba32, p: Rgba32, weight: Real32) -> Rgba32
    returns
        (Rgba32 {
            r: acc.r.plus(p.r.times(weight)),
            g: acc.g.plus(p.g.times(weight)),
            b: acc.b.plus(p.b.times(weight)),
            a: acc.a.plus(p.a.times(weight)),
        }),
{
    Rgba32 {
        r: acc.r.plus(p.r.times(weight)),
        g: acc.g.plus(p.g.times(weight)),
        b: acc.b.plus(p.b.times(weight)),
        a: acc.a.plus(p.a.times(weight)),
    }
}

/// The first `n` parts of the sum along row `y`, of colours times opacity. Beyond an edge
/// the last pixel goes on.
pub open spec fn along_row(
    img: LinearImage,
    start: int,
    weights: Seq<Real32>,
    y: int,
    n: nat,
) -> Rgba32
    decreases n,
{
    if n == 0 {
        no_colour()
    } else {
        with_part(
            along_row(img, start, weights, y, (n - 1) as nat),
            premultiplied_pixel(img.pixel(inside(start + n - 1, img.width as int), y)),
            weights[n - 1],
        )
    }
}

/// The first `n` parts of the sum of the rows.
pub open spec fn along_column(
    img: LinearImage,
    across: (int, Seq<Real32>),
    start: int,
    weights: Seq<Real32>,
    n: nat,
) -> Rgba32
    decreases n,
{
    if n == 0 {
        no_colour()
    } else {
        with_part(
            along_column(img, across, start, weights, (n - 1) as nat),
            along_row(
                img,
                across.0,
                across.1,
                inside(start + n - 1, img.height as int),
                across.1.len(),
            ),
            weights[n - 1],
        )
    }
}

/// What one place of a result takes from the source: where it begins, and its weights.
pub open spec fn part_at(src_len: u32, dst_len: u32, sines: Seq<Vec<Sines>>, o: int) -> (
    int,
    Seq<Real32>,
) {
    (
        reach(src_len, dst_len, o as u32).first as int,
        weights_at(src_len, dst_len, o as u32, sines[o]@),
    )
}

/// A pixel of the result.
pub open spec fn resized_pixel(img: LinearImage, across: (int, Seq<Real32>), down: (
    int,
    Seq<Real32>,
)) -> Rgba32 {
    unpremultiplied_pixel(along_column(img, across, down.0, down.1, down.1.len()))
}

/// The window of a place does not reach beyond what a position can hold.
spec fn in_bounds(part: Contribution) -> bool {
    part.start + part.weights@.len() <= i64::MAX + 1
}

/// Beyond an edge the last pixel goes on.
fn tap(start: i64, k: usize, len: u32) -> (r: u32)
    requires
        len > 0,
        start + k <= i64::MAX,
    ensures
        r == inside(start + k, len as int),
        r < len,
{
    let at: i128 = start as i128 + k as i128;
    if at < 0 {
        0
    } else if at >= len as i128 {
        len - 1
    } else {
        at as u32
    }
}

fn sum_along_row(img: &LinearImage, pre: &LinearImage, part: &Contribution, y: u32) -> (r: Rgba32)
    requires
        img.well_formed(),
        pre.well_formed(),
        pre.width == img.width,
        pre.height == img.height,
        forall|i: int, j: int|
            0 <= i < img.width && 0 <= j < img.height ==> #[trigger] pre.pixel(i, j)
                == premultiplied_pixel(img.pixel(i, j)),
        in_bounds(*part),
        img.width > 0,
        y < img.height,
    ensures
        r == along_row(
            *img,
            part.start as int,
            part.weights@,
            y as int,
            part.weights@.len(),
        ),
{
    let mut acc: Rgba32 = no_colour();
    let mut k: usize = 0;
    while k < part.weights.len()
        invariant
            img.well_formed(),
            pre.well_formed(),
            pre.width == img.width,
            pre.height == img.height,
            forall|i: int, j: int|
                0 <= i < img.width && 0 <= j < img.height ==> #[trigger] pre.pixel(i, j)
                    == premultiplied_pixel(img.pixel(i, j)),
            in_bounds(*part),
            img.width > 0,
            y < img.height,
            k <= part.weights@.len(),
            acc == along_row(*img, part.start as int, part.weights@, y as int, k as nat),
        decreases part.weights.len() - k,
    {
        let x: u32 = tap(part.start, k, img.width);
        acc = with_part(acc, pre.get(x, y), part.weights[k]);
        k = k + 1;
    }
    acc
}

fn sum_along_column(
    img: &LinearImage,
    rows: &LinearImage,
    across: &Contribution,
    part: &Contribution,
    x: u32,
) -> (r: Rgba32)
    requires
        rows.well_formed(),
        rows.height == img.height,
        x < rows.width,
        img.height > 0,
        forall|j: int|
            0 <= j < img.height ==> #[trigger] rows.pixel(x as int, j) == along_row(
                *img,
                across.start as int,
                across.weights@,
                j,
                across.weights@.len(),
            ),
        in_bounds(*part),
    ensures
        r == along_column(
            *img,
            (across.start as int, across.weights@),
            part.start as int,
            part.weights@,
            part.weights@.len(),
        ),
{
    let mut acc: Rgba32 = no_colour();
    let mut k: usize = 0;
    while k < part.weights.len()
        invariant
            rows.well_formed(),
            rows.height == img.height,
            x < rows.width,
            img.height > 0,
            forall|j: int|
                0 <= j < img.height ==> #[trigger] rows.pixel(x as int, j) == along_row(
                    *img,
                    across.start as int,
                    across.weights@,
                    j,
                    across.weights@.len(),
                ),
            in_bounds(*part),
            k <= part.weights@.len(),
            acc == along_column(
                *img,
                (across.start as int, across.weights@),
                part.start as int,
                part.weights@,
                k as nat,
            ),
        decreases part.weights.len() - k,
    {
        let y: u32 = tap(part.start, k, img.height);
        acc = with_part(acc, rows.get(x, y), part.weights[k]);
        k = k + 1;
    }
    acc
}

fn resize_rows(img: &LinearImage, parts: &Vec<Contribution>, dst_w: u32) -> (r: LinearImage)
    requires
        img.well_formed(),
        img.width > 0,
        parts@.len() == dst_w,
        forall|o: int| 0 <= o < dst_w ==> #[trigger] in_bounds(parts@[o]),
        dst_w * img.height <= usize::MAX,
    ensures
        r.well_formed(),
        r.width == dst_w,
        r.height == img.height,
        forall|x: int, y: int|
            0 <= x < dst_w && 0 <= y < img.height ==> #[trigger] r.pixel(x, y) == along_row(
                *img,
                parts@[x].start as int,
                parts@[x].weights@,
                y,
                parts@[x].weights@.len(),
            ),
{
    let made: LinearImage = premultiplied(img);
    let pre: &LinearImage = &made;
    proof {
        assert forall|i: int, j: int|
            0 <= i < img.width && 0 <= j < img.height implies #[trigger] pre.pixel(i, j)
            == premultiplied_pixel(img.pixel(i, j)) by {
            mapped_pixel(*img, *pre, |p: Rgba32| premultiplied_pixel(p), i, j);
        }
    }
    let f = |x: u32, y: u32| -> (p: Rgba32)
        requires
            img.well_formed(),
            pre.well_formed(),
            pre.width == img.width,
            pre.height == img.height,
            forall|i: int, j: int|
                0 <= i < img.width && 0 <= j < img.height ==> #[trigger] pre.pixel(i, j)
                    == premultiplied_pixel(img.pixel(i, j)),
            img.width > 0,
            x < parts@.len(),
            y < img.height,
            in_bounds(parts@[x as int]),
        ensures
            p == along_row(
                *img,
                parts@[x as int].start as int,
                parts@[x as int].weights@,
                y as int,
                parts@[x as int].weights@.len(),
            ),
        { sum_along_row(img, pre, &parts[x as usize], y) };
    let r: LinearImage = Image::build(dst_w, img.height, f);
    proof {
        assert forall|x: int, y: int|
            0 <= x < dst_w && 0 <= y < img.height implies #[trigger] r.pixel(x, y) == along_row(
            *img,
            parts@[x].start as int,
            parts@[x].weights@,
            y,
            parts@[x].weights@.len(),
        ) by {
            assert(call_ensures(
                f,
                (x as u32, y as u32),
                r.pixel(x as u32 as int, y as u32 as int),
            ));
        }
    }
    r
}

fn resize_columns(
    img: &LinearImage,
    rows: &LinearImage,
    across: &Vec<Contribution>,
    parts: &Vec<Contribution>,
    dst_h: u32,
) -> (r: LinearImage)
    requires
        rows.well_formed(),
        rows.height == img.height,
        img.height > 0,
        across@.len() == rows.width,
        parts@.len() == dst_h,
        forall|o: int| 0 <= o < dst_h ==> #[trigger] in_bounds(parts@[o]),
        forall|x: int, y: int|
            0 <= x < rows.width && 0 <= y < img.height ==> #[trigger] rows.pixel(x, y) == along_row(
                *img,
                across@[x].start as int,
                across@[x].weights@,
                y,
                across@[x].weights@.len(),
            ),
        rows.width * dst_h <= usize::MAX,
    ensures
        r.well_formed(),
        r.width == rows.width,
        r.height == dst_h,
        forall|x: int, y: int|
            0 <= x < rows.width && 0 <= y < dst_h ==> #[trigger] r.pixel(x, y) == along_column(
                *img,
                (across@[x].start as int, across@[x].weights@),
                parts@[y].start as int,
                parts@[y].weights@,
                parts@[y].weights@.len(),
            ),
{
    let f = |x: u32, y: u32| -> (p: Rgba32)
        requires
            rows.well_formed(),
            rows.height == img.height,
            img.height > 0,
            x < rows.width,
            across@.len() == rows.width,
            y < parts@.len(),
            in_bounds(parts@[y as int]),
            forall|x: int, y: int|
                0 <= x < rows.width && 0 <= y < img.height ==> #[trigger] rows.pixel(x, y)
                    == along_row(
                    *img,
                    across@[x].start as int,
                    across@[x].weights@,
                    y,
                    across@[x].weights@.len(),
                ),
        ensures
            p == along_column(
                *img,
                (across@[x as int].start as int, across@[x as int].weights@),
                parts@[y as int].start as int,
                parts@[y as int].weights@,
                parts@[y as int].weights@.len(),
            ),
        { sum_along_column(img, rows, &across[x as usize], &parts[y as usize], x) };
    let r: LinearImage = Image::build(rows.width, dst_h, f);
    proof {
        assert forall|x: int, y: int|
            0 <= x < rows.width && 0 <= y < dst_h implies #[trigger] r.pixel(x, y) == along_column(
            *img,
            (across@[x].start as int, across@[x].weights@),
            parts@[y].start as int,
            parts@[y].weights@,
            parts@[y].weights@.len(),
        ) by {
            assert(call_ensures(
                f,
                (x as u32, y as u32),
                r.pixel(x as u32 as int, y as u32 as int),
            ));
        }
    }
    r
}

/// What is said of an image without pixels.
pub open spec fn zero_text(w: u32, h: u32, dst_w: u32, dst_h: u32) -> Seq<char> {
    "cannot resize "@ + size_text(w, h) + " to "@ + size_text(dst_w, dst_h) + " (zero dimension)"@
}

/// `out` is `img` resized.
pub open spec fn is_resized(
    img: LinearImage,
    sines_x: Seq<Vec<Sines>>,
    sines_y: Seq<Vec<Sines>>,
    out: LinearImage,
) -> bool {
    if out.width == img.width && out.height == img.height {
        out.data@ == img.data@
    } else {
        forall|x: int, y: int|
            0 <= x < out.width && 0 <= y < out.height ==> #[trigger] out.pixel(x, y)
                == resized_pixel(
                img,
                part_at(img.width, out.width, sines_x, x),
                part_at(img.height, out.height, sines_y, y),
            )
    }
}

/// Resizes an image, across first and then down. An image of the wanted size stays as it is,
/// and needs no sines.
pub fn resize_lanczos3(
    img: &LinearImage,
    dst_w: u32,
    dst_h: u32,
    sines_x: &Vec<Vec<Sines>>,
    sines_y: &Vec<Vec<Sines>>,
) -> (r: Result<LinearImage, String>)
    requires
        img.well_formed(),
        dst_w * img.height <= usize::MAX,
        dst_w * dst_h <= usize::MAX,
        (dst_w, dst_h) != (img.width, img.height) && dst_w > 0 && dst_h > 0 ==> sines_fit(
            img.width,
            dst_w,
            sines_x@,
        ) && sines_fit(img.height, dst_h, sines_y@),
    ensures
        match r {
            Ok(out) => {
                &&& img.width > 0 && img.height > 0 && dst_w > 0 && dst_h > 0
                &&& out.well_formed()
                &&& out.width == dst_w
                &&& out.height == dst_h
                &&& is_resized(*img, sines_x@, sines_y@, out)
            },
            Err(m) => {
                &&& img.width == 0 || img.height == 0 || dst_w == 0 || dst_h == 0
                &&& m@ == zero_text(img.width, img.height, dst_w, dst_h)
            },
        },
{
    let w: u32 = img.width;
    let h: u32 = img.height;
    if w == 0 || h == 0 || dst_w == 0 || dst_h == 0 {
        let from: String = show_size(w, h);
        let to: String = show_size(dst_w, dst_h);
        return Err(
            cat5("cannot resize ", from.as_str(), " to ", to.as_str(), " (zero dimension)"),
        );
    }
    if dst_w == w && dst_h == h {
        return Ok(copy(img));
    }
    let across: Vec<Contribution> = build_contributions(w, dst_w, sines_x);
    let down: Vec<Contribution> = build_contributions(h, dst_h, sines_y);
    proof {
        assert forall|o: int| 0 <= o < dst_w implies #[trigger] in_bounds(across@[o]) by {
            assert(across@[o as u32 as int].start == reach(w, dst_w, o as u32).first);
        }
        assert forall|o: int| 0 <= o < dst_h implies #[trigger] in_bounds(down@[o]) by {
            assert(down@[o as u32 as int].start == reach(h, dst_h, o as u32).first);
        }
    }
    let rows: LinearImage = resize_rows(img, &across, dst_w);
    let columns: LinearImage = resize_columns(img, &rows, &across, &down, dst_h);
    let out: LinearImage = unpremultiply(&columns);
    proof {
        assert forall|x: int, y: int| 0 <= x < dst_w && 0 <= y < dst_h implies #[trigger] out.pixel(
            x,
            y,
        ) == resized_pixel(
            *img,
            part_at(w, dst_w, sines_x@, x),
            part_at(h, dst_h, sines_y@, y),
        ) by {
            mapped_pixel(columns, out, |p: Rgba32| unpremultiplied_pixel(p), x, y);
            assert(across@[x as u32 as int].start == reach(w, dst_w, x as u32).first);
            assert(down@[y as u32 as int].start == reach(h, dst_h, y as u32).first);
        }
    }
    Ok(out)
}

} // verus!
