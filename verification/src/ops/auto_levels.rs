//! Automatic levels.
use vstd::prelude::*;

use crate::binary::{Real, Real32};
use crate::error::{op_error, op_fault, verdict, AtxError, Fault};
use crate::linear::LinearImage;
use crate::number::{
    is_within, within, Number, HUNDRED, ONE, SHORT_BYTE_MAX, SHORT_HALF, SHORT_ONE, SHORT_ZERO,
    TEN, ZERO,
};
use crate::ops::blend::in_unit;
use crate::ops::gradient::luma_of;
use crate::raster::{is_mapped, map_pixels, Rgba32};
use crate::round_trip::byte_part_is_a_number;
use crate::shares::{share, share_is_below};
use crate::sums::{sum_range, sum_range_bounds, sum_range_splits};
use crate::text::cat2;

verus! {

/// What is wrong with the parameters of `auto_levels`.
pub open spec fn auto_levels_fault(index: int, clip_percent: Number) -> Option<Fault> {
    if within(clip_percent.bits, ZERO, TEN) {
        None
    } else {
        op_fault(
            index,
            "auto_levels"@,
            "clip_percent must be finite and within 0..=10, got "@ + clip_percent.text@,
        )
    }
}

/// Checks the parameters of `auto_levels`: the clipped share is 0 to 10 percent.
pub fn validate(index: usize, clip_percent: &Number) -> (r: Result<(), AtxError>)
    ensures
        verdict(r) == auto_levels_fault(index as int, *clip_percent),
{
    if !is_within(clip_percent.bits, ZERO, TEN) {
        let message: String = cat2(
            "clip_percent must be finite and within 0..=10, got ",
            clip_percent.text.as_str(),
        );
        return Err(op_error(index, "auto_levels", message.as_str()));
    }
    Ok(())
}

/// The bin of a number from 0 to 1, out of 256.
pub open spec fn bin(v: Real32) -> int {
    let n = in_unit(v).times(Real32 { bits: SHORT_BYTE_MAX }).plus(
        Real32 { bits: SHORT_HALF },
    ).floor_integer();
    if n < 0 {
        0
    } else if n > 255 {
        255
    } else {
        n as int
    }
}

fn bin_of(v: Real32) -> (r: usize)
    ensures
        r == bin(v),
        r < 256,
{
    let n: i64 = in_unit(v).times(Real32 { bits: SHORT_BYTE_MAX }).plus(
        Real32 { bits: SHORT_HALF },
    ).floor_integer();
    if n < 0 {
        0
    } else if n > 255 {
        255
    } else {
        n as usize
    }
}

/// What levels are measured on.
#[derive(Clone, Copy, Debug, PartialEq, Eq, Structural)]
pub enum Measure {
    Red,
    Green,
    Blue,
    Luma,
}

/// The measure of a colour.
#[verifier::allow_in_spec]
pub fn measured(p: Rgba32, m: Measure) -> Real32
    returns
        (match m {
            Measure::Red => p.r,
            Measure::Green => p.g,
            Measure::Blue => p.b,
            Measure::Luma => luma_of(p).narrowed(),
        }),
{
    match m {
        Measure::Red => p.r,
        Measure::Green => p.g,
        Measure::Blue => p.b,
        Measure::Luma => luma_of(p).narrowed(),
    }
}

/// One where the measure of a pixel falls into a bin, else nothing.
pub open spec fn one_in_bin(data: Seq<Rgba32>, m: Measure, b: int) -> spec_fn(int) -> int {
    |i: int|
        if bin(measured(data[i], m)) == b {
            1int
        } else {
            0
        }
}

/// How many pixels fall into each bin.
pub open spec fn is_tally(data: Seq<Rgba32>, m: Measure, hist: Seq<u64>) -> bool {
    hist.len() == 256 && forall|b: int|
        0 <= b < 256 ==> #[trigger] hist[b] == sum_range(
            one_in_bin(data, m, b),
            0,
            data.len() as int,
        )
}

fn histogram(data: &Vec<Rgba32>, m: Measure) -> (hist: Vec<u64>)
    ensures
        is_tally(data@, m, hist@),
{
    let mut hist: Vec<u64> = vec![0; 256];
    let mut i: usize = 0;
    while i < data.len()
        invariant
            i <= data@.len(),
            hist@.len() == 256,
            forall|b: int|
                0 <= b < 256 ==> #[trigger] hist@[b] == sum_range(
                    one_in_bin(data@, m, b),
                    0,
                    i as int,
                ),
        decreases data.len() - i,
    {
        let k: usize = bin_of(measured(data[i], m));
        proof {
            sum_range_bounds(one_in_bin(data@, m, k as int), 0, i as int, 0, 1);
        }
        let count: u64 = hist[k];
        let ghost before = hist@;
        hist.set(k, count + 1);
        proof {
            assert forall|b: int| 0 <= b < 256 implies #[trigger] hist@[b] == sum_range(
                one_in_bin(data@, m, b),
                0,
                i + 1,
            ) by {
                assert(before[b] == sum_range(one_in_bin(data@, m, b), 0, i as int));
            }
        }
        i = i + 1;
    }
    hist
}

/// The counts of the bins from `a` up to `b`.
pub open spec fn counts(hist: Seq<u64>, a: int, b: int) -> int {
    sum_range(|i: int| hist[i] as int, a, b)
}

/// The first bin from `i` on up to which there are more counts than the threshold, or
/// the last.
pub open spec fn low_bin(hist: Seq<u64>, threshold: Real, i: int) -> int
    decreases 255 - i,
{
    if i >= 255 {
        255
    } else if threshold.below(Real::nearest_to(counts(hist, 0, i + 1))) {
        i
    } else {
        low_bin(hist, threshold, i + 1)
    }
}

/// The last bin up to `i` from which on there are more counts than the threshold, or the
/// first.
pub open spec fn high_bin(hist: Seq<u64>, threshold: Real, i: int) -> int
    decreases i,
{
    if i <= 0 {
        0
    } else if threshold.below(Real::nearest_to(counts(hist, i, 256))) {
        i
    } else {
        high_bin(hist, threshold, i - 1)
    }
}

/// The bounds of a histogram without a share of its counts at either end, from 0 to 1.
pub open spec fn bounds_of(hist: Seq<u64>, clip_percent: Real) -> (Real32, Real32) {
    let total = counts(hist, 0, 256);
    let top = Real32 { bits: SHORT_BYTE_MAX };
    if total == 0 {
        (Real32 { bits: SHORT_ZERO }, Real32 { bits: SHORT_ONE })
    } else {
        let threshold = Real::nearest_to(total).times(clip_percent).over(Real { bits: HUNDRED });
        (
            Real32::nearest_to(low_bin(hist, threshold, 0)).over(top),
            Real32::nearest_to(high_bin(hist, threshold, 255)).over(top),
        )
    }
}

proof fn counts_grow(hist: Seq<u64>, a: int, m: int, b: int)
    requires
        0 <= a <= m <= b <= hist.len(),
    ensures
        0 <= counts(hist, a, m) <= counts(hist, a, b),
        0 <= counts(hist, m, b) <= counts(hist, a, b),
{
    let f = |i: int| hist[i] as int;
    sum_range_splits(f, a, m, b);
    counts_are_positive(hist, a, m);
    counts_are_positive(hist, m, b);
}

proof fn counts_are_positive(hist: Seq<u64>, a: int, b: int)
    requires
        0 <= a <= b <= hist.len(),
    ensures
        0 <= counts(hist, a, b),
    decreases b - a,
{
    if a < b {
        counts_are_positive(hist, a, b - 1);
    }
}

/// One more bin in front.
proof fn counts_step_down(hist: Seq<u64>, a: int, b: int)
    requires
        0 <= a < b <= hist.len(),
    ensures
        counts(hist, a, b) == hist[a] + counts(hist, a + 1, b),
{
    let f = |i: int| hist[i] as int;
    sum_range_splits(f, a, a + 1, b);
    assert(counts(hist, a, a) == 0);
    assert(counts(hist, a, a + 1) == counts(hist, a, a) + hist[a]);
}

/// The bounds of a histogram without a share of its counts at either end.
pub fn clip_bounds(hist: &Vec<u64>, clip_percent: Real) -> (r: (Real32, Real32))
    requires
        hist@.len() == 256,
        counts(hist@, 0, 256) <= u64::MAX,
    ensures
        r == bounds_of(hist@, clip_percent),
{
    let mut total: u64 = 0;
    let mut i: usize = 0;
    while i < 256
        invariant
            i <= 256,
            hist@.len() == 256,
            counts(hist@, 0, 256) <= u64::MAX,
            total == counts(hist@, 0, i as int),
        decreases 256 - i,
    {
        proof {
            counts_grow(hist@, 0, i + 1, 256);
        }
        total = total + hist[i];
        i = i + 1;
    }
    if total == 0 {
        return (Real32 { bits: SHORT_ZERO }, Real32 { bits: SHORT_ONE });
    }
    let threshold: Real = Real::from_whole(total as u128).times(clip_percent).over(
        Real { bits: HUNDRED },
    );
    let mut low: usize = 0;
    let mut seen: u64 = hist[0];
    assert(counts(hist@, 0, 1) == counts(hist@, 0, 0) + hist@[0]);
    while low < 255 && !threshold.below(Real::from_whole(seen as u128))
        invariant
            low <= 255,
            hist@.len() == 256,
            counts(hist@, 0, 256) <= u64::MAX,
            seen == counts(hist@, 0, low + 1),
            low_bin(hist@, threshold, 0) == low_bin(hist@, threshold, low as int),
        decreases 255 - low,
    {
        proof {
            counts_grow(hist@, 0, low + 2, 256);
        }
        low = low + 1;
        seen = seen + hist[low];
    }
    let mut high: usize = 255;
    let mut above: u64 = hist[255];
    proof {
        counts_step_down(hist@, 255, 256);
        assert(counts(hist@, 256, 256) == 0);
    }
    while high > 0 && !threshold.below(Real::from_whole(above as u128))
        invariant
            high <= 255,
            hist@.len() == 256,
            counts(hist@, 0, 256) <= u64::MAX,
            above == counts(hist@, high as int, 256),
            high_bin(hist@, threshold, 255) == high_bin(hist@, threshold, high as int),
        decreases high,
    {
        proof {
            counts_step_down(hist@, high - 1, 256);
            counts_grow(hist@, 0, high - 1, 256);
        }
        high = high - 1;
        above = above + hist[high];
    }
    let top: Real32 = Real32 { bits: SHORT_BYTE_MAX };
    (Real32::from_integer(low as i64).over(top), Real32::from_integer(high as i64).over(top))
}

/// A channel stretched so that the bounds become 0 and 1. Bounds that are not apart
/// leave it as it is.
pub open spec fn stretched(v: Real32, low: Real32, high: Real32) -> Real32 {
    if high.at_most(low) {
        v
    } else {
        v.widened().minus(low.widened()).over(high.widened().minus(low.widened())).clamped(
            Real { bits: ZERO },
            Real { bits: ONE },
        ).narrowed()
    }
}

fn stretch(v: Real32, low: Real32, high: Real32) -> (r: Real32)
    ensures
        r == stretched(v, low, high),
{
    if high.at_most(low) {
        return v;
    }
    let span: Real = high.widened().minus(low.widened());
    v.widened().minus(low.widened()).over(span).clamped(
        Real { bits: ZERO },
        Real { bits: ONE },
    ).narrowed()
}

/// A colour with each channel stretched between its bounds. Opacity stays.
pub open spec fn stretched_pixel(
    p: Rgba32,
    red: (Real32, Real32),
    green: (Real32, Real32),
    blue: (Real32, Real32),
) -> Rgba32 {
    Rgba32 {
        r: stretched(p.r, red.0, red.1),
        g: stretched(p.g, green.0, green.1),
        b: stretched(p.b, blue.0, blue.1),
        a: p.a,
    }
}

/// `b` are the bounds of one measure of an image.
pub open spec fn are_bounds(img: LinearImage, m: Measure, clip_percent: Real, b: (Real32, Real32)) -> bool {
    exists|hist: Seq<u64>| #[trigger]
        is_tally(img.data@, m, hist) && b == bounds_of(hist, clip_percent)
}

/// What the bounds of a channel are measured on: itself, or the luminance.
pub open spec fn measure_for(per_channel: bool, own: Measure) -> Measure {
    if per_channel {
        own
    } else {
        Measure::Luma
    }
}

/// `out` is `img` with its levels stretched: each channel between its own bounds, or all
/// between those of the luminance.
pub open spec fn is_leveled(
    img: LinearImage,
    clip_percent: Real,
    per_channel: bool,
    out: LinearImage,
) -> bool {
    let (mr, mg, mb) = (
        measure_for(per_channel, Measure::Red),
        measure_for(per_channel, Measure::Green),
        measure_for(per_channel, Measure::Blue),
    );
    exists|r: (Real32, Real32), g: (Real32, Real32), b: (Real32, Real32)|
        {
            &&& #[trigger] are_bounds(img, mr, clip_percent, r)
            &&& #[trigger] are_bounds(img, mg, clip_percent, g)
            &&& #[trigger] are_bounds(img, mb, clip_percent, b)
            &&& is_mapped(img, out, |p: Rgba32| stretched_pixel(p, r, g, b))
        }
}

fn bounds(img: &LinearImage, m: Measure, clip_percent: Real) -> (b: (Real32, Real32))
    ensures
        are_bounds(*img, m, clip_percent, b),
{
    let hist: Vec<u64> = histogram(&img.data, m);
    proof {
        tally_adds_up(img.data@, m, hist@);
    }
    let count: usize = img.data.len();
    let b: (Real32, Real32) = clip_bounds(&hist, clip_percent);
    assert(is_tally(img.data@, m, hist@));
    b
}

/// Stretches the levels of an image.
pub fn apply(img: &LinearImage, clip_percent: Real, per_channel: bool) -> (out: LinearImage)
    requires
        img.well_formed(),
    ensures
        is_leveled(*img, clip_percent, per_channel, out),
{
    let (r, g, b): ((Real32, Real32), (Real32, Real32), (Real32, Real32)) = if per_channel {
        (
            bounds(img, Measure::Red, clip_percent),
            bounds(img, Measure::Green, clip_percent),
            bounds(img, Measure::Blue, clip_percent),
        )
    } else {
        let all: (Real32, Real32) = bounds(img, Measure::Luma, clip_percent);
        (all, all, all)
    };
    let f = |p: Rgba32| -> (q: Rgba32)
        ensures
            q == stretched_pixel(p, r, g, b),
        {
            Rgba32 {
                r: stretch(p.r, r.0, r.1),
                g: stretch(p.g, g.0, g.1),
                b: stretch(p.b, b.0, b.1),
                a: p.a,
            }
        };
    map_pixels(img, f, Ghost(|p: Rgba32| stretched_pixel(p, r, g, b)))
}

/// One where the measure of a pixel falls into a bin below `b`, else nothing.
spec fn one_below_bin(data: Seq<Rgba32>, m: Measure, b: int) -> spec_fn(int) -> int {
    |i: int|
        if bin(measured(data[i], m)) < b {
            1int
        } else {
            0
        }
}

proof fn bins_add_up(data: Seq<Rgba32>, m: Measure, b: int, n: int)
    requires
        0 <= n <= data.len(),
    ensures
        sum_range(one_below_bin(data, m, b + 1), 0, n) == sum_range(
            one_below_bin(data, m, b),
            0,
            n,
        ) + sum_range(one_in_bin(data, m, b), 0, n),
    decreases n,
{
    if n > 0 {
        bins_add_up(data, m, b, n - 1);
    }
}

proof fn tally_up_to(data: Seq<Rgba32>, m: Measure, hist: Seq<u64>, b: int)
    requires
        is_tally(data, m, hist),
        0 <= b <= 256,
    ensures
        counts(hist, 0, b) == sum_range(one_below_bin(data, m, b), 0, data.len() as int),
    decreases b,
{
    if b > 0 {
        tally_up_to(data, m, hist, b - 1);
        bins_add_up(data, m, b - 1, data.len() as int);
    } else {
        sum_range_bounds(one_below_bin(data, m, 0), 0, data.len() as int, 0, 0);
    }
}

/// The counts of all bins add up to the number of pixels.
pub proof fn tally_adds_up(data: Seq<Rgba32>, m: Measure, hist: Seq<u64>)
    requires
        is_tally(data, m, hist),
    ensures
        counts(hist, 0, 256) == data.len(),
{
    tally_up_to(data, m, hist, 256);
    sum_range_bounds(one_below_bin(data, m, 256), 0, data.len() as int, 1, 1);
}

/// Where every pixel falls into one bin, no bin below it or above it has a count.
proof fn plain_counts(data: Seq<Rgba32>, m: Measure, hist: Seq<u64>, k: int, b: int)
    requires
        is_tally(data, m, hist),
        0 <= k < 256,
        0 <= b <= 256,
        forall|i: int| 0 <= i < data.len() ==> bin(measured(#[trigger] data[i], m)) == k,
    ensures
        counts(hist, 0, b) == (if k < b {
            data.len() as int
        } else {
            0
        }),
        counts(hist, b, 256) == (if k < b {
            0
        } else {
            data.len() as int
        }),
{
    let n = data.len() as int;
    tally_up_to(data, m, hist, b);
    tally_adds_up(data, m, hist);
    if k < b {
        sum_range_bounds(one_below_bin(data, m, b), 0, n, 1, 1);
    } else {
        sum_range_bounds(one_below_bin(data, m, b), 0, n, 0, 0);
    }
    sum_range_splits(|i: int| hist[i] as int, 0, b, 256);
}

proof fn plain_low_bin(
    data: Seq<Rgba32>,
    m: Measure,
    hist: Seq<u64>,
    k: int,
    threshold: Real,
    i: int,
)
    requires
        is_tally(data, m, hist),
        0 <= i <= k < 256,
        forall|j: int| 0 <= j < data.len() ==> bin(measured(#[trigger] data[j], m)) == k,
        threshold.below(Real::nearest_to(data.len() as int)),
        !threshold.below(Real::nearest_to(0)),
    ensures
        low_bin(hist, threshold, i) == k,
    decreases k - i,
{
    plain_counts(data, m, hist, k, i + 1);
    if i < k {
        plain_low_bin(data, m, hist, k, threshold, i + 1);
    }
}

proof fn plain_high_bin(
    data: Seq<Rgba32>,
    m: Measure,
    hist: Seq<u64>,
    k: int,
    threshold: Real,
    i: int,
)
    requires
        is_tally(data, m, hist),
        0 <= k <= i < 256,
        forall|j: int| 0 <= j < data.len() ==> bin(measured(#[trigger] data[j], m)) == k,
        threshold.below(Real::nearest_to(data.len() as int)),
        !threshold.below(Real::nearest_to(0)),
    ensures
        high_bin(hist, threshold, i) == k,
    decreases i - k,
{
    plain_counts(data, m, hist, k, i);
    if i > k {
        plain_high_bin(data, m, hist, k, threshold, i - 1);
    }
}

/// The bounds of an image of one colour are not apart.
proof fn plain_bounds(img: LinearImage, m: Measure, clip_percent: Real, b: (Real32, Real32))
    requires
        0 < img.data@.len() < 0x20_0000_0000_0000,
        within(clip_percent.bits, ZERO, TEN),
        forall|i: int| 0 <= i < img.data@.len() ==> #[trigger] img.data@[i] == img.data@[0],
        are_bounds(img, m, clip_percent, b),
    ensures
        b.1.at_most(b.0),
{
    let data = img.data@;
    let hist = choose|hist: Seq<u64>| #[trigger]
        is_tally(data, m, hist) && b == bounds_of(hist, clip_percent);
    let k = bin(measured(data[0], m));
    tally_adds_up(data, m, hist);
    let threshold = share(data.len(), clip_percent);
    share_is_below(data.len(), clip_percent);
    plain_low_bin(data, m, hist, k, threshold, 0);
    plain_high_bin(data, m, hist, k, threshold, 255);
    byte_part_is_a_number(k);
}

/// An image of one colour stays as it is.
pub proof fn plain_images_are_not_stretched(
    img: LinearImage,
    clip_percent: Real,
    per_channel: bool,
    out: LinearImage,
)
    requires
        img.well_formed(),
        img.data@.len() < 0x20_0000_0000_0000,
        within(clip_percent.bits, ZERO, TEN),
        forall|i: int| 0 <= i < img.data@.len() ==> #[trigger] img.data@[i] == img.data@[0],
        is_leveled(img, clip_percent, per_channel, out),
    ensures
        out.width == img.width,
        out.height == img.height,
        out.data@ == img.data@,
{
    let (mr, mg, mb) = (
        measure_for(per_channel, Measure::Red),
        measure_for(per_channel, Measure::Green),
        measure_for(per_channel, Measure::Blue),
    );
    let (r, g, b) = choose|r: (Real32, Real32), g: (Real32, Real32), b: (Real32, Real32)|
        {
            &&& #[trigger] are_bounds(img, mr, clip_percent, r)
            &&& #[trigger] are_bounds(img, mg, clip_percent, g)
            &&& #[trigger] are_bounds(img, mb, clip_percent, b)
            &&& is_mapped(img, out, |p: Rgba32| stretched_pixel(p, r, g, b))
        };
    if img.data@.len() > 0 {
        plain_bounds(img, mr, clip_percent, r);
        plain_bounds(img, mg, clip_percent, g);
        plain_bounds(img, mb, clip_percent, b);
    }
    assert(out.data@ =~= img.data@);
}

} // verus!
