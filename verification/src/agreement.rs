//! Measures that depend on colours alone: they come out alike from every buffer that holds
//! the same colours.
use vstd::prelude::*;

use crate::binary::Real;
use crate::raster::{alike_by_pixels, are_alike, place, place_is_inside, Image};
use crate::similarity::{
    product_at, similarity, similarity_at, similarity_is, similarity_row, similarity_rows,
    window_side, SSIM_MAX_LONG_EDGE,
};
use crate::stats::{
    box_mean, box_side, ceil_div, ceil_div_is, channel_at, downscaled, gray_of,
    grid_hits, grid_values, is_grid_stride, laplacian, laplacian_squared, laplacian_variance_of,
    luma_at, measured, samples, sharpness_is, stats_from, tallied, value_at, ImageStats, Tally,
    SHARPNESS_LONG_EDGE, TARGET_SAMPLES,
};
use crate::sums::{sum_box, sum_box_agrees};

verus! {

/// Images that are alike have the same values everywhere.
proof fn values_agree(a: Image<u8>, b: Image<u8>)
    requires
        are_alike(a, b),
    ensures
        value_at(a) == value_at(b),
        laplacian(a) == laplacian(b),
        laplacian_squared(a) == laplacian_squared(b),
{
    assert(forall|x: int, y: int| #[trigger] a.pixel(x, y) == b.pixel(x, y));
    assert(value_at(a) =~= value_at(b));
    assert(laplacian(a) =~= laplacian(b));
    assert(laplacian_squared(a) =~= laplacian_squared(b));
}

/// There is one way to bring an image down.
proof fn downscaled_alike(a: Image<u8>, b: Image<u8>, long_edge: u32, p: Image<u8>, q: Image<u8>)
    requires
        are_alike(a, b),
        p.well_formed(),
        q.well_formed(),
        downscaled(a, long_edge, p),
        downscaled(b, long_edge, q),
    ensures
        are_alike(p, q),
{
    let k = box_side(a.width, a.height, long_edge);
    if k != 1 {
        values_agree(a, b);
        assert forall|x: int, y: int| 0 <= x < p.width && 0 <= y < p.height implies #[trigger]
            p.pixel(x, y) == q.pixel(x, y) by {
            assert(box_mean(a, k, x, y) == box_mean(b, k, x, y));
        }
        alike_by_pixels(p, q);
    }
}

/// Images that are alike are equally sharp.
proof fn sharpness_agrees(a: Image<u8>, b: Image<u8>, v: Real, w: Real)
    requires
        are_alike(a, b),
        sharpness_is(a, v),
        sharpness_is(b, w),
    ensures
        v == w,
{
    let p = choose|p: Image<u8>|
        #![trigger downscaled(a, SHARPNESS_LONG_EDGE, p)]
        p.well_formed() && downscaled(a, SHARPNESS_LONG_EDGE, p) && v == laplacian_variance_of(p);
    let q = choose|q: Image<u8>|
        #![trigger downscaled(b, SHARPNESS_LONG_EDGE, q)]
        q.well_formed() && downscaled(b, SHARPNESS_LONG_EDGE, q) && w == laplacian_variance_of(q);
    downscaled_alike(a, b, SHARPNESS_LONG_EDGE, p, q);
    values_agree(p, q);
}

/// Two buffers hold the same colours, whatever stands beside them.
pub open spec fn same_colours(
    buf: Seq<u8>,
    channels: int,
    other: Seq<u8>,
    other_channels: int,
    pixels: int,
) -> bool {
    forall|i: int, c: int|
        #![trigger buf[i * channels + c]]
        0 <= i < pixels && 0 <= c < 3 ==> buf[i * channels + c] == other[i * other_channels + c]
}

proof fn grays_agree(
    buf: Seq<u8>,
    channels: int,
    other: Seq<u8>,
    other_channels: int,
    width: u32,
    height: u32,
    a: Image<u8>,
    b: Image<u8>,
)
    requires
        same_colours(buf, channels, other, other_channels, width * height),
        gray_of(buf, channels, width, height, a),
        gray_of(other, other_channels, width, height, b),
    ensures
        are_alike(a, b),
{
    assert forall|i: int| 0 <= i < a.data@.len() implies #[trigger] a.data@[i] == b.data@[i] by {
        assert(buf[i * channels + 0] == other[i * other_channels + 0]);
        assert(buf[i * channels + 1] == other[i * other_channels + 1]);
        assert(buf[i * channels + 2] == other[i * other_channels + 2]);
        assert(luma_at(buf, channels, i) == luma_at(other, other_channels, i));
    }
    assert(a.data@ =~= b.data@);
}

/// The colours on a grid agree.
proof fn grid_agrees(
    buf: Seq<u8>,
    channels: int,
    other: Seq<u8>,
    other_channels: int,
    width: u32,
    height: u32,
    k: int,
    i: int,
    j: int,
)
    requires
        same_colours(buf, channels, other, other_channels, width * height),
        k >= 1,
        0 <= i < ceil_div(width as int, k),
        0 <= j < ceil_div(height as int, k),
    ensures
        forall|c: int|
            0 <= c < 3 ==> #[trigger] channel_at(buf, channels, width as int, i * k, j * k, c)
                == channel_at(other, other_channels, width as int, i * k, j * k, c),
{
    let (w, h) = (width as int, height as int);
    ceil_div_is(w, k);
    ceil_div_is(h, k);
    step_is_inside(i, k, w, ceil_div(w, k));
    step_is_inside(j, k, h, ceil_div(h, k));
    place_is_inside(w, h, i * k, j * k);
    let p = place(w, i * k, j * k);
    assert forall|c: int| 0 <= c < 3 implies #[trigger] channel_at(
        buf,
        channels,
        w,
        i * k,
        j * k,
        c,
    ) == channel_at(other, other_channels, w, i * k, j * k, c) by {
        assert(buf[p * channels + c] == other[p * other_channels + c]);
    }
}

proof fn step_is_inside(i: int, k: int, len: int, n: int)
    requires
        0 <= i < n,
        (n - 1) * k < len,
        k >= 1,
    ensures
        0 <= i * k < len,
{
    assert(0 <= i * k <= (n - 1) * k) by (nonlinear_arith)
        requires
            0 <= i <= n - 1,
            k >= 1,
    ;
}

/// The tallies of the same colours are the same.
proof fn tallies_agree(
    buf: Seq<u8>,
    channels: int,
    other: Seq<u8>,
    other_channels: int,
    width: u32,
    height: u32,
    k: int,
    s: Tally,
    t: Tally,
)
    requires
        same_colours(buf, channels, other, other_channels, width * height),
        k >= 1,
        tallied(buf, channels, width, height, k, s),
        tallied(other, other_channels, width, height, k, t),
    ensures
        s.hist@ == t.hist@,
        s.sum_r == t.sum_r,
        s.sum_g == t.sum_g,
        s.sum_b == t.sum_b,
        s.count == t.count,
{
    values_on_grid_agree(buf, channels, other, other_channels, width, height, k, 0);
    values_on_grid_agree(buf, channels, other, other_channels, width, height, k, 1);
    values_on_grid_agree(buf, channels, other, other_channels, width, height, k, 2);
    assert forall|b: int| 0 <= b < 256 implies #[trigger] s.hist@[b] == t.hist@[b] by {
        hits_on_grid_agree(buf, channels, other, other_channels, width, height, k, b);
    }
    assert(s.hist@ =~= t.hist@);
}

proof fn values_on_grid_agree(
    buf: Seq<u8>,
    channels: int,
    other: Seq<u8>,
    other_channels: int,
    width: u32,
    height: u32,
    k: int,
    c: int,
)
    requires
        same_colours(buf, channels, other, other_channels, width * height),
        k >= 1,
        0 <= c < 3,
    ensures
        ({
            let (nx, ny) = (ceil_div(width as int, k), ceil_div(height as int, k));
            sum_box(grid_values(buf, channels, width as int, k, c), 0, nx, 0, ny)
                == sum_box(
                grid_values(other, other_channels, width as int, k, c),
                0,
                nx,
                0,
                ny,
            )
        }),
{
    let (nx, ny) = (ceil_div(width as int, k), ceil_div(height as int, k));
    let f = grid_values(buf, channels, width as int, k, c);
    let g = grid_values(other, other_channels, width as int, k, c);
    assert forall|x: int, y: int| 0 <= x < nx && 0 <= y < ny implies #[trigger] f(x, y) == g(
        x,
        y,
    ) by {
        grid_agrees(buf, channels, other, other_channels, width, height, k, x, y);
    }
    sum_box_agrees(f, g, 0, nx, 0, ny);
}

proof fn hits_on_grid_agree(
    buf: Seq<u8>,
    channels: int,
    other: Seq<u8>,
    other_channels: int,
    width: u32,
    height: u32,
    k: int,
    b: int,
)
    requires
        same_colours(buf, channels, other, other_channels, width * height),
        k >= 1,
    ensures
        ({
            let (nx, ny) = (ceil_div(width as int, k), ceil_div(height as int, k));
            sum_box(grid_hits(buf, channels, width as int, k, b), 0, nx, 0, ny)
                == sum_box(
                grid_hits(other, other_channels, width as int, k, b),
                0,
                nx,
                0,
                ny,
            )
        }),
{
    let (nx, ny) = (ceil_div(width as int, k), ceil_div(height as int, k));
    let f = grid_hits(buf, channels, width as int, k, b);
    let g = grid_hits(other, other_channels, width as int, k, b);
    assert forall|x: int, y: int| 0 <= x < nx && 0 <= y < ny implies #[trigger] f(x, y) == g(
        x,
        y,
    ) by {
        grid_agrees(buf, channels, other, other_channels, width, height, k, x, y);
    }
    sum_box_agrees(f, g, 0, nx, 0, ny);
}

/// There is one smallest stride.
proof fn one_stride(width: u32, height: u32, k: u32, m: u32)
    requires
        is_grid_stride(width, height, k),
        is_grid_stride(width, height, m),
    ensures
        k == m,
{
    if k < m {
        assert(samples(width, height, k as int) > TARGET_SAMPLES);
    }
    if m < k {
        assert(samples(width, height, m as int) > TARGET_SAMPLES);
    }
}

/// The same colours are measured alike, with opacity beside them or without.
pub proof fn same_colours_same_measures(
    buf: Seq<u8>,
    channels: int,
    other: Seq<u8>,
    other_channels: int,
    width: u32,
    height: u32,
    s: ImageStats,
    t: ImageStats,
)
    requires
        same_colours(buf, channels, other, other_channels, width * height),
        measured(buf, channels, width, height, s),
        measured(other, other_channels, width, height, t),
    ensures
        s == t,
{
    let (k, a, p) = choose|k: u32, a: Tally, p: Image<u8>|
        #![trigger is_grid_stride(width, height, k), stats_from(a, s.sharpness), gray_of(
            buf,
            channels,
            width,
            height,
            p,
        )]
        {
            &&& is_grid_stride(width, height, k)
            &&& tallied(buf, channels, width, height, k as int, a)
            &&& gray_of(buf, channels, width, height, p)
            &&& sharpness_is(p, s.sharpness)
            &&& s == stats_from(a, s.sharpness)
        };
    let (m, b, q) = choose|m: u32, b: Tally, q: Image<u8>|
        #![trigger is_grid_stride(width, height, m), stats_from(b, t.sharpness), gray_of(
            other,
            other_channels,
            width,
            height,
            q,
        )]
        {
            &&& is_grid_stride(width, height, m)
            &&& tallied(other, other_channels, width, height, m as int, b)
            &&& gray_of(other, other_channels, width, height, q)
            &&& sharpness_is(q, t.sharpness)
            &&& t == stats_from(b, t.sharpness)
        };
    one_stride(width, height, k, m);
    grays_agree(buf, channels, other, other_channels, width, height, p, q);
    sharpness_agrees(p, q, s.sharpness, t.sharpness);
    tallies_agree(buf, channels, other, other_channels, width, height, k as int, a, b);
}

/// Windows of images that are alike are alike.
proof fn windows_agree(
    a: Image<u8>,
    b: Image<u8>,
    p: Image<u8>,
    q: Image<u8>,
    ww: int,
    wh: int,
    y: int,
    n: nat,
    total: Real,
)
    requires
        are_alike(a, p),
        are_alike(b, q),
    ensures
        similarity_row(a, b, ww, wh, y, n, total) == similarity_row(p, q, ww, wh, y, n, total),
    decreases n,
{
    if n > 0 {
        windows_agree(a, b, p, q, ww, wh, y, (n - 1) as nat, total);
        values_agree(a, p);
        values_agree(b, q);
        assert(product_at(a, a) =~= product_at(p, p));
        assert(product_at(b, b) =~= product_at(q, q));
        assert(product_at(a, b) =~= product_at(p, q));
        assert(similarity_at(a, b, ww, wh, n - 1, y) == similarity_at(p, q, ww, wh, n - 1, y));
    }
}

proof fn rows_agree(
    a: Image<u8>,
    b: Image<u8>,
    p: Image<u8>,
    q: Image<u8>,
    ww: int,
    wh: int,
    n: nat,
)
    requires
        are_alike(a, p),
        are_alike(b, q),
    ensures
        similarity_rows(a, b, ww, wh, n) == similarity_rows(p, q, ww, wh, n),
    decreases n,
{
    if n > 0 {
        rows_agree(a, b, p, q, ww, wh, (n - 1) as nat);
        windows_agree(
            a,
            b,
            p,
            q,
            ww,
            wh,
            n - 1,
            (a.width - ww + 1) as nat,
            similarity_rows(a, b, ww, wh, (n - 1) as nat),
        );
    }
}

/// Two images have one similarity.
pub proof fn similarity_is_one_number(a: Image<u8>, b: Image<u8>, v: Real, w: Real)
    requires
        similarity_is(a, b, v),
        similarity_is(a, b, w),
    ensures
        v == w,
{
    let (p, q) = choose|p: Image<u8>, q: Image<u8>|
        #![trigger downscaled(a, SSIM_MAX_LONG_EDGE, p), downscaled(b, SSIM_MAX_LONG_EDGE, q)]
        {
            &&& p.well_formed()
            &&& q.well_formed()
            &&& downscaled(a, SSIM_MAX_LONG_EDGE, p)
            &&& downscaled(b, SSIM_MAX_LONG_EDGE, q)
            &&& v == similarity(p, q)
        };
    let (r, s) = choose|r: Image<u8>, s: Image<u8>|
        #![trigger downscaled(a, SSIM_MAX_LONG_EDGE, r), downscaled(b, SSIM_MAX_LONG_EDGE, s)]
        {
            &&& r.well_formed()
            &&& s.well_formed()
            &&& downscaled(a, SSIM_MAX_LONG_EDGE, r)
            &&& downscaled(b, SSIM_MAX_LONG_EDGE, s)
            &&& w == similarity(r, s)
        };
    downscaled_alike(a, a, SSIM_MAX_LONG_EDGE, p, r);
    downscaled_alike(b, b, SSIM_MAX_LONG_EDGE, q, s);
    rows_agree(
        p,
        q,
        r,
        s,
        window_side(p.width),
        window_side(p.height),
        (p.height - window_side(p.height) + 1) as nat,
    );
}

} // verus!
