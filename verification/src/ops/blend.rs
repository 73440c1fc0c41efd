//! Mixing a layer with what lies under it: the separable blend functions and the
//! compositing formula, on encoded colours with straight opacity.
use vstd::prelude::*;

use crate::binary::Real32;
use crate::exact::{
    agree, is_finite32, is_zero32, one, one32, one_less_one, passes_through, plus_zero, times_one,
    times_zero, unit_times_is_finite,
};
use crate::float::{unsigned, Width};
use crate::number::{
    SHORT_FOUR, SHORT_HALF, SHORT_ONE, SHORT_QUARTER, SHORT_SIXTEEN, SHORT_TWELVE, SHORT_TWO,
    SHORT_ZERO,
};
use crate::raster::{Image, Rgba32};
use crate::recipe::BlendMode;

verus! {

/// `cb + cs - cb * cs`.
#[verifier::allow_in_spec]
pub fn screen(cb: Real32, cs: Real32) -> Real32
    returns
        cb.plus(cs).minus(cb.times(cs)),
{
    let p: Real32 = cb.times(cs);
    cb.plus(cs).minus(p)
}

/// Twice a number.
#[verifier::allow_in_spec]
pub fn doubled(v: Real32) -> Real32
    returns
        (Real32 { bits: SHORT_TWO }).times(v),
{
    let two: Real32 = Real32 { bits: SHORT_TWO };
    two.times(v)
}

/// A multiplication where the source is at most a half, else a screen.
#[verifier::allow_in_spec]
pub fn hard_light(cb: Real32, cs: Real32) -> Real32
    returns
        (if cs.at_most(Real32 { bits: SHORT_HALF }) {
            cb.times(doubled(cs))
        } else {
            screen(cb, doubled(cs).minus(Real32 { bits: SHORT_ONE }))
        }),
{
    if cs.at_most(Real32 { bits: SHORT_HALF }) {
        cb.times(doubled(cs))
    } else {
        screen(cb, doubled(cs).minus(Real32 { bits: SHORT_ONE }))
    }
}

/// The curve that a light source pulls the backdrop towards: a polynomial up to a
/// quarter, then the square root.
#[verifier::allow_in_spec]
pub fn soft_curve(cb: Real32) -> Real32
    returns
        (if cb.at_most(Real32 { bits: SHORT_QUARTER }) {
            (Real32 { bits: SHORT_SIXTEEN }).times(cb).minus(Real32 { bits: SHORT_TWELVE }).times(
                cb,
            ).plus(Real32 { bits: SHORT_FOUR }).times(cb)
        } else {
            cb.root()
        }),
{
    if cb.at_most(Real32 { bits: SHORT_QUARTER }) {
        let sixteen: Real32 = Real32 { bits: SHORT_SIXTEEN };
        let a: Real32 = sixteen.times(cb).minus(Real32 { bits: SHORT_TWELVE });
        a.times(cb).plus(Real32 { bits: SHORT_FOUR }).times(cb)
    } else {
        cb.root()
    }
}

/// Darkens where the source is at most a half, else lightens, both gently.
#[verifier::allow_in_spec]
pub fn soft_light(cb: Real32, cs: Real32) -> Real32
    returns
        (if cs.at_most(Real32 { bits: SHORT_HALF }) {
            cb.minus(
                (Real32 { bits: SHORT_ONE }).minus(doubled(cs)).times(cb).times(
                    (Real32 { bits: SHORT_ONE }).minus(cb),
                ),
            )
        } else {
            cb.plus(
                doubled(cs).minus(Real32 { bits: SHORT_ONE }).times(soft_curve(cb).minus(cb)),
            )
        }),
{
    let one: Real32 = Real32 { bits: SHORT_ONE };
    if cs.at_most(Real32 { bits: SHORT_HALF }) {
        let k: Real32 = one.minus(doubled(cs));
        let t: Real32 = k.times(cb).times(one.minus(cb));
        cb.minus(t)
    } else {
        let k: Real32 = doubled(cs).minus(one);
        let t: Real32 = k.times(soft_curve(cb).minus(cb));
        cb.plus(t)
    }
}

/// The quotient, but not more than 1.
#[verifier::allow_in_spec]
pub fn dodge(cb: Real32, cs: Real32) -> Real32
    returns
        (if cb.same(Real32 { bits: SHORT_ZERO }) {
            Real32 { bits: SHORT_ZERO }
        } else if cs.same(Real32 { bits: SHORT_ONE }) {
            Real32 { bits: SHORT_ONE }
        } else if cb.over((Real32 { bits: SHORT_ONE }).minus(cs)).below(
            Real32 { bits: SHORT_ONE },
        ) {
            cb.over((Real32 { bits: SHORT_ONE }).minus(cs))
        } else {
            Real32 { bits: SHORT_ONE }
        }),
{
    let one: Real32 = Real32 { bits: SHORT_ONE };
    let zero: Real32 = Real32 { bits: SHORT_ZERO };
    if cb.same(zero) {
        zero
    } else if cs.same(one) {
        one
    } else {
        let q: Real32 = cb.over(one.minus(cs));
        if q.below(one) {
            q
        } else {
            one
        }
    }
}

/// What is left of 1 after the quotient, but not less than 0.
#[verifier::allow_in_spec]
pub fn burn(cb: Real32, cs: Real32) -> Real32
    returns
        (if cb.same(Real32 { bits: SHORT_ONE }) {
            Real32 { bits: SHORT_ONE }
        } else if cs.same(Real32 { bits: SHORT_ZERO }) {
            Real32 { bits: SHORT_ZERO }
        } else if (Real32 { bits: SHORT_ONE }).minus(cb).over(cs).below(
            Real32 { bits: SHORT_ONE },
        ) {
            (Real32 { bits: SHORT_ONE }).minus((Real32 { bits: SHORT_ONE }).minus(cb).over(cs))
        } else {
            Real32 { bits: SHORT_ZERO }
        }),
{
    let one: Real32 = Real32 { bits: SHORT_ONE };
    let zero: Real32 = Real32 { bits: SHORT_ZERO };
    if cb.same(one) {
        one
    } else if cs.same(zero) {
        zero
    } else {
        let q: Real32 = one.minus(cb).over(cs);
        if q.below(one) {
            one.minus(q)
        } else {
            zero
        }
    }
}

/// One channel of the backdrop `cb` under the source `cs`, in each mode.
#[verifier::allow_in_spec]
pub fn blend_channel(mode: BlendMode, cb: Real32, cs: Real32) -> Real32
    returns
        (match mode {
            BlendMode::Normal => cs,
            BlendMode::Multiply => cb.times(cs),
            BlendMode::Screen => screen(cb, cs),
            BlendMode::Overlay => hard_light(cs, cb),
            BlendMode::Darken => if cb.at_most(cs) {
                cb
            } else {
                cs
            },
            BlendMode::Lighten => if cs.at_most(cb) {
                cb
            } else {
                cs
            },
            BlendMode::ColorDodge => dodge(cb, cs),
            BlendMode::ColorBurn => burn(cb, cs),
            BlendMode::HardLight => hard_light(cb, cs),
            BlendMode::SoftLight => soft_light(cb, cs),
            BlendMode::Difference => if cs.at_most(cb) {
                cb.minus(cs)
            } else {
                cs.minus(cb)
            },
            BlendMode::Exclusion => cb.plus(cs).minus(doubled(cb.times(cs))),
        }),
{
    match mode {
        BlendMode::Normal => cs,
        BlendMode::Multiply => cb.times(cs),
        BlendMode::Screen => screen(cb, cs),
        BlendMode::Overlay => hard_light(cs, cb),
        BlendMode::Darken => {
            if cb.at_most(cs) {
                cb
            } else {
                cs
            }
        },
        BlendMode::Lighten => {
            if cs.at_most(cb) {
                cb
            } else {
                cs
            }
        },
        BlendMode::ColorDodge => dodge(cb, cs),
        BlendMode::ColorBurn => burn(cb, cs),
        BlendMode::HardLight => hard_light(cb, cs),
        BlendMode::SoftLight => soft_light(cb, cs),
        BlendMode::Difference => {
            if cs.at_most(cb) {
                cb.minus(cs)
            } else {
                cs.minus(cb)
            }
        },
        BlendMode::Exclusion => {
            let p: Real32 = cb.times(cs);
            cb.plus(cs).minus(doubled(p))
        },
    }
}

/// A number, or the end of the range from 0 to 1 that it is beyond.
#[verifier::allow_in_spec]
pub fn in_unit(v: Real32) -> Real32
    returns
        v.clamped(Real32 { bits: SHORT_ZERO }, Real32 { bits: SHORT_ONE }),
{
    v.clamped(Real32 { bits: SHORT_ZERO }, Real32 { bits: SHORT_ONE })
}

/// One channel of the result: the source where there is no backdrop, the blend where
/// there are both, the backdrop where there is no source, over the opacity of all.
#[verifier::allow_in_spec]
pub fn composite_channel(
    mode: BlendMode,
    source: Real32,
    backdrop: Real32,
    a_s: Real32,
    a_b: Real32,
    a_o: Real32,
) -> Real32
    returns
        a_s.times((Real32 { bits: SHORT_ONE }).minus(a_b)).times(in_unit(source)).plus(
            a_s.times(a_b).times(blend_channel(mode, in_unit(backdrop), in_unit(source))),
        ).plus(
            (Real32 { bits: SHORT_ONE }).minus(a_s).times(a_b).times(in_unit(backdrop)),
        ).over(a_o),
{
    let one: Real32 = Real32 { bits: SHORT_ONE };
    let cs: Real32 = in_unit(source);
    let cb: Real32 = in_unit(backdrop);
    let b: Real32 = blend_channel(mode, cb, cs);
    let t1: Real32 = a_s.times(one.minus(a_b)).times(cs);
    let t2: Real32 = a_s.times(a_b).times(b);
    let t3: Real32 = one.minus(a_s).times(a_b).times(cb);
    t1.plus(t2).plus(t3).over(a_o)
}

/// What a layer's pixel makes of the pixel under it. A source without opacity leaves
/// the backdrop as it is, bit for bit.
#[verifier::opaque]
pub open spec fn composite_pixel(
    mode: BlendMode,
    opacity: Real32,
    weight: Real32,
    dst: Rgba32,
    src: Rgba32,
) -> Rgba32 {
    let one = Real32 { bits: SHORT_ONE };
    let zero = Real32 { bits: SHORT_ZERO };
    let a_s = in_unit(src.a).times(opacity).times(weight);
    let a_b = in_unit(dst.a);
    let a_o = a_s.plus(a_b.times(one.minus(a_s)));
    if a_s.same(zero) {
        dst
    } else if a_o.same(zero) {
        Rgba32 { r: zero, g: zero, b: zero, a: zero }
    } else {
        Rgba32 {
            r: composite_channel(mode, src.r, dst.r, a_s, a_b, a_o),
            g: composite_channel(mode, src.g, dst.g, a_s, a_b, a_o),
            b: composite_channel(mode, src.b, dst.b, a_s, a_b, a_o),
            a: a_o,
        }
    }
}

pub(crate) fn over_pixel(mode: BlendMode, opacity: Real32, weight: Real32, dst: Rgba32, src: Rgba32) -> (r:
    Rgba32)
    ensures
        r == composite_pixel(mode, opacity, weight, dst, src),
{
    reveal(composite_pixel);
    let one: Real32 = Real32 { bits: SHORT_ONE };
    let zero: Real32 = Real32 { bits: SHORT_ZERO };
    let a_s: Real32 = in_unit(src.a).times(opacity).times(weight);
    if a_s.same(zero) {
        return dst;
    }
    let a_b: Real32 = in_unit(dst.a);
    let a_o: Real32 = a_s.plus(a_b.times(one.minus(a_s)));
    if a_o.same(zero) {
        return Rgba32 { r: zero, g: zero, b: zero, a: zero };
    }
    Rgba32 {
        r: composite_channel(mode, src.r, dst.r, a_s, a_b, a_o),
        g: composite_channel(mode, src.g, dst.g, a_s, a_b, a_o),
        b: composite_channel(mode, src.b, dst.b, a_s, a_b, a_o),
        a: a_o,
    }
}

/// The weight of a mask at a place; without a mask it is 1.
pub open spec fn weight_at(weights: Option<Vec<Real32>>, i: int) -> Real32 {
    match weights {
        Some(m) => m@[i],
        None => Real32 { bits: SHORT_ONE },
    }
}

/// Mixes a layer into the canvas under it, pixel by pixel.
pub fn composite(
    backdrop: &mut Image<Rgba32>,
    layer: &Image<Rgba32>,
    mode: BlendMode,
    opacity: Real32,
    weights: &Option<Vec<Real32>>,
)
    requires
        old(backdrop).well_formed(),
        layer.well_formed(),
        layer.width == old(backdrop).width,
        layer.height == old(backdrop).height,
        weights matches Some(m) ==> m@.len() == layer.data@.len(),
    ensures
        final(backdrop).well_formed(),
        final(backdrop).width == old(backdrop).width,
        final(backdrop).height == old(backdrop).height,
        forall|i: int|
            0 <= i < layer.data@.len() ==> #[trigger] final(backdrop).data@[i] == composite_pixel(
                mode,
                opacity,
                weight_at(*weights, i),
                old(backdrop).data@[i],
                layer.data@[i],
            ),
{
    let one: Real32 = Real32 { bits: SHORT_ONE };
    let mut i: usize = 0;
    while i < layer.data.len()
        invariant
            i <= layer.data@.len(),
            backdrop.data@.len() == layer.data@.len(),
            old(backdrop).data@.len() == layer.data@.len(),
            backdrop.width == old(backdrop).width,
            backdrop.height == old(backdrop).height,
            one == (Real32 { bits: SHORT_ONE }),
            weights matches Some(m) ==> m@.len() == layer.data@.len(),
            forall|k: int|
                0 <= k < i ==> #[trigger] backdrop.data@[k] == composite_pixel(
                    mode,
                    opacity,
                    weight_at(*weights, k),
                    old(backdrop).data@[k],
                    layer.data@[k],
                ),
            forall|k: int|
                i <= k < layer.data@.len() ==> #[trigger] backdrop.data@[k] == old(
                    backdrop,
                ).data@[k],
        decreases layer.data.len() - i,
    {
        let w: Real32 = match weights {
            Some(m) => m[i],
            None => one,
        };
        let px: Rgba32 = over_pixel(mode, opacity, w, backdrop.data[i], layer.data[i]);
        backdrop.data.set(i, px);
        i = i + 1;
    }
}

/// Overlay is hard light with source and backdrop exchanged.
pub proof fn overlay_is_hard_light_exchanged(cb: Real32, cs: Real32)
    ensures
        blend_channel(BlendMode::Overlay, cb, cs) == blend_channel(BlendMode::HardLight, cs, cb),
{
}

/// A number kept between 0 and 1 is finite, unless it is none.
proof fn unit_is_finite(v: Real32)
    requires
        !v.is_nan(),
    ensures
        is_finite32(in_unit(v)),
        unsigned(Width::Single, in_unit(v).bits as u64) <= one(Width::Single),
{
}

/// A layer that is clear, or of no opacity, or under a mask of no weight, changes nothing,
/// to the last bit.
pub proof fn without_opacity_nothing_changes(
    mode: BlendMode,
    opacity: Real32,
    weight: Real32,
    dst: Rgba32,
    src: Rgba32,
)
    requires
        !src.a.is_nan(),
        is_finite32(opacity),
        is_finite32(weight),
        is_zero32(src.a) || is_zero32(opacity) || is_zero32(weight),
    ensures
        composite_pixel(mode, opacity, weight, dst, src) == dst,
{
    reveal(composite_pixel);
    unit_is_finite(src.a);
    let a = in_unit(src.a);
    let b = a.times(opacity);
    if is_zero32(src.a) {
        times_zero(opacity, a);
        times_zero(weight, b);
    } else if is_zero32(opacity) {
        times_zero(a, opacity);
        times_zero(weight, b);
    } else {
        unit_times_is_finite(a, opacity);
        times_zero(b, weight);
    }
}

proof fn opaque_channel(mode: BlendMode, source: Real32, backdrop: Real32)
    requires
        !source.is_nan(),
        !backdrop.is_nan(),
    ensures
        ({
            let r = composite_channel(mode, source, backdrop, one32(), one32(), one32());
            let b = blend_channel(mode, in_unit(backdrop), in_unit(source));
            agree(r, b) && (is_finite32(b) && !is_zero32(b) ==> r == b)
        }),
{
    let cs = in_unit(source);
    let cb = in_unit(backdrop);
    let zero = Real32 { bits: SHORT_ZERO };
    unit_is_finite(source);
    unit_is_finite(backdrop);
    one_less_one();
    times_one(one32());
    times_one(zero);
    times_zero(cs, zero);
    times_zero(cb, zero);
    passes_through(zero.times(cs), blend_channel(mode, cb, cs), zero.times(cb));
}

/// An opaque layer on an opaque backdrop gives the blend of the two colours, and stays
/// opaque. Where the blend is not zero it is given to the last bit.
pub proof fn opaque_on_opaque_is_the_blend(mode: BlendMode, dst: Rgba32, src: Rgba32)
    requires
        src.a == one32(),
        dst.a == one32(),
        !src.r.is_nan() && !src.g.is_nan() && !src.b.is_nan(),
        !dst.r.is_nan() && !dst.g.is_nan() && !dst.b.is_nan(),
    ensures
        ({
            let p = composite_pixel(mode, one32(), one32(), dst, src);
            let r = blend_channel(mode, in_unit(dst.r), in_unit(src.r));
            let g = blend_channel(mode, in_unit(dst.g), in_unit(src.g));
            let b = blend_channel(mode, in_unit(dst.b), in_unit(src.b));
            &&& p.a == one32()
            &&& agree(p.r, r) && agree(p.g, g) && agree(p.b, b)
            &&& is_finite32(r) && !is_zero32(r) ==> p.r == r
            &&& is_finite32(g) && !is_zero32(g) ==> p.g == g
            &&& is_finite32(b) && !is_zero32(b) ==> p.b == b
        }),
{
    reveal(composite_pixel);
    let zero = Real32 { bits: SHORT_ZERO };
    one_less_one();
    times_one(one32());
    times_one(zero);
    plus_zero(one32(), zero);
    opaque_channel(mode, src.r, dst.r);
    opaque_channel(mode, src.g, dst.g);
    opaque_channel(mode, src.b, dst.b);
}

/// An opaque layer in the normal mode takes the place of an opaque backdrop.
pub proof fn normal_replaces(dst: Rgba32, src: Rgba32)
    requires
        src.a == one32(),
        dst.a == one32(),
        !src.r.is_nan() && !src.g.is_nan() && !src.b.is_nan(),
        !dst.r.is_nan() && !dst.g.is_nan() && !dst.b.is_nan(),
    ensures
        ({
            let p = composite_pixel(BlendMode::Normal, one32(), one32(), dst, src);
            &&& p.a == one32()
            &&& agree(p.r, in_unit(src.r))
            &&& agree(p.g, in_unit(src.g))
            &&& agree(p.b, in_unit(src.b))
        }),
{
    opaque_on_opaque_is_the_blend(BlendMode::Normal, dst, src);
}

} // verus!
