//! Images: a width, a height and the pixels row by row.
use vstd::prelude::*;

use crate::binary::Real32;

verus! {

/// An image with pixels of any kind.
#[derive(Clone, Debug)]
pub struct Image<P> {
    pub width: u32,
    pub height: u32,
    pub data: Vec<P>,
}

/// A colour with its opacity, a byte each.
#[derive(Clone, Copy, Debug, PartialEq, Eq, Structural)]
pub struct Rgba {
    pub r: u8,
    pub g: u8,
    pub b: u8,
    pub a: u8,
}

/// One channel of a colour: red, green, blue, opacity.
#[verifier::allow_in_spec]
pub fn channel(p: Rgba, c: u8) -> u8
    returns
        (if c == 0 {
            p.r
        } else if c == 1 {
            p.g
        } else if c == 2 {
            p.b
        } else {
            p.a
        }),
{
    if c == 0 {
        p.r
    } else if c == 1 {
        p.g
    } else if c == 2 {
        p.b
    } else {
        p.a
    }
}

/// A colour with its opacity as numbers from 0 to 1.
#[derive(Clone, Copy, Debug, PartialEq, Eq, Structural)]
pub struct Rgba32 {
    pub r: Real32,
    pub g: Real32,
    pub b: Real32,
    pub a: Real32,
}

/// The place of a pixel in an image of width `w`.
pub open spec fn place(w: int, x: int, y: int) -> int {
    y * w + x
}

/// The place of a pixel lies inside the image.
pub proof fn place_is_inside(w: int, h: int, x: int, y: int)
    requires
        0 <= x < w,
        0 <= y < h,
    ensures
        0 <= place(w, x, y) < w * h,
{
    assert(0 <= y * w + x < w * h) by (nonlinear_arith)
        requires
            0 <= x < w,
            0 <= y < h,
    ;
}

/// Different pixels have different places.
pub proof fn places_differ(w: int, x0: int, y0: int, x1: int, y1: int)
    requires
        0 <= x0 < w,
        0 <= x1 < w,
        0 <= y0,
        0 <= y1,
        place(w, x0, y0) == place(w, x1, y1),
    ensures
        x0 == x1 && y0 == y1,
{
    if y0 < y1 {
        assert(y0 * w + w <= y1 * w) by (nonlinear_arith)
            requires
                y0 + 1 <= y1,
                w > 0,
        ;
    } else if y1 < y0 {
        assert(y1 * w + w <= y0 * w) by (nonlinear_arith)
            requires
                y1 + 1 <= y0,
                w > 0,
        ;
    }
}

/// Every place belongs to a pixel.
pub proof fn place_has_pixel(w: int, h: int, i: int)
    requires
        0 <= i < w * h,
        0 <= w,
        0 <= h,
    ensures
        0 < w,
        0 <= i % w < w,
        0 <= i / w < h,
        place(w, i % w, i / w) == i,
{
    if w == 0 {
        assert(w * h == 0) by (nonlinear_arith)
            requires
                w == 0,
        ;
    }
    vstd::arithmetic::div_mod::lemma_fundamental_div_mod(i, w);
    assert(w * (i / w) == (i / w) * w) by (nonlinear_arith);
    if i / w >= h {
        assert((i / w) * w >= h * w) by (nonlinear_arith)
            requires
                i / w >= h,
                w > 0,
        ;
        assert(h * w == w * h) by (nonlinear_arith);
    }
    vstd::arithmetic::div_mod::lemma_div_pos_is_pos(i, w);
}

impl<P: Copy> Image<P> {
    /// There is a pixel for each place, and no more.
    pub open spec fn well_formed(&self) -> bool {
        self.data@.len() == self.width * self.height
    }

    /// Whether there is a pixel for each place, and no more.
    pub fn is_complete(&self) -> (r: bool)
        ensures
            r == self.well_formed(),
    {
        let (w, h): (u32, u32) = (self.width, self.height);
        assert(0 <= w * h <= 0xFFFF_FFFF * 0xFFFF_FFFF) by (nonlinear_arith)
            requires
                0 <= w <= 0xFFFF_FFFF,
                0 <= h <= 0xFFFF_FFFF,
        ;
        self.data.len() as u128 == w as u128 * h as u128
    }

    /// The pixel in column `x` of row `y`.
    pub open spec fn pixel(&self, x: int, y: int) -> P {
        self.data@[place(self.width as int, x, y)]
    }

    /// Width and height.
    pub fn dimensions(&self) -> (r: (u32, u32))
        ensures
            r == (self.width, self.height),
    {
        (self.width, self.height)
    }

    /// The place of a pixel.
    pub fn index(&self, x: u32, y: u32) -> (r: usize)
        requires
            self.well_formed(),
            x < self.width,
            y < self.height,
        ensures
            r == place(self.width as int, x as int, y as int),
            r < self.data@.len(),
    {
        proof {
            place_is_inside(self.width as int, self.height as int, x as int, y as int);
            let a = y as int;
            let b = self.width as int;
            assert(0 <= a * b) by (nonlinear_arith)
                requires
                    a >= 0,
                    b >= 0,
            ;
        }
        let count: usize = self.data.len();
        assert(place(self.width as int, x as int, y as int) < count);
        y as usize * self.width as usize + x as usize
    }

    /// Reads a pixel.
    pub fn get(&self, x: u32, y: u32) -> (r: P)
        requires
            self.well_formed(),
            x < self.width,
            y < self.height,
        ensures
            r == self.pixel(x as int, y as int),
    {
        let i: usize = self.index(x, y);
        self.data[i]
    }

    /// Writes a pixel.
    pub fn set(&mut self, x: u32, y: u32, px: P)
        requires
            old(self).well_formed(),
            x < old(self).width,
            y < old(self).height,
        ensures
            final(self).well_formed(),
            final(self).width == old(self).width,
            final(self).height == old(self).height,
            final(self).data@ == old(self).data@.update(
                place(old(self).width as int, x as int, y as int),
                px,
            ),
            forall|i: int, j: int|
                0 <= i < old(self).width && 0 <= j < old(self).height
                    ==> #[trigger] final(self).pixel(i, j) == (if i == x && j == y {
                    px
                } else {
                    old(self).pixel(i, j)
                }),
    {
        let k: usize = self.index(x, y);
        self.data.set(k, px);
        proof {
            let w = self.width as int;
            let h = self.height as int;
            assert forall|i: int, j: int| 0 <= i < w && 0 <= j < h implies #[trigger] self.pixel(
                i,
                j,
            ) == (if i == x && j == y {
                px
            } else {
                old(self).pixel(i, j)
            }) by {
                place_is_inside(w, h, i, j);
                if place(w, i, j) == k {
                    places_differ(w, i, j, x as int, y as int);
                }
            }
        }
    }

    /// Reads the pixel at, or nearest to, a place that may lie outside.
    pub fn get_clamped(&self, x: i64, y: i64) -> (r: P)
        requires
            self.well_formed(),
            self.width > 0,
            self.height > 0,
        ensures
            r == self.pixel(
                inside(x as int, self.width as int),
                inside(y as int, self.height as int),
            ),
    {
        let cx: u32 = clamp_coord(x, self.width);
        let cy: u32 = clamp_coord(y, self.height);
        self.get(cx, cy)
    }

    /// An image of one colour.
    pub fn from_pixel(width: u32, height: u32, px: P) -> (r: Image<P>)
        requires
            width * height <= usize::MAX,
        ensures
            r.well_formed(),
            r.width == width,
            r.height == height,
            forall|i: int| 0 <= i < r.data@.len() ==> #[trigger] r.data@[i] == px,
            forall|x: int, y: int|
                0 <= x < width && 0 <= y < height ==> #[trigger] r.pixel(x, y) == px,
    {
        let f = |x: u32, y: u32| -> (p: P)
            ensures
                p == px,
            { px };
        let r: Image<P> = Image::build(width, height, f);
        proof {
            assert forall|i: int| 0 <= i < r.data@.len() implies #[trigger] r.data@[i] == px by {
                place_has_pixel(width as int, height as int, i);
                assert(r.pixel(i % width as int, i / width as int) == px);
            }
        }
        r
    }

    /// An image whose pixels are given by a function of column and row.
    pub fn build<F: Fn(u32, u32) -> P>(width: u32, height: u32, f: F) -> (r: Image<P>)
        requires
            width * height <= usize::MAX,
            forall|x: u32, y: u32| x < width && y < height ==> call_requires(f, (x, y)),
        ensures
            r.well_formed(),
            r.width == width,
            r.height == height,
            forall|x: u32, y: u32|
                x < width && y < height ==> call_ensures(
                    f,
                    (x, y),
                    #[trigger] r.pixel(x as int, y as int),
                ),
    {
        let mut data: Vec<P> = Vec::new();
        let ghost w = width as int;
        let mut y: u32 = 0;
        while y < height
            invariant
                y <= height,
                w == width,
                data@.len() == y * w,
                forall|x: u32, y: u32| x < width && y < height ==> call_requires(f, (x, y)),
                forall|i: u32, j: u32|
                    i < width && j < y ==> call_ensures(
                        f,
                        (i, j),
                        #[trigger] data@[place(w, i as int, j as int)],
                    ),
            decreases height - y,
        {
            let mut x: u32 = 0;
            while x < width
                invariant
                    x <= width,
                    y < height,
                    w == width,
                    data@.len() == y * w + x,
                    forall|x: u32, y: u32| x < width && y < height ==> call_requires(f, (x, y)),
                    forall|i: u32, j: u32|
                        i < width && (j < y || (j == y && i < x)) ==> call_ensures(
                            f,
                            (i, j),
                            #[trigger] data@[place(w, i as int, j as int)],
                        ),
                decreases width - x,
            {
                let ghost before = data@;
                data.push(f(x, y));
                proof {
                    assert forall|i: u32, j: u32|
                        i < width && (j < y || (j == y && i < x + 1)) implies call_ensures(
                        f,
                        (i, j),
                        #[trigger] data@[place(w, i as int, j as int)],
                    ) by {
                        if j < y {
                            place_is_inside(w, y as int, i as int, j as int);
                            assert(w * y == y * w) by (nonlinear_arith);
                        }
                        if j < y || i < x {
                            assert(data@[place(w, i as int, j as int)] == before[place(
                                w,
                                i as int,
                                j as int,
                            )]);
                        }
                    }
                }
                x = x + 1;
            }
            assert(y * w + w == (y + 1) * w) by (nonlinear_arith);
            y = y + 1;
        }
        assert(height * w == w * height) by (nonlinear_arith);
        Image { width, height, data }
    }
}

/// Two images have the same sides and the same pixels.
pub open spec fn are_alike<P: Copy>(a: Image<P>, b: Image<P>) -> bool {
    a.width == b.width && a.height == b.height && a.data@ == b.data@
}

/// Images that agree at every pixel are alike.
pub proof fn alike_by_pixels<P: Copy>(a: Image<P>, b: Image<P>)
    requires
        a.well_formed(),
        b.well_formed(),
        a.width == b.width,
        a.height == b.height,
        forall|x: int, y: int|
            0 <= x < a.width && 0 <= y < a.height ==> #[trigger] a.pixel(x, y) == b.pixel(x, y),
    ensures
        are_alike(a, b),
{
    assert forall|i: int| 0 <= i < a.data@.len() implies a.data@[i] == b.data@[i] by {
        let w = a.width as int;
        place_has_pixel(w, a.height as int, i);
        assert(a.pixel(i % w, i / w) == b.pixel(i % w, i / w));
    }
    assert(a.data@ =~= b.data@);
}

/// A function applied to each pixel makes alike images of alike images.
pub proof fn alike_when_mapped<P: Copy, Q: Copy>(
    a: Image<P>,
    b: Image<P>,
    f: spec_fn(P) -> Q,
    out_a: Image<Q>,
    out_b: Image<Q>,
)
    requires
        a.well_formed(),
        are_alike(a, b),
        is_mapped(a, out_a, f),
        is_mapped(b, out_b, f),
    ensures
        are_alike(out_a, out_b),
{
    assert(out_a.data@ =~= out_b.data@);
}

/// `out` is `img` with a function applied to each pixel.
pub open spec fn is_mapped<P: Copy, Q: Copy>(
    img: Image<P>,
    out: Image<Q>,
    f: spec_fn(P) -> Q,
) -> bool {
    &&& out.well_formed()
    &&& out.width == img.width
    &&& out.height == img.height
    &&& forall|i: int| 0 <= i < img.data@.len() ==> #[trigger] out.data@[i] == f(img.data@[i])
}

/// In an image made pixel by pixel, each pixel comes from the one at its place.
pub proof fn mapped_pixel<P: Copy, Q: Copy>(
    img: Image<P>,
    out: Image<Q>,
    f: spec_fn(P) -> Q,
    x: int,
    y: int,
)
    requires
        img.well_formed(),
        is_mapped(img, out, f),
        0 <= x < img.width,
        0 <= y < img.height,
    ensures
        out.pixel(x, y) == f(img.pixel(x, y)),
{
    place_is_inside(img.width as int, img.height as int, x, y);
}

/// Applies a function to each pixel.
pub fn map_pixels<P: Copy, Q: Copy, F: Fn(P) -> Q>(
    img: &Image<P>,
    f: F,
    Ghost(g): Ghost<spec_fn(P) -> Q>,
) -> (r: Image<Q>)
    requires
        img.well_formed(),
        forall|p: P| #[trigger] call_requires(f, (p,)),
        forall|p: P, q: Q| #[trigger] call_ensures(f, (p,), q) ==> q == g(p),
    ensures
        is_mapped(*img, r, g),
{
    let mut data: Vec<Q> = Vec::new();
    let mut i: usize = 0;
    while i < img.data.len()
        invariant
            i <= img.data@.len(),
            data@.len() == i,
            forall|p: P| #[trigger] call_requires(f, (p,)),
            forall|p: P, q: Q| #[trigger] call_ensures(f, (p,), q) ==> q == g(p),
            forall|k: int| 0 <= k < i ==> #[trigger] data@[k] == g(img.data@[k]),
        decreases img.data.len() - i,
    {
        let p: P = img.data[i];
        assert(call_requires(f, (p,)));
        data.push(f(p));
        i = i + 1;
    }
    Image { width: img.width, height: img.height, data }
}

/// The same image once more.
pub fn copy<P: Copy>(img: &Image<P>) -> (r: Image<P>)
    ensures
        r.width == img.width,
        r.height == img.height,
        r.data@ == img.data@,
{
    let mut data: Vec<P> = Vec::new();
    let mut i: usize = 0;
    while i < img.data.len()
        invariant
            i <= img.data@.len(),
            data@ == img.data@.take(i as int),
        decreases img.data.len() - i,
    {
        data.push(img.data[i]);
        i = i + 1;
        assert(img.data@.take(i as int) =~= img.data@.take(i - 1).push(img.data@[i - 1]));
    }
    assert(img.data@.take(i as int) =~= img.data@);
    Image { width: img.width, height: img.height, data }
}

/// A coordinate moved into a range of `len` places.
pub open spec fn inside(v: int, len: int) -> int {
    if v < 0 {
        0
    } else if v >= len {
        len - 1
    } else {
        v
    }
}

/// A coordinate moved into a range of `len` places.
pub fn clamp_coord(v: i64, len: u32) -> (r: u32)
    requires
        len > 0,
    ensures
        r == inside(v as int, len as int),
        r < len,
{
    if v < 0 {
        0
    } else if v >= len as i64 {
        len - 1
    } else {
        v as u32
    }
}

} // verus!
