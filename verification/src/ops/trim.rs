//! Trimming a uniform border.
use vstd::prelude::*;

use crate::error::{op_error, op_fault, verdict, AtxError, Fault};
use crate::linear::{byte_pixel, unit_to_u8, LinearImage};
use crate::raster::{Rgba, Rgba32};
use crate::recipe::{hex_color_value, parse_hex_color, Rect};
use crate::text::{cat2, dec, decimal, debug_text, quoted};

verus! {

/// What is wrong with the parameters of `trim`.
pub open spec fn trim_fault(index: int, background: Option<String>, padding: u32) -> Option<Fault> {
    if padding > 4096 {
        op_fault(
            index,
            "trim"@,
            "padding must be within 0..=4096, got "@ + decimal(padding as nat),
        )
    } else {
        match background {
            None => None,
            Some(hex) => if hex_color_value(hex@) is Some {
                None
            } else {
                op_fault(
                    index,
                    "trim"@,
                    "background must be a CSS hex color (#rgb / #rrggbb / #rrggbbaa), got "@
                        + debug_text(hex@),
                )
            },
        }
    }
}

/// Checks the parameters of `trim`.
pub fn validate(index: usize, background: &Option<String>, padding: u32) -> (r: Result<
    (),
    AtxError,
>)
    ensures
        verdict(r) == trim_fault(index as int, *background, padding),
{
    if padding > 4096 {
        let number: String = dec(padding as u64);
        let message: String = cat2("padding must be within 0..=4096, got ", number.as_str());
        return Err(op_error(index, "trim", message.as_str()));
    }
    match background {
        None => {},
        Some(hex) => {
            if parse_hex_color(hex.as_str()).is_none() {
                let color: String = quoted(hex.as_str());
                let message: String = cat2(
                    "background must be a CSS hex color (#rgb / #rrggbb / #rrggbbaa), got ",
                    color.as_str(),
                );
                return Err(op_error(index, "trim", message.as_str()));
            }
        },
    }
    Ok(())
}

fn to_u8(p: Rgba32) -> (r: Rgba)
    ensures
        r == byte_pixel(p),
{
    Rgba { r: unit_to_u8(p.r), g: unit_to_u8(p.g), b: unit_to_u8(p.b), a: unit_to_u8(p.a) }
}

/// Two bytes differ by at most `tolerance`.
#[verifier::allow_in_spec]
pub fn is_near(a: u8, b: u8, tolerance: u8) -> bool
    returns
        -tolerance <= a - b <= tolerance,
{
    if a >= b {
        a - b <= tolerance
    } else {
        b - a <= tolerance
    }
}

/// Whether a colour counts as background: no channel differs by more than the
/// tolerance, or both are as good as transparent.
#[verifier::allow_in_spec]
pub fn is_background(p: Rgba, bg: Rgba, tolerance: u8) -> bool
    returns
        (bg.a <= tolerance && p.a <= tolerance) || (is_near(p.r, bg.r, tolerance) && is_near(
            p.g,
            bg.g,
            tolerance,
        ) && is_near(p.b, bg.b, tolerance) && is_near(p.a, bg.a, tolerance)),
{
    (bg.a <= tolerance && p.a <= tolerance) || (is_near(p.r, bg.r, tolerance) && is_near(
        p.g,
        bg.g,
        tolerance,
    ) && is_near(p.b, bg.b, tolerance) && is_near(p.a, bg.a, tolerance))
}

/// How often a colour occurs among four.
pub open spec fn votes(c: Rgba, corners: Seq<Rgba>) -> int {
    corners.to_multiset().count(c) as int
}

/// The first of four colours that no other outnumbers.
pub open spec fn is_majority(corners: Seq<Rgba>, i: int) -> bool {
    &&& 0 <= i < corners.len()
    &&& forall|j: int|
        0 <= j < corners.len() ==> votes(#[trigger] corners[j], corners) <= votes(
            corners[i],
            corners,
        )
    &&& forall|j: int|
        0 <= j < i ==> votes(#[trigger] corners[j], corners) < votes(corners[i], corners)
}

/// The colours in the corners, from the top left over the top right and the bottom left
/// to the bottom right.
pub open spec fn corners(img: LinearImage) -> Seq<Rgba> {
    seq![
        byte_pixel(img.pixel(0, 0)),
        byte_pixel(img.pixel(img.width - 1, 0)),
        byte_pixel(img.pixel(0, img.height - 1)),
        byte_pixel(img.pixel(img.width - 1, img.height - 1)),
    ]
}

fn same_colour(a: Rgba, b: Rgba) -> (r: u8)
    ensures
        r == (if a == b {
            1int
        } else {
            0
        }),
{
    if a.r == b.r && a.g == b.g && a.b == b.b && a.a == b.a {
        1
    } else {
        0
    }
}

proof fn votes_of_four(s: Seq<Rgba>, c: Rgba)
    requires
        s.len() == 4,
    ensures
        votes(c, s) == (if s[0] == c {
            1int
        } else {
            0
        }) + (if s[1] == c {
            1int
        } else {
            0
        }) + (if s[2] == c {
            1int
        } else {
            0
        }) + (if s[3] == c {
            1int
        } else {
            0
        }),
{
    broadcast use vstd::seq_lib::group_to_multiset_ensures;

    let e = Seq::<Rgba>::empty();
    assert(s =~= e.push(s[0]).push(s[1]).push(s[2]).push(s[3]));
    assert(e.to_multiset().count(c) == 0);
    assert(e.push(s[0]).to_multiset() =~= e.to_multiset().insert(s[0]));
    assert(e.push(s[0]).push(s[1]).to_multiset() =~= e.push(s[0]).to_multiset().insert(s[1]));
    assert(e.push(s[0]).push(s[1]).push(s[2]).to_multiset() =~= e.push(s[0]).push(
        s[1],
    ).to_multiset().insert(s[2]));
    assert(s.to_multiset() =~= e.push(s[0]).push(s[1]).push(s[2]).to_multiset().insert(s[3]));
}

/// The colour of the background: the one that most corners have, and of several the one
/// that comes first.
pub fn corner_background(img: &LinearImage) -> (r: Rgba)
    requires
        img.well_formed(),
        img.width > 0,
        img.height > 0,
    ensures
        exists|i: int| #[trigger] is_majority(corners(*img), i) && r == corners(*img)[i],
{
    let (w, h): (u32, u32) = (img.width, img.height);
    let c: [Rgba; 4] = [
        to_u8(img.get(0, 0)),
        to_u8(img.get(w - 1, 0)),
        to_u8(img.get(0, h - 1)),
        to_u8(img.get(w - 1, h - 1)),
    ];
    let ghost all = corners(*img);
    assert(c@ =~= all);
    let mut best: usize = 0;
    let mut most: u8 = 0;
    let mut i: usize = 0;
    while i < 4
        invariant
            i <= 4,
            c@ == all,
            all.len() == 4,
            best < 4,
            i == 0 ==> best == 0 && most == 0,
            i > 0 ==> best < i && most == votes(all[best as int], all),
            forall|j: int| 0 <= j < i ==> votes(#[trigger] all[j], all) <= most,
            forall|j: int| 0 <= j < best ==> votes(#[trigger] all[j], all) < most,
        decreases 4 - i,
    {
        proof {
            votes_of_four(all, all[i as int]);
        }
        let count: u8 = same_colour(c[0], c[i]) + same_colour(c[1], c[i]) + same_colour(
            c[2],
            c[i],
        ) + same_colour(c[3], c[i]);
        assert(count == votes(all[i as int], all));
        if count > most {
            most = count;
            best = i;
        }
        i = i + 1;
    }
    assert(is_majority(all, best as int));
    c[best]
}

/// The pixel at a place is not background.
pub open spec fn is_content(img: LinearImage, bg: Rgba, tolerance: u8, x: int, y: int) -> bool {
    0 <= x < img.width && 0 <= y < img.height && !is_background(
        byte_pixel(img.pixel(x, y)),
        bg,
        tolerance,
    )
}

/// The columns `x0` to `x1` and rows `y0` to `y1` hold all content, and each of the four
/// is needed for that.
pub open spec fn is_box(
    img: LinearImage,
    bg: Rgba,
    tolerance: u8,
    x0: int,
    y0: int,
    x1: int,
    y1: int,
) -> bool {
    &&& forall|x: int, y: int| #[trigger]
        is_content(img, bg, tolerance, x, y) ==> x0 <= x <= x1 && y0 <= y <= y1
    &&& exists|y: int| #[trigger] is_content(img, bg, tolerance, x0, y)
    &&& exists|y: int| #[trigger] is_content(img, bg, tolerance, x1, y)
    &&& exists|x: int| #[trigger] is_content(img, bg, tolerance, x, y0)
    &&& exists|x: int| #[trigger] is_content(img, bg, tolerance, x, y1)
}

/// A box with padding around it, as far as the image goes.
pub open spec fn padded(x0: int, y0: int, x1: int, y1: int, padding: int, w: int, h: int) -> Rect {
    let left = if x0 < padding {
        0
    } else {
        x0 - padding
    };
    let top = if y0 < padding {
        0
    } else {
        y0 - padding
    };
    let right = if x1 + padding > w - 1 {
        w - 1
    } else {
        x1 + padding
    };
    let bottom = if y1 + padding > h - 1 {
        h - 1
    } else {
        y1 + padding
    };
    Rect {
        x: left as u32,
        y: top as u32,
        width: (right - left + 1) as u32,
        height: (bottom - top + 1) as u32,
    }
}

/// `bg` is the background of an image: the given one, or else that of the corners.
pub open spec fn is_ground(img: LinearImage, background: Option<Rgba>, bg: Rgba) -> bool {
    match background {
        Some(c) => bg == c,
        None => exists|i: int| #[trigger] is_majority(corners(img), i) && bg == corners(img)[i],
    }
}

/// `r` is what is left of an image without its background: the box around its content,
/// with padding. There is nothing where there is no content.
pub open spec fn is_trimmed(
    img: LinearImage,
    tolerance: u8,
    bg: Rgba,
    padding: u32,
    r: Option<Rect>,
) -> bool {
    match r {
        None => forall|x: int, y: int| !#[trigger] is_content(img, bg, tolerance, x, y),
        Some(rect) => exists|x0: int, y0: int, x1: int, y1: int|
            #[trigger] is_box(img, bg, tolerance, x0, y0, x1, y1) && rect == padded(
                x0,
                y0,
                x1,
                y1,
                padding as int,
                img.width as int,
                img.height as int,
            ),
    }
}

/// The box around the content of a row, added to one around rows before it.
struct Box4 {
    found: bool,
    x0: u32,
    y0: u32,
    x1: u32,
    y1: u32,
}

impl Box4 {
    /// The box of the content in the rows above `y` and in the columns left of `x` of row
    /// `y`.
    spec fn covers(&self, img: LinearImage, bg: Rgba, tolerance: u8, x: int, y: int) -> bool {
        let seen = |i: int, j: int| j < y || (j == y && i < x);
        &&& !self.found ==> forall|i: int, j: int|
            seen(i, j) ==> !#[trigger] is_content(img, bg, tolerance, i, j)
        &&& self.found ==> {
            &&& forall|i: int, j: int| #[trigger]
                is_content(img, bg, tolerance, i, j) && seen(i, j) ==> self.x0 <= i <= self.x1
                    && self.y0 <= j <= self.y1
            &&& exists|j: int| #[trigger] is_content(img, bg, tolerance, self.x0 as int, j)
            &&& exists|j: int| #[trigger] is_content(img, bg, tolerance, self.x1 as int, j)
            &&& exists|i: int| #[trigger] is_content(img, bg, tolerance, i, self.y0 as int)
            &&& exists|i: int| #[trigger] is_content(img, bg, tolerance, i, self.y1 as int)
            &&& self.x0 <= self.x1 < img.width
            &&& self.y0 <= self.y1 < img.height
        }
    }
}

/// A box that takes in one more place covers what is seen so far.
proof fn box_grows(
    img: LinearImage,
    bg: Rgba,
    tolerance: u8,
    before: Box4,
    after: Box4,
    x: int,
    y: int,
)
    requires
        0 <= x < img.width,
        0 <= y < img.height,
        before.covers(img, bg, tolerance, x, y),
        !is_content(img, bg, tolerance, x, y) ==> after == before,
        is_content(img, bg, tolerance, x, y) ==> after.found,
        is_content(img, bg, tolerance, x, y) && !before.found ==> after.x0 == x && after.x1 == x
            && after.y0 == y && after.y1 == y,
        is_content(img, bg, tolerance, x, y) && before.found ==> {
            &&& after.x0 == (if x < before.x0 {
                x
            } else {
                before.x0 as int
            })
            &&& after.x1 == (if x > before.x1 {
                x
            } else {
                before.x1 as int
            })
            &&& after.y0 == (if y < before.y0 {
                y
            } else {
                before.y0 as int
            })
            &&& after.y1 == (if y > before.y1 {
                y
            } else {
                before.y1 as int
            })
        },
    ensures
        after.covers(img, bg, tolerance, x + 1, y),
{
    let was = |i: int, j: int| j < y || (j == y && i < x);
    let seen = |i: int, j: int| j < y || (j == y && i < x + 1);
    if is_content(img, bg, tolerance, x, y) {
        assert forall|i: int, j: int| #[trigger]
            is_content(img, bg, tolerance, i, j) && seen(i, j) implies after.x0 <= i <= after.x1
            && after.y0 <= j <= after.y1 by {
            if was(i, j) && before.found {
                assert(before.x0 <= i <= before.x1 && before.y0 <= j <= before.y1);
            }
        }
        if before.found {
            assert(exists|j: int| #[trigger] is_content(img, bg, tolerance, after.x0 as int, j));
            assert(exists|j: int| #[trigger] is_content(img, bg, tolerance, after.x1 as int, j));
            assert(exists|i: int| #[trigger] is_content(img, bg, tolerance, i, after.y0 as int));
            assert(exists|i: int| #[trigger] is_content(img, bg, tolerance, i, after.y1 as int));
        }
    } else {
        assert forall|i: int, j: int| #[trigger]
            is_content(img, bg, tolerance, i, j) && seen(i, j) implies was(i, j) by {}
    }
}

fn box_of(img: &LinearImage, bg: Rgba, tolerance: u8) -> (r: Box4)
    requires
        img.well_formed(),
    ensures
        r.covers(*img, bg, tolerance, 0, img.height as int),
{
    let mut b: Box4 = Box4 { found: false, x0: 0, y0: 0, x1: 0, y1: 0 };
    let mut y: u32 = 0;
    while y < img.height
        invariant
            img.well_formed(),
            y <= img.height,
            b.covers(*img, bg, tolerance, 0, y as int),
        decreases img.height - y,
    {
        let mut x: u32 = 0;
        while x < img.width
            invariant
                img.well_formed(),
                y < img.height,
                x <= img.width,
                b.covers(*img, bg, tolerance, x as int, y as int),
            decreases img.width - x,
        {
            let ghost before = b;
            if !is_background(to_u8(img.get(x, y)), bg, tolerance) {
                assert(is_content(*img, bg, tolerance, x as int, y as int));
                if !b.found {
                    b = Box4 { found: true, x0: x, y0: y, x1: x, y1: y };
                } else {
                    if x < b.x0 {
                        b.x0 = x;
                    }
                    if x > b.x1 {
                        b.x1 = x;
                    }
                    if y < b.y0 {
                        b.y0 = y;
                    }
                    if y > b.y1 {
                        b.y1 = y;
                    }
                }
            } else {
                assert(!is_content(*img, bg, tolerance, x as int, y as int));
            }
            proof {
                box_grows(*img, bg, tolerance, before, b, x as int, y as int);
            }
            x = x + 1;
        }
        y = y + 1;
    }
    b
}

/// What is left of an image without its background: the box around its content, with
/// padding. There is nothing where the image is empty or all background.
pub fn content_rect(img: &LinearImage, tolerance: u8, background: Option<Rgba>, padding: u32) -> (r:
    Option<Rect>)
    requires
        img.well_formed(),
    ensures
        img.width == 0 || img.height == 0 ==> r is None,
        img.width > 0 && img.height > 0 ==> exists|bg: Rgba| #[trigger]
            is_ground(*img, background, bg) && is_trimmed(*img, tolerance, bg, padding, r),
        r matches Some(rect) ==> rect.width > 0 && rect.height > 0 && rect.x + rect.width
            <= img.width && rect.y + rect.height <= img.height,
{
    if img.width == 0 || img.height == 0 {
        return None;
    }
    let bg: Rgba = match background {
        Some(c) => c,
        None => corner_background(img),
    };
    assert(is_ground(*img, background, bg));
    let b: Box4 = box_of(img, bg, tolerance);
    if !b.found {
        assert forall|x: int, y: int| !#[trigger] is_content(*img, bg, tolerance, x, y) by {}
        return None;
    }
    assert(is_box(
        *img,
        bg,
        tolerance,
        b.x0 as int,
        b.y0 as int,
        b.x1 as int,
        b.y1 as int,
    ));
    let left: u32 = if b.x0 < padding {
        0
    } else {
        b.x0 - padding
    };
    let top: u32 = if b.y0 < padding {
        0
    } else {
        b.y0 - padding
    };
    let right: u32 = if padding > img.width - 1 - b.x1 {
        img.width - 1
    } else {
        b.x1 + padding
    };
    let bottom: u32 = if padding > img.height - 1 - b.y1 {
        img.height - 1
    } else {
        b.y1 + padding
    };
    let rect: Rect = Rect {
        x: left,
        y: top,
        width: right - left + 1,
        height: bottom - top + 1,
    };
    assert(rect == padded(
        b.x0 as int,
        b.y0 as int,
        b.x1 as int,
        b.y1 as int,
        padding as int,
        img.width as int,
        img.height as int,
    ));
    Some(rect)
}

} // verus!
