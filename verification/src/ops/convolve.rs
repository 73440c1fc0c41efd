//! Convolution.
use vstd::prelude::*;

use crate::binary::{Real, Triple};
use crate::error::{op_error, op_fault, verdict, AtxError, Fault};
use crate::number::{
    finite, is_finite, is_within, magnitude, within, Number, BYTE_MAX, BYTE_SPAN, MILLIONTH,
    MINUS_BYTE_MAX, MINUS_BYTE_SPAN, SIGN, ZERO,
};
use crate::raster::{inside, Image, Rgba};
use crate::text::{cat2, cat4, dec, decimal};

verus! {

/// What is wrong with the elements of a kernel from place `i` on.
pub open spec fn kernel_element_fault(index: int, kernel: Seq<Number>, i: int) -> Option<Fault>
    decreases kernel.len() - i,
{
    if i >= kernel.len() {
        None
    } else if !finite(kernel[i].bits) {
        op_fault(
            index,
            "convolve"@,
            "kernel["@ + decimal(i as nat) + "] must be finite, got "@ + kernel[i].text@,
        )
    } else if !within(kernel[i].bits, MINUS_BYTE_SPAN, BYTE_SPAN) {
        op_fault(
            index,
            "convolve"@,
            "kernel["@ + decimal(i as nat) + "] must satisfy |v| <= 256, got "@ + kernel[i].text@,
        )
    } else {
        kernel_element_fault(index, kernel, i + 1)
    }
}

/// What is wrong with the parameters of `convolve`: the kernel is a square of side 3,
/// 5, 7 or 9, the divisor is not close to zero and the offset stays within a byte.
pub open spec fn convolve_fault(
    index: int,
    kernel: Seq<Number>,
    size: u32,
    divisor: Number,
    offset: Number,
) -> Option<Fault> {
    if size != 3 && size != 5 && size != 7 && size != 9 {
        op_fault(
            index,
            "convolve"@,
            "size must be one of 3, 5, 7, 9, got "@ + decimal(size as nat),
        )
    } else if kernel.len() != size * size {
        op_fault(
            index,
            "convolve"@,
            "kernel.len() must equal size*size = "@ + decimal((size * size) as nat) + ", got "@
                + decimal(kernel.len()),
        )
    } else if kernel_element_fault(index, kernel, 0) is Some {
        kernel_element_fault(index, kernel, 0)
    } else if !finite(divisor.bits) {
        op_fault(index, "convolve"@, "divisor must be finite, got "@ + divisor.text@)
    } else if magnitude(divisor.bits) < MILLIONTH {
        op_fault(
            index,
            "convolve"@,
            "divisor must satisfy |divisor| >= 1e-6, got "@ + divisor.text@,
        )
    } else if !within(offset.bits, MINUS_BYTE_MAX, BYTE_MAX) {
        op_fault(
            index,
            "convolve"@,
            "offset must be finite and within -255.0..=255.0, got "@ + offset.text@,
        )
    } else {
        None
    }
}

/// Checks the parameters of `convolve`.
pub fn validate(
    index: usize,
    kernel: &Vec<Number>,
    size: u32,
    divisor: &Number,
    offset: &Number,
) -> (r: Result<(), AtxError>)
    ensures
        verdict(r) == convolve_fault(index as int, kernel@, size, *divisor, *offset),
{
    if size != 3 && size != 5 && size != 7 && size != 9 {
        let number: String = dec(size as u64);
        let message: String = cat2("size must be one of 3, 5, 7, 9, got ", number.as_str());
        return Err(op_error(index, "convolve", message.as_str()));
    }
    assert(size * size <= 81) by (nonlinear_arith)
        requires
            size <= 9,
    ;
    let expected: usize = (size * size) as usize;
    if kernel.len() != expected {
        let want: String = dec(expected as u64);
        let got: String = dec(kernel.len() as u64);
        let message: String = cat4(
            "kernel.len() must equal size*size = ",
            want.as_str(),
            ", got ",
            got.as_str(),
        );
        return Err(op_error(index, "convolve", message.as_str()));
    }
    let mut i: usize = 0;
    while i < kernel.len()
        invariant
            i <= kernel.len(),
            kernel@.len() == size * size,
            size == 3 || size == 5 || size == 7 || size == 9,
            kernel_element_fault(index as int, kernel@, 0) == kernel_element_fault(
                index as int,
                kernel@,
                i as int,
            ),
        decreases kernel.len() - i,
    {
        let bits: u64 = kernel[i].bits;
        if !is_finite(bits) {
            let number: String = dec(i as u64);
            let message: String = cat4(
                "kernel[",
                number.as_str(),
                "] must be finite, got ",
                kernel[i].text.as_str(),
            );
            return Err(op_error(index, "convolve", message.as_str()));
        }
        if !is_within(bits, MINUS_BYTE_SPAN, BYTE_SPAN) {
            let number: String = dec(i as u64);
            let message: String = cat4(
                "kernel[",
                number.as_str(),
                "] must satisfy |v| <= 256, got ",
                kernel[i].text.as_str(),
            );
            return Err(op_error(index, "convolve", message.as_str()));
        }
        i = i + 1;
    }
    if !is_finite(divisor.bits) {
        let message: String = cat2("divisor must be finite, got ", divisor.text.as_str());
        return Err(op_error(index, "convolve", message.as_str()));
    }
    let size_of_divisor: u64 = if divisor.bits >= SIGN {
        divisor.bits - SIGN
    } else {
        divisor.bits
    };
    if size_of_divisor < MILLIONTH {
        let message: String = cat2(
            "divisor must satisfy |divisor| >= 1e-6, got ",
            divisor.text.as_str(),
        );
        return Err(op_error(index, "convolve", message.as_str()));
    }
    if !is_within(offset.bits, MINUS_BYTE_MAX, BYTE_MAX) {
        let message: String = cat2(
            "offset must be finite and within -255.0..=255.0, got ",
            offset.text.as_str(),
        );
        return Err(op_error(index, "convolve", message.as_str()));
    }
    Ok(())
}

/// A sum with one more weighted colour.
#[verifier::allow_in_spec]
pub fn add_colour(acc: Triple, weight: Real, p: Rgba) -> Triple
    returns
        (Triple {
            r: acc.r.plus(weight.times(Real::of_byte(p.r))),
            g: acc.g.plus(weight.times(Real::of_byte(p.g))),
            b: acc.b.plus(weight.times(Real::of_byte(p.b))),
        }),
{
    Triple {
        r: acc.r.plus(weight.times(Real::of_byte(p.r))),
        g: acc.g.plus(weight.times(Real::of_byte(p.g))),
        b: acc.b.plus(weight.times(Real::of_byte(p.b))),
    }
}

/// The first `n` parts of the weighted sum around a place: the kernel is read row by
/// row, and beyond an edge the pixel at the edge counts.
pub open spec fn kernel_sum(
    img: Image<Rgba>,
    kernel: Seq<Real>,
    size: int,
    x: int,
    y: int,
    n: nat,
) -> Triple
    decreases n,
{
    if n == 0 {
        let zero = Real { bits: ZERO };
        Triple { r: zero, g: zero, b: zero }
    } else {
        let k = n - 1;
        let at_x = inside(x + (k % size) - size / 2, img.width as int);
        let at_y = inside(y + (k / size) - size / 2, img.height as int);
        add_colour(
            kernel_sum(img, kernel, size, x, y, (n - 1) as nat),
            kernel[k],
            img.pixel(at_x, at_y),
        )
    }
}

/// A pixel of the convolved image. Opacity stays.
pub open spec fn convolved(
    img: Image<Rgba>,
    kernel: Seq<Real>,
    size: int,
    divisor: Real,
    offset: Real,
    x: int,
    y: int,
) -> Rgba {
    let acc = kernel_sum(img, kernel, size, x, y, kernel.len());
    Rgba {
        r: acc.r.over(divisor).plus(offset).to_byte(),
        g: acc.g.over(divisor).plus(offset).to_byte(),
        b: acc.b.over(divisor).plus(offset).to_byte(),
        a: img.pixel(x, y).a,
    }
}

fn sum_around(img: &Image<Rgba>, kernel: &Vec<Real>, size: u32, x: u32, y: u32) -> (r: Triple)
    requires
        img.well_formed(),
        x < img.width,
        y < img.height,
        0 < size <= 0xFFFF,
        kernel@.len() == size * size,
    ensures
        r == kernel_sum(*img, kernel@, size as int, x as int, y as int, kernel@.len()),
{
    let zero: Real = Real { bits: ZERO };
    let mut acc: Triple = Triple { r: zero, g: zero, b: zero };
    let half: i64 = (size / 2) as i64;
    let mut k: usize = 0;
    let mut kx: u32 = 0;
    let mut ky: u32 = 0;
    let ghost s = size as int;
    while k < kernel.len()
        invariant
            img.well_formed(),
            x < img.width,
            y < img.height,
            0 < size <= 0xFFFF,
            s == size,
            half == size / 2,
            kernel@.len() == s * s,
            k <= kernel@.len(),
            k == ky * s + kx,
            kx < size,
            ky <= size,
            acc == kernel_sum(*img, kernel@, s, x as int, y as int, k as nat),
        decreases kernel.len() - k,
    {
        proof {
            vstd::arithmetic::div_mod::lemma_fundamental_div_mod_converse(
                k as int,
                s,
                ky as int,
                kx as int,
            );
            if ky >= s {
                assert(ky * s >= s * s) by (nonlinear_arith)
                    requires
                        ky >= s,
                        s > 0,
                ;
            }
        }
        let px: Rgba = img.get_clamped(x as i64 + kx as i64 - half, y as i64 + ky as i64 - half);
        acc = add_colour(acc, kernel[k], px);
        k = k + 1;
        kx = kx + 1;
        if kx == size {
            kx = 0;
            assert((ky + 1) * s == ky * s + s) by (nonlinear_arith);
            ky = ky + 1;
        }
    }
    acc
}

/// Convolves the colours of an image with a square kernel: the weighted sum around each
/// pixel over the divisor, plus the offset.
pub fn apply(img: &Image<Rgba>, kernel: &Vec<Real>, size: u32, divisor: Real, offset: Real) -> (r:
    Image<Rgba>)
    requires
        img.well_formed(),
        size <= 0xFFFF,
        size % 2 == 1,
        kernel@.len() == size * size,
    ensures
        r.well_formed(),
        r.width == img.width,
        r.height == img.height,
        forall|x: int, y: int|
            0 <= x < img.width && 0 <= y < img.height ==> #[trigger] r.pixel(x, y) == convolved(
                *img,
                kernel@,
                size as int,
                divisor,
                offset,
                x,
                y,
            ),
{
    let count: usize = img.data.len();
    let f = |x: u32, y: u32| -> (p: Rgba)
        requires
            img.well_formed(),
            x < img.width,
            y < img.height,
            0 < size <= 0xFFFF,
            kernel@.len() == size * size,
        ensures
            p == convolved(
                *img,
                kernel@,
                size as int,
                divisor,
                offset,
                x as int,
                y as int,
            ),
        {
            let acc: Triple = sum_around(img, kernel, size, x, y);
            let px: Rgba = img.get(x, y);
            Rgba {
                r: acc.r.over(divisor).plus(offset).to_byte(),
                g: acc.g.over(divisor).plus(offset).to_byte(),
                b: acc.b.over(divisor).plus(offset).to_byte(),
                a: px.a,
            }
        };
    let r: Image<Rgba> = Image::build(img.width, img.height, f);
    proof {
        assert forall|x: int, y: int|
            0 <= x < img.width && 0 <= y < img.height implies #[trigger] r.pixel(x, y)
            == convolved(*img, kernel@, size as int, divisor, offset, x, y) by {
            assert(call_ensures(
                f,
                (x as u32, y as u32),
                r.pixel(x as u32 as int, y as u32 as int),
            ));
        }
    }
    r
}

} // verus!
