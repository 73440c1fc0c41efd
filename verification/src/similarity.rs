//! Similarity of images: a difference hash and the structural similarity index.
use vstd::arithmetic::power2::{
    lemma2_to64, lemma2_to64_rest, lemma_pow2_strictly_increases, lemma_pow2_unfold, pow2,
};
use vstd::prelude::*;

use crate::binary::Real;
use crate::exact::order_does_not_matter;
use crate::integral::{grid, rect_sum, table_of, Table};
use crate::json::hex_char;
use crate::raster::{place, place_is_inside, Image};
use crate::stats::{
    buffer_fits, buffer_matches, channel_at, downscale_gray, downscaled, downscaled_is_not_empty,
    gray_from_interleaved, gray_of, luma, luma_u8, value_at,
};
use crate::sums::{sum_box, sum_box_agrees, sum_box_bounds, sum_row};

verus! {

/// The columns of cells of a difference hash.
pub const DHASH_COLS: u32 = 9;

/// The rows of cells of a difference hash.
pub const DHASH_ROWS: u32 = 8;

/// The longest edge at which similarity is measured.
pub const SSIM_MAX_LONG_EDGE: u32 = 2048;

/// The side of the windows of the similarity index.
pub const SSIM_WINDOW: u32 = 8;

/// Where part `index` of `divisions` of an extent begins and ends. A part is never
/// empty: where the extent is too short, parts share pixels.
pub open spec fn cell_range(extent: u32, index: int, divisions: int) -> (int, int) {
    let start = extent * index / divisions;
    let end = extent * (index + 1) / divisions;
    let from = if start < extent - 1 {
        start
    } else {
        extent - 1
    };
    let to = if end > from + 1 {
        end
    } else {
        from + 1
    };
    (from, if to < extent {
        to
    } else {
        extent as int
    })
}

proof fn part_is_inside(extent: int, index: int, divisions: int)
    requires
        0 <= index <= divisions,
        divisions > 0,
        extent >= 0,
    ensures
        0 <= extent * index / divisions <= extent,
{
    assert(0 <= extent * index <= extent * divisions) by (nonlinear_arith)
        requires
            0 <= index <= divisions,
            extent >= 0,
    ;
    let p = extent * index;
    assert(0 <= p / divisions <= extent) by (nonlinear_arith)
        requires
            0 <= p <= extent * divisions,
            divisions > 0,
    ;
}

/// Where part `index` of `divisions` of an extent begins and ends.
pub fn cell_bounds(extent: u32, index: u32, divisions: u32) -> (r: (u32, u32))
    requires
        extent > 0,
        index < divisions,
    ensures
        (r.0 as int, r.1 as int) == cell_range(extent, index as int, divisions as int),
        r.0 < r.1 <= extent,
{
    proof {
        part_is_inside(extent as int, index as int, divisions as int);
        part_is_inside(extent as int, index + 1, divisions as int);
        let a = extent as int;
        let b = index as int;
        assert(0 <= a * b && 0 <= a * (b + 1) <= 0xFFFF_FFFF * 0xFFFF_FFFF) by (nonlinear_arith)
            requires
                0 <= a <= 0xFFFF_FFFF,
                0 <= b,
                b + 1 <= 0xFFFF_FFFF,
        ;
        assert(a * b <= a * (b + 1)) by (nonlinear_arith)
            requires
                0 <= a,
        ;
    }
    let start: u32 = (extent as u64 * index as u64 / divisions as u64) as u32;
    let end: u32 = (extent as u64 * (index as u64 + 1) / divisions as u64) as u32;
    let from: u32 = if start < extent - 1 {
        start
    } else {
        extent - 1
    };
    let to: u32 = if end > from + 1 {
        end
    } else {
        from + 1
    };
    (from, if to < extent {
        to
    } else {
        extent
    })
}

/// Where an extent has at least as many pixels as parts, the parts cover it without
/// gaps or overlaps: the first begins at 0, each ends where the next begins, and the
/// last ends at the end.
pub proof fn cells_partition(extent: u32, index: int, divisions: int)
    requires
        divisions > 0,
        extent >= divisions,
        0 <= index < divisions,
    ensures
        index == 0 ==> cell_range(extent, index, divisions).0 == 0,
        index + 1 < divisions ==> cell_range(extent, index, divisions).1 == cell_range(
            extent,
            index + 1,
            divisions,
        ).0,
        index + 1 == divisions ==> cell_range(extent, index, divisions).1 == extent,
{
    let e = extent as int;
    part_is_inside(e, index, divisions);
    part_is_inside(e, index + 1, divisions);
    // One part more is at least one pixel more.
    step_grows(e, index, divisions);
    if index == 0 {
        assert(e * 0 == 0) by (nonlinear_arith);
        vstd::arithmetic::div_mod::lemma_basic_div(0, divisions);
    }
    if index + 1 == divisions {
        vstd::arithmetic::div_mod::lemma_div_multiples_vanish(e, divisions);
        assert(e * divisions == divisions * e) by (nonlinear_arith);
    } else {
        step_grows(e, index + 1, divisions);
        part_is_inside(e, index + 2, divisions);
    }
}

proof fn step_grows(extent: int, index: int, divisions: int)
    requires
        divisions > 0,
        extent >= divisions,
        0 <= index,
    ensures
        extent * index / divisions + 1 <= extent * (index + 1) / divisions,
{
    let a = extent * index;
    assert(extent * (index + 1) == a + extent) by (nonlinear_arith)
        requires
            a == extent * index,
    ;
    vstd::arithmetic::div_mod::lemma_fundamental_div_mod(a, divisions);
    let q = a / divisions;
    let r = a % divisions;
    assert((a + extent) / divisions >= q + 1) by (nonlinear_arith)
        requires
            a == divisions * q + r,
            0 <= r,
            extent >= divisions,
            divisions > 0,
    ;
}

/// The luminance of the pixels of an interleaved buffer.
pub open spec fn luma_grid(buf: Seq<u8>, channels: int, width: int) -> spec_fn(int, int) -> int {
    |x: int, y: int|
        luma(
            channel_at(buf, channels, width, x, y, 0),
            channel_at(buf, channels, width, x, y, 1),
            channel_at(buf, channels, width, x, y, 2),
        )
}

/// The mean luminance of a cell, rounded down.
pub open spec fn cell_mean(
    buf: Seq<u8>,
    channels: int,
    width: u32,
    height: u32,
    col: int,
    row: int,
) -> int {
    let (x0, x1) = cell_range(width, col, DHASH_COLS as int);
    let (y0, y1) = cell_range(height, row, DHASH_ROWS as int);
    sum_box(luma_grid(buf, channels, width as int), x0, x1, y0, y1) / ((x1 - x0) * (y1 - y0))
}

/// Bit `i` of a difference hash, the first one highest: whether the cell is darker than
/// its right neighbour.
pub open spec fn hash_bit(buf: Seq<u8>, channels: int, width: u32, height: u32, i: int) -> bool {
    cell_mean(buf, channels, width, height, i % 8, i / 8) < cell_mean(
        buf,
        channels,
        width,
        height,
        i % 8 + 1,
        i / 8,
    )
}

/// The number that the first `n` bits of a hash make.
pub open spec fn hash_prefix(buf: Seq<u8>, channels: int, width: u32, height: u32, n: nat) -> nat
    decreases n,
{
    if n == 0 {
        0
    } else {
        2 * hash_prefix(buf, channels, width, height, (n - 1) as nat) + (if hash_bit(
            buf,
            channels,
            width,
            height,
            n - 1,
        ) {
            1nat
        } else {
            0
        })
    }
}

/// The difference hash of an image: 64 bits, or 0 where the buffer does not fit.
pub open spec fn difference_hash(buf: Seq<u8>, channels: int, width: u32, height: u32) -> nat {
    if buffer_fits(buf, channels, width, height) {
        hash_prefix(buf, channels, width, height, 64)
    } else {
        0
    }
}

proof fn sample_is_inside(width: u32, height: u32, channels: int, x: int, y: int)
    requires
        0 <= x < width,
        0 <= y < height,
        3 <= channels <= 4,
    ensures
        0 <= place(width as int, x, y) <= place(width as int, x, y) * channels,
        place(width as int, x, y) * channels + channels <= width * height * channels,
        0 <= y * width,
{
    place_is_inside(width as int, height as int, x, y);
    let p = place(width as int, x, y);
    let n = width * height;
    assert(p <= p * channels && p * channels + channels <= n * channels) by (nonlinear_arith)
        requires
            0 <= p < n,
            channels > 0,
    ;
    let w = width as int;
    assert(0 <= y * w) by (nonlinear_arith)
        requires
            y >= 0,
            w >= 0,
    ;
}

/// The mean luminance of a cell.
fn mean_of_cell(buf: &[u8], channels: usize, width: u32, height: u32, col: u32, row: u32) -> (r:
    u64)
    requires
        3 <= channels <= 4,
        buffer_fits(buf@, channels as int, width, height),
        col < DHASH_COLS,
        row < DHASH_ROWS,
    ensures
        r == cell_mean(buf@, channels as int, width, height, col as int, row as int),
        r <= 255,
{
    let (x0, x1): (u32, u32) = cell_bounds(width, col, DHASH_COLS);
    let (y0, y1): (u32, u32) = cell_bounds(height, row, DHASH_ROWS);
    let ghost f = luma_grid(buf@, channels as int, width as int);
    let ghost cols = x1 - x0;
    let mut sum: u128 = 0;
    let mut y: u32 = y0;
    while y < y1
        invariant
            3 <= channels <= 4,
            buffer_fits(buf@, channels as int, width, height),
            f == luma_grid(buf@, channels as int, width as int),
            x0 < x1 <= width,
            y0 <= y <= y1 <= height,
            cols == x1 - x0,
            sum == sum_box(f, x0 as int, x1 as int, y0 as int, y as int),
            sum <= 255 * (cols * (y - y0)),
        decreases y1 - y,
    {
        let ghost before = sum;
        let ghost n = y - y0;
        proof {
            assert(0 <= cols * n <= 0xFFFF_FFFF * 0xFFFF_FFFF) by (nonlinear_arith)
                requires
                    0 <= cols <= 0xFFFF_FFFF,
                    0 <= n <= 0xFFFF_FFFF,
            ;
        }
        let mut x: u32 = x0;
        while x < x1
            invariant
                3 <= channels <= 4,
                buffer_fits(buf@, channels as int, width, height),
                f == luma_grid(buf@, channels as int, width as int),
                x0 <= x <= x1 <= width,
                y0 <= y < y1 <= height,
                before <= 255 * (0xFFFF_FFFF * 0xFFFF_FFFF),
                sum == before + sum_row(f, x0 as int, x as int, y as int),
                sum <= before + 255 * (x - x0),
            decreases x1 - x,
        {
            proof {
                sample_is_inside(width, height, channels as int, x as int, y as int);
            }
            let size: usize = buf.len();
            let at: usize = (y as usize * width as usize + x as usize) * channels;
            let v: u8 = luma_u8(buf[at], buf[at + 1], buf[at + 2]);
            assert(f(x as int, y as int) == v);
            sum = sum + v as u128;
            x = x + 1;
        }
        proof {
            assert(cols * n + cols == cols * (n + 1)) by (nonlinear_arith);
        }
        y = y + 1;
    }
    let ghost rows = y1 - y0;
    proof {
        assert(1 <= cols * rows <= 0xFFFF_FFFF * 0xFFFF_FFFF) by (nonlinear_arith)
            requires
                1 <= cols <= 0xFFFF_FFFF,
                1 <= rows <= 0xFFFF_FFFF,
        ;
    }
    let count: u64 = (x1 - x0) as u64 * (y1 - y0) as u64;
    proof {
        let s = sum as int;
        let n = count as int;
        assert(0 <= s / n <= 255) by (nonlinear_arith)
            requires
                0 <= s <= 255 * n,
                n >= 1,
        ;
    }
    (sum / count as u128) as u64
}

/// The difference hash of an image in an interleaved buffer.
#[verifier::rlimit(40)]
#[verifier::spinoff_prover]
fn dhash_interleaved(buf: &[u8], channels: usize, width: u32, height: u32) -> (r: u64)
    requires
        3 <= channels <= 4,
    ensures
        r == difference_hash(buf@, channels as int, width, height),
{
    if !buffer_matches(buf, channels, width, height) {
        return 0;
    }
    let ghost ch = channels as int;
    let mut hash: u64 = 0;
    let mut row: u32 = 0;
    let ghost mut n: nat = 0;
    while row < 8
        invariant
            3 <= channels <= 4,
            ch == channels,
            buffer_fits(buf@, ch, width, height),
            row <= 8,
            n == 8 * row,
            hash == hash_prefix(buf@, ch, width, height, n),
        decreases 8 - row,
    {
        let mut left: u64 = mean_of_cell(buf, channels, width, height, 0, row);
        let mut col: u32 = 0;
        while col < 8
            invariant
                3 <= channels <= 4,
                ch == channels,
                buffer_fits(buf@, ch, width, height),
                row < 8,
                col <= 8,
                n == 8 * row + col,
                hash == hash_prefix(buf@, ch, width, height, n),
                left == cell_mean(buf@, ch, width, height, col as int, row as int),
            decreases 8 - col,
        {
            let right: u64 = mean_of_cell(buf, channels, width, height, col + 1, row);
            proof {
                one_more_bit_fits(buf@, ch, width, height, row as int, col as int);
            }
            let bit: u64 = if left < right {
                1
            } else {
                0
            };
            hash = hash * 2 + bit;
            proof {
                n = n + 1;
            }
            left = right;
            col = col + 1;
        }
        row = row + 1;
    }
    hash
}

/// There is room for the bit of a cell after those of the cells before it.
proof fn one_more_bit_fits(
    buf: Seq<u8>,
    channels: int,
    width: u32,
    height: u32,
    row: int,
    col: int,
)
    requires
        0 <= row < 8,
        0 <= col < 8,
    ensures
        (8 * row + col) % 8 == col,
        (8 * row + col) / 8 == row,
        2 * hash_prefix(buf, channels, width, height, (8 * row + col) as nat) + 1 <= u64::MAX,
{
    let n = (8 * row + col) as nat;
    hash_prefix_fits(buf, channels, width, height, n);
    lemma2_to64_rest();
    if n < 63 {
        lemma_pow2_strictly_increases(n, 63);
    }
}

proof fn hash_prefix_fits(buf: Seq<u8>, channels: int, width: u32, height: u32, n: nat)
    ensures
        hash_prefix(buf, channels, width, height, n) < pow2(n),
    decreases n,
{
    lemma2_to64();
    if n > 0 {
        hash_prefix_fits(buf, channels, width, height, (n - 1) as nat);
        lemma_pow2_unfold(n);
    }
}

/// The difference hash of an image with four channels: eight rows of eight bits, each
/// telling whether a cell is darker than its right neighbour. 0 where the buffer does
/// not fit.
pub fn dhash_rgba8(rgba: &[u8], width: u32, height: u32) -> (r: u64)
    ensures
        r == difference_hash(rgba@, 4, width, height),
{
    dhash_interleaved(rgba, 4, width, height)
}

/// The difference hash of an image with three channels.
pub fn dhash_rgb8(rgb: &[u8], width: u32, height: u32) -> (r: u64)
    ensures
        r == difference_hash(rgb@, 3, width, height),
{
    dhash_interleaved(rgb, 3, width, height)
}

/// The last `k` hexadecimal digits of a number.
pub open spec fn hex_digits(n: nat, k: nat) -> Seq<char>
    decreases k,
{
    if k == 0 {
        Seq::empty()
    } else {
        hex_digits(n / 16, (k - 1) as nat).push(hex_char((n % 16) as int))
    }
}

/// One hexadecimal digit.
fn hex_digit_text(d: u64) -> (r: &'static str)
    requires
        d < 16,
    ensures
        r@ == seq![hex_char(d as int)],
{
    proof {
        reveal_strlit("0");
        reveal_strlit("1");
        reveal_strlit("2");
        reveal_strlit("3");
        reveal_strlit("4");
        reveal_strlit("5");
        reveal_strlit("6");
        reveal_strlit("7");
        reveal_strlit("8");
        reveal_strlit("9");
        reveal_strlit("a");
        reveal_strlit("b");
        reveal_strlit("c");
        reveal_strlit("d");
        reveal_strlit("e");
        reveal_strlit("f");
    }
    if d == 0 {
        "0"
    } else if d == 1 {
        "1"
    } else if d == 2 {
        "2"
    } else if d == 3 {
        "3"
    } else if d == 4 {
        "4"
    } else if d == 5 {
        "5"
    } else if d == 6 {
        "6"
    } else if d == 7 {
        "7"
    } else if d == 8 {
        "8"
    } else if d == 9 {
        "9"
    } else if d == 10 {
        "a"
    } else if d == 11 {
        "b"
    } else if d == 12 {
        "c"
    } else if d == 13 {
        "d"
    } else if d == 14 {
        "e"
    } else {
        "f"
    }
}

/// The last `k` hexadecimal digits of a number.
fn hex_of(n: u64, k: u32) -> (r: String)
    ensures
        r@ == hex_digits(n as nat, k as nat),
    decreases k,
{
    if k == 0 {
        String::new()
    } else {
        let mut r: String = hex_of(n / 16, k - 1);
        let ghost head = r@;
        r.append(hex_digit_text(n % 16));
        assert(r@ =~= head.push(hex_char((n % 16) as int)));
        r
    }
}

/// A hash as 16 lower-case hexadecimal digits.
pub fn dhash_hex(hash: u64) -> (r: String)
    ensures
        r@ == hex_digits(hash as nat, 16),
        r@.len() == 16,
{
    proof {
        hex_digits_length(hash as nat, 16);
    }
    hex_of(hash, 16)
}

proof fn hex_digits_length(n: nat, k: nat)
    ensures
        hex_digits(n, k).len() == k,
    decreases k,
{
    if k > 0 {
        hex_digits_length(n / 16, (k - 1) as nat);
    }
}

/// In how many of their low `n` bits two numbers differ.
pub open spec fn differing_bits(a: nat, b: nat, n: nat) -> nat
    decreases n,
{
    if n == 0 {
        0
    } else {
        differing_bits(a / 2, b / 2, (n - 1) as nat) + (if a % 2 != b % 2 {
            1nat
        } else {
            0
        })
    }
}

/// The number of bits in which two hashes differ.
pub fn hamming(a: u64, b: u64) -> (r: u32)
    ensures
        r == differing_bits(a as nat, b as nat, 64),
        r <= 64,
{
    let mut x: u64 = a;
    let mut y: u64 = b;
    let mut count: u32 = 0;
    let mut left: u32 = 64;
    while left > 0
        invariant
            left <= 64,
            count + left <= 64,
            differing_bits(a as nat, b as nat, 64) == count + differing_bits(
                x as nat,
                y as nat,
                left as nat,
            ),
        decreases left,
    {
        if x % 2 != y % 2 {
            count = count + 1;
        }
        x = x / 2;
        y = y / 2;
        left = left - 1;
    }
    count
}

/// The distance of two hashes does not depend on their order, and is 0 exactly for
/// equal hashes.
pub proof fn hamming_is_a_distance(a: u64, b: u64)
    ensures
        differing_bits(a as nat, b as nat, 64) == differing_bits(b as nat, a as nat, 64),
        differing_bits(a as nat, b as nat, 64) == 0 <==> a == b,
{
    differing_bits_symmetric(a as nat, b as nat, 64);
    lemma2_to64();
    differing_bits_zero(a as nat, b as nat, 64);
}

proof fn differing_bits_symmetric(a: nat, b: nat, n: nat)
    ensures
        differing_bits(a, b, n) == differing_bits(b, a, n),
    decreases n,
{
    if n > 0 {
        differing_bits_symmetric(a / 2, b / 2, (n - 1) as nat);
    }
}

proof fn differing_bits_zero(a: nat, b: nat, n: nat)
    requires
        a < pow2(n),
        b < pow2(n),
    ensures
        differing_bits(a, b, n) == 0 <==> a == b,
    decreases n,
{
    lemma2_to64();
    if n > 0 {
        lemma_pow2_unfold(n);
        differing_bits_zero(a / 2, b / 2, (n - 1) as nat);
    }
}

/// An image hashes alike with and without an alpha channel.
pub proof fn alpha_does_not_change_the_hash(
    rgba: Seq<u8>,
    rgb: Seq<u8>,
    width: u32,
    height: u32,
)
    requires
        buffer_fits(rgba, 4, width, height),
        buffer_fits(rgb, 3, width, height),
        forall|i: int, c: int|
            0 <= i < width * height && 0 <= c < 3 ==> #[trigger] rgba[i * 4 + c] == rgb[i * 3 + c],
    ensures
        difference_hash(rgba, 4, width, height) == difference_hash(rgb, 3, width, height),
{
    prefixes_agree(rgba, rgb, width, height, 64);
}

proof fn prefixes_agree(rgba: Seq<u8>, rgb: Seq<u8>, width: u32, height: u32, n: nat)
    requires
        buffer_fits(rgba, 4, width, height),
        buffer_fits(rgb, 3, width, height),
        n <= 64,
        forall|i: int, c: int|
            0 <= i < width * height && 0 <= c < 3 ==> #[trigger] rgba[i * 4 + c] == rgb[i * 3 + c],
    ensures
        hash_prefix(rgba, 4, width, height, n) == hash_prefix(rgb, 3, width, height, n),
    decreases n,
{
    if n > 0 {
        prefixes_agree(rgba, rgb, width, height, (n - 1) as nat);
        cell_means_agree(rgba, rgb, width, height, (n - 1) as int % 8, (n - 1) as int / 8);
        cell_means_agree(rgba, rgb, width, height, (n - 1) as int % 8 + 1, (n - 1) as int / 8);
    }
}

proof fn cell_means_agree(
    rgba: Seq<u8>,
    rgb: Seq<u8>,
    width: u32,
    height: u32,
    col: int,
    row: int,
)
    requires
        buffer_fits(rgba, 4, width, height),
        buffer_fits(rgb, 3, width, height),
        0 <= col < 9,
        0 <= row < 8,
        forall|i: int, c: int|
            0 <= i < width * height && 0 <= c < 3 ==> #[trigger] rgba[i * 4 + c] == rgb[i * 3 + c],
    ensures
        cell_mean(rgba, 4, width, height, col, row) == cell_mean(rgb, 3, width, height, col, row),
{
    let (x0, x1) = cell_range(width, col, 9);
    let (y0, y1) = cell_range(height, row, 8);
    part_is_inside(width as int, col, 9);
    part_is_inside(width as int, col + 1, 9);
    part_is_inside(height as int, row, 8);
    part_is_inside(height as int, row + 1, 8);
    let f = luma_grid(rgba, 4, width as int);
    let g = luma_grid(rgb, 3, width as int);
    assert forall|x: int, y: int| x0 <= x < x1 && y0 <= y < y1 implies #[trigger] f(x, y) == g(
        x,
        y,
    ) by {
        place_is_inside(width as int, height as int, x, y);
        let i = place(width as int, x, y);
        assert(rgba[i * 4 + 0] == rgb[i * 3 + 0]);
        assert(rgba[i * 4 + 1] == rgb[i * 3 + 1]);
        assert(rgba[i * 4 + 2] == rgb[i * 3 + 2]);
    }
    sum_box_agrees(f, g, x0, x1, y0, y1);
}

/// An image of one colour hashes to 0.
pub proof fn uniform_image_hashes_to_zero(buf: Seq<u8>, channels: int, width: u32, height: u32)
    requires
        3 <= channels <= 4,
        buffer_fits(buf, channels, width, height),
        forall|x: int, y: int|
            0 <= x < width && 0 <= y < height ==> #[trigger] luma_grid(
                buf,
                channels,
                width as int,
            )(x, y) == luma(buf[0], buf[1], buf[2]),
    ensures
        difference_hash(buf, channels, width, height) == 0,
{
    uniform_prefix(buf, channels, width, height, 64);
}

proof fn uniform_prefix(buf: Seq<u8>, channels: int, width: u32, height: u32, n: nat)
    requires
        3 <= channels <= 4,
        n <= 64,
        buffer_fits(buf, channels, width, height),
        forall|x: int, y: int|
            0 <= x < width && 0 <= y < height ==> #[trigger] luma_grid(
                buf,
                channels,
                width as int,
            )(x, y) == luma(buf[0], buf[1], buf[2]),
    ensures
        hash_prefix(buf, channels, width, height, n) == 0,
    decreases n,
{
    if n > 0 {
        uniform_prefix(buf, channels, width, height, (n - 1) as nat);
        uniform_cell(buf, channels, width, height, (n - 1) as int % 8, (n - 1) as int / 8);
        uniform_cell(buf, channels, width, height, (n - 1) as int % 8 + 1, (n - 1) as int / 8);
    }
}

proof fn uniform_cell(buf: Seq<u8>, channels: int, width: u32, height: u32, col: int, row: int)
    requires
        0 <= col < 9,
        0 <= row < 8,
        buffer_fits(buf, channels, width, height),
        forall|x: int, y: int|
            0 <= x < width && 0 <= y < height ==> #[trigger] luma_grid(
                buf,
                channels,
                width as int,
            )(x, y) == luma(buf[0], buf[1], buf[2]),
    ensures
        cell_mean(buf, channels, width, height, col, row) == luma(buf[0], buf[1], buf[2]),
{
    let (x0, x1) = cell_range(width, col, 9);
    let (y0, y1) = cell_range(height, row, 8);
    part_is_inside(width as int, col, 9);
    part_is_inside(width as int, col + 1, 9);
    part_is_inside(height as int, row, 8);
    part_is_inside(height as int, row + 1, 8);
    let f = luma_grid(buf, channels, width as int);
    let v = luma(buf[0], buf[1], buf[2]);
    sum_box_bounds(f, x0, x1, y0, y1, v, v);
    let n = (x1 - x0) * (y1 - y0);
    assert(n >= 1) by (nonlinear_arith)
        requires
            n == (x1 - x0) * (y1 - y0),
            x1 - x0 >= 1,
            y1 - y0 >= 1,
    ;
    assert((v * n) / n == v) by (nonlinear_arith)
        requires
            n >= 1,
    ;
}

/// The luminance image of a buffer with four channels, if it fits the size.
pub fn gray_from_rgba8(rgba: &[u8], width: u32, height: u32) -> (r: Option<Image<u8>>)
    ensures
        match r {
            Some(g) => buffer_fits(rgba@, 4, width, height) && gray_of(rgba@, 4, width, height, g),
            None => !buffer_fits(rgba@, 4, width, height),
        },
{
    gray_from_interleaved(rgba, 4, width, height)
}

/// The luminance image of a buffer with three channels, if it fits the size.
pub fn gray_from_rgb8(rgb: &[u8], width: u32, height: u32) -> (r: Option<Image<u8>>)
    ensures
        match r {
            Some(g) => buffer_fits(rgb@, 3, width, height) && gray_of(rgb@, 3, width, height, g),
            None => !buffer_fits(rgb@, 3, width, height),
        },
{
    gray_from_interleaved(rgb, 3, width, height)
}

/// The products of the pixels of two images.
pub open spec fn product_at(a: Image<u8>, b: Image<u8>) -> spec_fn(int, int) -> int {
    |x: int, y: int| a.pixel(x, y) * b.pixel(x, y)
}

/// 1.
pub const ONE_BITS: u64 = 0x3FF0_0000_0000_0000;

/// 2.
pub const TWO_BITS: u64 = 0x4000_0000_0000_0000;

/// The constant `(0.01 * 255)^2` that steadies the luminance term.
pub const SSIM_C1: u64 = 0x401A_028F_5C28_F5C3;

/// The constant `(0.03 * 255)^2` that steadies the contrast term.
pub const SSIM_C2: u64 = 0x404D_42E1_47AE_147B;

/// The similarity of two windows of `n` pixels by their sums: of each, of the squares
/// of each, and of the products.
pub open spec fn window_similarity(n: int, sa: int, sb: int, qa: int, qb: int, ab: int) -> Real {
    let two = Real { bits: TWO_BITS };
    let c1 = Real { bits: SSIM_C1 };
    let c2 = Real { bits: SSIM_C2 };
    let count = Real::nearest_to(n);
    let count2 = count.times(count);
    let mean_a = Real::nearest_to(sa).over(count);
    let mean_b = Real::nearest_to(sb).over(count);
    let var_a = Real::nearest_to(n * qa - sa * sa).over(count2);
    let var_b = Real::nearest_to(n * qb - sb * sb).over(count2);
    let cov = Real::nearest_to(n * ab - sa * sb).over(count2);
    let luminance_num = two.times(mean_a.times(mean_b)).plus(c1);
    let contrast_num = two.times(cov).plus(c2);
    let luminance_den = mean_a.times(mean_a).plus(mean_b.times(mean_b)).plus(c1);
    let contrast_den = var_a.plus(var_b).plus(c2);
    luminance_num.times(contrast_num).over(luminance_den.times(contrast_den))
}

/// The similarity of the windows of two images at `(x, y)`.
pub open spec fn similarity_at(
    a: Image<u8>,
    b: Image<u8>,
    ww: int,
    wh: int,
    x: int,
    y: int,
) -> Real {
    window_similarity(
        ww * wh,
        sum_box(value_at(a), x, x + ww, y, y + wh),
        sum_box(value_at(b), x, x + ww, y, y + wh),
        sum_box(product_at(a, a), x, x + ww, y, y + wh),
        sum_box(product_at(b, b), x, x + ww, y, y + wh),
        sum_box(product_at(a, b), x, x + ww, y, y + wh),
    )
}

/// The similarities of the first `n` windows of row `y`, added to a total one after the
/// other.
pub open spec fn similarity_row(
    a: Image<u8>,
    b: Image<u8>,
    ww: int,
    wh: int,
    y: int,
    n: nat,
    total: Real,
) -> Real
    decreases n,
{
    if n == 0 {
        total
    } else {
        similarity_row(a, b, ww, wh, y, (n - 1) as nat, total).plus(
            similarity_at(a, b, ww, wh, n - 1, y),
        )
    }
}

/// The similarities of all windows of the first `n` rows, added one after the other.
pub open spec fn similarity_rows(a: Image<u8>, b: Image<u8>, ww: int, wh: int, n: nat) -> Real
    decreases n,
{
    if n == 0 {
        Real { bits: 0 }
    } else {
        similarity_row(
            a,
            b,
            ww,
            wh,
            n - 1,
            (a.width - ww + 1) as nat,
            similarity_rows(a, b, ww, wh, (n - 1) as nat),
        )
    }
}

/// A number rounded to four decimal places; halves go away from zero.
pub open spec fn ten_thousandths(v: Real) -> Real {
    let scale = Real { bits: 0x40C3_8800_0000_0000 };
    let half = Real { bits: 0x3FE0_0000_0000_0000 };
    let scaled = v.times(scale);
    if (Real { bits: 0 }).at_most(scaled) {
        scaled.plus(half).floor().over(scale)
    } else {
        scaled.minus(half).ceiling().over(scale)
    }
}

/// Rounds a number to four decimal places; halves go away from zero.
pub fn quantize_1e4(v: Real) -> (r: Real)
    ensures
        r == ten_thousandths(v),
{
    let scale: Real = Real { bits: 0x40C3_8800_0000_0000 };
    let half: Real = Real { bits: 0x3FE0_0000_0000_0000 };
    let scaled: Real = v.times(scale);
    let zero: Real = Real { bits: 0 };
    if zero.at_most(scaled) {
        scaled.plus(half).floor().over(scale)
    } else {
        scaled.minus(half).ceiling().over(scale)
    }
}

/// The side of the windows along an edge.
pub open spec fn window_side(len: u32) -> int {
    if len < SSIM_WINDOW {
        len as int
    } else {
        SSIM_WINDOW as int
    }
}

/// The structural similarity of two images of the same size, which are not longer than
/// the index is measured at: the mean over all windows.
pub open spec fn similarity(a: Image<u8>, b: Image<u8>) -> Real {
    let ww = window_side(a.width);
    let wh = window_side(a.height);
    let rows = a.height - wh + 1;
    let windows = (a.width - ww + 1) * rows;
    ten_thousandths(
        similarity_rows(a, b, ww, wh, rows as nat).over(Real::nearest_to(windows)),
    )
}

/// `v` is the structural similarity of two images, measured once both are brought down
/// to at most 2048 pixels on the long edge.
pub open spec fn similarity_is(a: Image<u8>, b: Image<u8>, v: Real) -> bool {
    exists|p: Image<u8>, q: Image<u8>|
        #![trigger downscaled(a, SSIM_MAX_LONG_EDGE, p), downscaled(b, SSIM_MAX_LONG_EDGE, q)]
        {
            &&& p.well_formed()
            &&& q.well_formed()
            &&& downscaled(a, SSIM_MAX_LONG_EDGE, p)
            &&& downscaled(b, SSIM_MAX_LONG_EDGE, q)
            &&& v == similarity(p, q)
        }
}

/// The products of the pixels of two images, row by row.
fn products(a: &Image<u8>, b: &Image<u8>) -> (r: Vec<u32>)
    requires
        a.well_formed(),
        b.well_formed(),
        a.width == b.width,
        a.height == b.height,
    ensures
        r@.len() == a.data@.len(),
        forall|i: int|
            0 <= i < r@.len() ==> #[trigger] r@[i] == a.data@[i] * b.data@[i] && r@[i] <= 0xFFFF,
{
    let mut r: Vec<u32> = Vec::new();
    let mut i: usize = 0;
    while i < a.data.len()
        invariant
            a.data@.len() == b.data@.len(),
            i <= a.data@.len(),
            r@.len() == i,
            forall|k: int|
                0 <= k < i ==> #[trigger] r@[k] == a.data@[k] * b.data@[k] && r@[k] <= 0xFFFF,
        decreases a.data.len() - i,
    {
        let x: u32 = a.data[i] as u32;
        let y: u32 = b.data[i] as u32;
        assert(0 <= x * y <= 255 * 255) by (nonlinear_arith)
            requires
                0 <= x <= 255,
                0 <= y <= 255,
        ;
        r.push(x * y);
        i = i + 1;
    }
    r
}

/// The pixels of an image, row by row.
fn values(a: &Image<u8>) -> (r: Vec<u32>)
    ensures
        r@.len() == a.data@.len(),
        forall|i: int| 0 <= i < r@.len() ==> #[trigger] r@[i] == a.data@[i] && r@[i] <= 0xFFFF,
{
    let mut r: Vec<u32> = Vec::new();
    let mut i: usize = 0;
    while i < a.data.len()
        invariant
            i <= a.data@.len(),
            r@.len() == i,
            forall|k: int| 0 <= k < i ==> #[trigger] r@[k] == a.data@[k] && r@[k] <= 0xFFFF,
        decreases a.data.len() - i,
    {
        r.push(a.data[i] as u32);
        i = i + 1;
    }
    r
}

/// The sum over a window, by a table over values that agree with a function of column
/// and row. A window has at most 64 pixels.
fn window_sum(
    t: &Table,
    Ghost(vals): Ghost<Seq<u32>>,
    Ghost(f): Ghost<spec_fn(int, int) -> int>,
    Ghost(top): Ghost<int>,
    x: u32,
    y: u32,
    ww: u32,
    wh: u32,
) -> (r: u64)
    requires
        t.sums_up(vals, t.stride - 1, t.rows - 1),
        x + ww < t.stride,
        y + wh < t.rows,
        t.stride <= 0x10_0000,
        t.rows <= 0x10_0000,
        ww <= 8,
        wh <= 8,
        0 <= top <= 0xFFFF,
        forall|i: int, j: int|
            0 <= i < t.stride - 1 && 0 <= j < t.rows - 1 ==> #[trigger] grid(
                vals,
                t.stride - 1,
            )(i, j) == f(i, j) && 0 <= f(i, j) <= top,
    ensures
        r == sum_box(f, x as int, x + ww, y as int, y + wh),
        r <= top * 64,
{
    let s: u64 = rect_sum(
        t,
        Ghost(vals),
        x as usize,
        y as usize,
        x as usize + ww as usize,
        y as usize + wh as usize,
    );
    proof {
        let g = grid(vals, t.stride - 1);
        sum_box_agrees(g, f, x as int, x + ww, y as int, y + wh);
        assert forall|i: int, j: int| x <= i < x + ww && y <= j < y + wh implies 0 <= #[trigger] g(
            i,
            j,
        ) <= top by {
            assert(g(i, j) == f(i, j));
        }
        sum_box_bounds(g, x as int, x + ww, y as int, y + wh, 0, top);
        let a = ww as int;
        let b = wh as int;
        assert((x + ww - x) * (y + wh - y) == a * b) by (nonlinear_arith)
            requires
                a == ww,
                b == wh,
        ;
        assert(0 <= a * b <= 64) by (nonlinear_arith)
            requires
                0 <= a <= 8,
                0 <= b <= 8,
        ;
        let n = a * b;
        assert(top * n <= top * 64) by (nonlinear_arith)
            requires
                0 <= n <= 64,
                top >= 0,
        ;
    }
    s
}

/// The similarity of two windows by their sums.
fn similarity_of_window(n: u64, sa: u64, sb: u64, qa: u64, qb: u64, ab: u64) -> (r: Real)
    requires
        n <= 64,
        sa <= 255 * 64,
        sb <= 255 * 64,
        qa <= 65025 * 64,
        qb <= 65025 * 64,
        ab <= 65025 * 64,
    ensures
        r == window_similarity(
            n as int,
            sa as int,
            sb as int,
            qa as int,
            qb as int,
            ab as int,
        ),
{
    let two: Real = Real { bits: TWO_BITS };
    let c1: Real = Real { bits: SSIM_C1 };
    let c2: Real = Real { bits: SSIM_C2 };
    let (n, sa, sb): (i64, i64, i64) = (n as i64, sa as i64, sb as i64);
    let (qa, qb, ab): (i64, i64, i64) = (qa as i64, qb as i64, ab as i64);
    proof {
        product_bounds(n as int, qa as int, 64, 4161600);
        product_bounds(n as int, qb as int, 64, 4161600);
        product_bounds(n as int, ab as int, 64, 4161600);
        product_bounds(sa as int, sa as int, 16320, 16320);
        product_bounds(sb as int, sb as int, 16320, 16320);
        product_bounds(sa as int, sb as int, 16320, 16320);
    }
    let count: Real = Real::from_integer(n);
    let count2: Real = count.times(count);
    let mean_a: Real = Real::from_integer(sa).over(count);
    let mean_b: Real = Real::from_integer(sb).over(count);
    let var_a: Real = Real::from_integer(n * qa - sa * sa).over(count2);
    let var_b: Real = Real::from_integer(n * qb - sb * sb).over(count2);
    let cov: Real = Real::from_integer(n * ab - sa * sb).over(count2);
    let luminance_num: Real = two.times(mean_a.times(mean_b)).plus(c1);
    let contrast_num: Real = two.times(cov).plus(c2);
    let luminance_den: Real = mean_a.times(mean_a).plus(mean_b.times(mean_b)).plus(c1);
    let contrast_den: Real = var_a.plus(var_b).plus(c2);
    luminance_num.times(contrast_num).over(luminance_den.times(contrast_den))
}

proof fn product_bounds(a: int, b: int, x: int, y: int)
    requires
        0 <= a <= x,
        0 <= b <= y,
    ensures
        0 <= a * b <= x * y,
{
    assert(0 <= a * b <= x * y) by (nonlinear_arith)
        requires
            0 <= a <= x,
            0 <= b <= y,
    ;
}

proof fn grids_agree(img: Image<u8>, other: Image<u8>, vals: Seq<u32>, prods: Seq<u32>)
    requires
        img.well_formed(),
        other.well_formed(),
        img.width == other.width,
        img.height == other.height,
        vals.len() == img.data@.len(),
        prods.len() == img.data@.len(),
        forall|i: int| 0 <= i < vals.len() ==> #[trigger] vals[i] == img.data@[i],
        forall|i: int|
            0 <= i < prods.len() ==> #[trigger] prods[i] == img.data@[i] * other.data@[i],
    ensures
        forall|i: int, j: int|
            0 <= i < img.width && 0 <= j < img.height ==> #[trigger] grid(
                vals,
                img.width as int,
            )(i, j) == value_at(img)(i, j) && 0 <= value_at(img)(i, j) <= 255,
        forall|i: int, j: int|
            0 <= i < img.width && 0 <= j < img.height ==> #[trigger] grid(
                prods,
                img.width as int,
            )(i, j) == product_at(img, other)(i, j) && 0 <= product_at(img, other)(i, j) <= 65025,
{
    assert forall|i: int, j: int| 0 <= i < img.width && 0 <= j < img.height implies #[trigger] grid(
        vals,
        img.width as int,
    )(i, j) == value_at(img)(i, j) && 0 <= value_at(img)(i, j) <= 255 by {
        place_is_inside(img.width as int, img.height as int, i, j);
    }
    assert forall|i: int, j: int| 0 <= i < img.width && 0 <= j < img.height implies #[trigger] grid(
        prods,
        img.width as int,
    )(i, j) == product_at(img, other)(i, j) && 0 <= product_at(img, other)(i, j) <= 65025 by {
        place_is_inside(img.width as int, img.height as int, i, j);
        let p = place(img.width as int, i, j);
        assert(prods[p] == img.data@[p] * other.data@[p]);
        product_bounds(img.data@[p] as int, other.data@[p] as int, 255, 255);
    }
}

/// The structural similarity of two images of the same size, not longer than 2048
/// pixels.
fn measure_similarity(a: &Image<u8>, b: &Image<u8>) -> (r: Real)
    requires
        a.well_formed(),
        b.well_formed(),
        a.width == b.width,
        a.height == b.height,
        0 < a.width <= 2048,
        0 < a.height <= 2048,
    ensures
        r == similarity(*a, *b),
{
    let w: u32 = a.width;
    let h: u32 = a.height;
    let ww: u32 = if w < SSIM_WINDOW {
        w
    } else {
        SSIM_WINDOW
    };
    let wh: u32 = if h < SSIM_WINDOW {
        h
    } else {
        SSIM_WINDOW
    };
    proof {
        product_bounds(w as int, h as int, 2048, 2048);
        product_bounds(w + 1, h + 1, 2049, 2049);
        product_bounds(ww as int, wh as int, 8, 8);
    }
    let n: u64 = ww as u64 * wh as u64;
    let va: Vec<u32> = values(a);
    let vb: Vec<u32> = values(b);
    let pa: Vec<u32> = products(a, a);
    let pb: Vec<u32> = products(b, b);
    let pc: Vec<u32> = products(a, b);
    let ta: Table = table_of(&va, w as usize, h as usize);
    let tb: Table = table_of(&vb, w as usize, h as usize);
    let qa: Table = table_of(&pa, w as usize, h as usize);
    let qb: Table = table_of(&pb, w as usize, h as usize);
    let tc: Table = table_of(&pc, w as usize, h as usize);
    proof {
        grids_agree(*a, *a, va@, pa@);
        grids_agree(*b, *b, vb@, pb@);
        grids_agree(*a, *b, va@, pc@);
    }
    let rows: u32 = h - wh + 1;
    let cols: u32 = w - ww + 1;
    let mut total: Real = Real { bits: 0 };
    let mut y: u32 = 0;
    while y < rows
        invariant
            a.width == w,
            a.height == h,
            b.width == w,
            b.height == h,
            0 < w <= 2048,
            0 < h <= 2048,
            ww <= 8,
            wh <= 8,
            rows == h - wh + 1,
            cols == w - ww + 1,
            n == ww * wh,
            n <= 64,
            y <= rows,
            ta.sums_up(va@, w as int, h as int),
            tb.sums_up(vb@, w as int, h as int),
            qa.sums_up(pa@, w as int, h as int),
            qb.sums_up(pb@, w as int, h as int),
            tc.sums_up(pc@, w as int, h as int),
            forall|i: int, j: int|
                0 <= i < w && 0 <= j < h ==> #[trigger] grid(va@, w as int)(i, j) == value_at(*a)(
                    i,
                    j,
                ) && 0 <= value_at(*a)(i, j) <= 255,
            forall|i: int, j: int|
                0 <= i < w && 0 <= j < h ==> #[trigger] grid(vb@, w as int)(i, j) == value_at(*b)(
                    i,
                    j,
                ) && 0 <= value_at(*b)(i, j) <= 255,
            forall|i: int, j: int|
                0 <= i < w && 0 <= j < h ==> #[trigger] grid(pa@, w as int)(i, j) == product_at(
                    *a,
                    *a,
                )(i, j) && 0 <= product_at(*a, *a)(i, j) <= 65025,
            forall|i: int, j: int|
                0 <= i < w && 0 <= j < h ==> #[trigger] grid(pb@, w as int)(i, j) == product_at(
                    *b,
                    *b,
                )(i, j) && 0 <= product_at(*b, *b)(i, j) <= 65025,
            forall|i: int, j: int|
                0 <= i < w && 0 <= j < h ==> #[trigger] grid(pc@, w as int)(i, j) == product_at(
                    *a,
                    *b,
                )(i, j) && 0 <= product_at(*a, *b)(i, j) <= 65025,
            total == similarity_rows(*a, *b, ww as int, wh as int, y as nat),
        decreases rows - y,
    {
        let ghost start = total;
        let mut x: u32 = 0;
        while x < cols
            invariant
                a.width == w,
                a.height == h,
                b.width == w,
                b.height == h,
                0 < w <= 2048,
                0 < h <= 2048,
                ww <= 8,
                wh <= 8,
                rows == h - wh + 1,
                cols == w - ww + 1,
                n == ww * wh,
                n <= 64,
                y < rows,
                x <= cols,
                ta.sums_up(va@, w as int, h as int),
                tb.sums_up(vb@, w as int, h as int),
                qa.sums_up(pa@, w as int, h as int),
                qb.sums_up(pb@, w as int, h as int),
                tc.sums_up(pc@, w as int, h as int),
                forall|i: int, j: int|
                    0 <= i < w && 0 <= j < h ==> #[trigger] grid(va@, w as int)(i, j) == value_at(
                        *a,
                    )(i, j) && 0 <= value_at(*a)(i, j) <= 255,
                forall|i: int, j: int|
                    0 <= i < w && 0 <= j < h ==> #[trigger] grid(vb@, w as int)(i, j) == value_at(
                        *b,
                    )(i, j) && 0 <= value_at(*b)(i, j) <= 255,
                forall|i: int, j: int|
                    0 <= i < w && 0 <= j < h ==> #[trigger] grid(pa@, w as int)(i, j) == product_at(
                        *a,
                        *a,
                    )(i, j) && 0 <= product_at(*a, *a)(i, j) <= 65025,
                forall|i: int, j: int|
                    0 <= i < w && 0 <= j < h ==> #[trigger] grid(pb@, w as int)(i, j) == product_at(
                        *b,
                        *b,
                    )(i, j) && 0 <= product_at(*b, *b)(i, j) <= 65025,
                forall|i: int, j: int|
                    0 <= i < w && 0 <= j < h ==> #[trigger] grid(pc@, w as int)(i, j) == product_at(
                        *a,
                        *b,
                    )(i, j) && 0 <= product_at(*a, *b)(i, j) <= 65025,
                total == similarity_row(
                    *a,
                    *b,
                    ww as int,
                    wh as int,
                    y as int,
                    x as nat,
                    start,
                ),
            decreases cols - x,
        {
            let sum_a: u64 = window_sum(
                &ta,
                Ghost(va@),
                Ghost(value_at(*a)),
                Ghost(255),
                x,
                y,
                ww,
                wh,
            );
            let sum_b: u64 = window_sum(
                &tb,
                Ghost(vb@),
                Ghost(value_at(*b)),
                Ghost(255),
                x,
                y,
                ww,
                wh,
            );
            let sq_a: u64 = window_sum(
                &qa,
                Ghost(pa@),
                Ghost(product_at(*a, *a)),
                Ghost(65025),
                x,
                y,
                ww,
                wh,
            );
            let sq_b: u64 = window_sum(
                &qb,
                Ghost(pb@),
                Ghost(product_at(*b, *b)),
                Ghost(65025),
                x,
                y,
                ww,
                wh,
            );
            let sum_ab: u64 = window_sum(
                &tc,
                Ghost(pc@),
                Ghost(product_at(*a, *b)),
                Ghost(65025),
                x,
                y,
                ww,
                wh,
            );
            let term: Real = similarity_of_window(n, sum_a, sum_b, sq_a, sq_b, sum_ab);
            total = total.plus(term);
            x = x + 1;
        }
        y = y + 1;
    }
    proof {
        product_bounds(cols as int, rows as int, 2048, 2048);
    }
    let windows: u64 = cols as u64 * rows as u64;
    quantize_1e4(total.over(Real::from_whole(windows as u128)))
}

/// The structural similarity of two images, from the mean over all 8 by 8 windows, to
/// four decimal places. There is none where the sizes differ or an image is empty.
pub fn ssim_gray(a: &Image<u8>, b: &Image<u8>) -> (r: Option<Real>)
    requires
        a.well_formed(),
        b.well_formed(),
    ensures
        match r {
            Some(v) => {
                &&& a.width == b.width && a.height == b.height && a.width > 0 && a.height > 0
                &&& similarity_is(*a, *b, v)
            },
            None => a.width != b.width || a.height != b.height || a.width == 0 || a.height == 0,
        },
{
    if a.width != b.width || a.height != b.height || a.width == 0 || a.height == 0 {
        return None;
    }
    let p: Image<u8> = downscale_gray(a, SSIM_MAX_LONG_EDGE);
    let q: Image<u8> = downscale_gray(b, SSIM_MAX_LONG_EDGE);
    proof {
        downscaled_is_not_empty(*a, SSIM_MAX_LONG_EDGE, p);
        downscaled_is_not_empty(*b, SSIM_MAX_LONG_EDGE, q);
    }
    let v: Real = measure_similarity(&p, &q);
    assert(downscaled(*a, SSIM_MAX_LONG_EDGE, p) && downscaled(*b, SSIM_MAX_LONG_EDGE, q));
    Some(v)
}

proof fn windows_agree_either_way(n: int, sa: int, sb: int, qa: int, qb: int, ab: int)
    ensures
        window_similarity(n, sa, sb, qa, qb, ab) == window_similarity(n, sb, sa, qb, qa, ab),
{
    let count = Real::nearest_to(n);
    let count2 = count.times(count);
    let mean_a = Real::nearest_to(sa).over(count);
    let mean_b = Real::nearest_to(sb).over(count);
    let var_a = Real::nearest_to(n * qa - sa * sa).over(count2);
    let var_b = Real::nearest_to(n * qb - sb * sb).over(count2);
    assert(sa * sb == sb * sa) by (nonlinear_arith);
    order_does_not_matter(mean_a, mean_b);
    order_does_not_matter(mean_a.times(mean_a), mean_b.times(mean_b));
    order_does_not_matter(var_a, var_b);
}

proof fn rows_agree_either_way(
    a: Image<u8>,
    b: Image<u8>,
    ww: int,
    wh: int,
    y: int,
    n: nat,
    total: Real,
)
    ensures
        similarity_row(a, b, ww, wh, y, n, total) == similarity_row(b, a, ww, wh, y, n, total),
    decreases n,
{
    if n > 0 {
        rows_agree_either_way(a, b, ww, wh, y, (n - 1) as nat, total);
        let x = n - 1;
        assert forall|i: int, j: int| #[trigger] product_at(a, b)(i, j) == product_at(b, a)(
            i,
            j,
        ) by {
            let (p, q) = (a.pixel(i, j) as int, b.pixel(i, j) as int);
            assert(p * q == q * p) by (nonlinear_arith);
        }
        assert(product_at(a, b) =~= product_at(b, a));
        windows_agree_either_way(
            ww * wh,
            sum_box(value_at(a), x, x + ww, y, y + wh),
            sum_box(value_at(b), x, x + ww, y, y + wh),
            sum_box(product_at(a, a), x, x + ww, y, y + wh),
            sum_box(product_at(b, b), x, x + ww, y, y + wh),
            sum_box(product_at(a, b), x, x + ww, y, y + wh),
        );
    }
}

proof fn all_rows_agree_either_way(a: Image<u8>, b: Image<u8>, ww: int, wh: int, n: nat)
    requires
        a.width == b.width,
    ensures
        similarity_rows(a, b, ww, wh, n) == similarity_rows(b, a, ww, wh, n),
    decreases n,
{
    if n > 0 {
        all_rows_agree_either_way(a, b, ww, wh, (n - 1) as nat);
        rows_agree_either_way(
            a,
            b,
            ww,
            wh,
            n - 1,
            (a.width - ww + 1) as nat,
            similarity_rows(a, b, ww, wh, (n - 1) as nat),
        );
    }
}

/// Two images are as similar to each other either way round.
pub proof fn similarity_is_symmetric(a: Image<u8>, b: Image<u8>, v: Real)
    requires
        a.width == b.width,
        a.height == b.height,
        similarity_is(a, b, v),
    ensures
        similarity_is(b, a, v),
{
    let (p, q) = choose|p: Image<u8>, q: Image<u8>|
        #![trigger downscaled(a, SSIM_MAX_LONG_EDGE, p), downscaled(b, SSIM_MAX_LONG_EDGE, q)]
        {
            &&& p.well_formed()
            &&& q.well_formed()
            &&& downscaled(a, SSIM_MAX_LONG_EDGE, p)
            &&& downscaled(b, SSIM_MAX_LONG_EDGE, q)
            &&& v == similarity(p, q)
        };
    assert(p.width == q.width && p.height == q.height);
    all_rows_agree_either_way(
        p,
        q,
        window_side(p.width),
        window_side(p.height),
        (p.height - window_side(p.height) + 1) as nat,
    );
}

} // verus!
