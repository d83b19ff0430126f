//! The scaled YCoCg colour space of Hap Q and Hap Q Alpha.
//!
//! Follows "Real-Time YCoCg-DXT Compression" by J.M.P. van Waveren and Ignacio Castaño.

use crate::blocks::{decode_blocks, Codec};
use crate::color::BAYER_4X4;
use crate::dxt::DxtError;
use crate::parallel::{map_indices, store_rows};
use crate::single::Single;
use vstd::prelude::*;

verus! {

/// The quotient without its fraction.
pub open spec fn toward_zero(n: int, d: int) -> int {
    if n >= 0 {
        n / d
    } else {
        -((-n) / d)
    }
}

fn clamp_i32(v: i32) -> (r: u8)
    ensures
        r == crate::color::clamp_byte(v as int),
{
    if v < 0 {
        0
    } else if v > 255 {
        255
    } else {
        v as u8
    }
}

/// Converts an RGB pixel to YCoCg, with Co and Cg centred at 128.
pub fn rgb_to_ycocg(r: u8, g: u8, b: u8) -> (out: (u8, u8, u8))
    ensures
        out.0 == (r + 2 * g + b) / 4,
        out.1 == toward_zero(r - b, 2) + 128,
        out.2 == toward_zero(2 * g - r - b, 4) + 128,
{
    let ri: i32 = r as i32;
    let gi: i32 = g as i32;
    let bi: i32 = b as i32;
    let y: i32 = (ri + 2 * gi + bi) / 4;
    let co: i32 = (ri - bi) / 2 + 128;
    let cg: i32 = (-ri + 2 * gi - bi) / 4 + 128;
    (clamp_i32(y), clamp_i32(co), clamp_i32(cg))
}

/// Converts a YCoCg pixel back to RGB.
pub fn ycocg_to_rgb(y: u8, co: u8, cg: u8) -> (out: (u8, u8, u8))
    ensures
        out.0 == crate::color::clamp_byte(y + (co - 128) - (cg - 128)),
        out.1 == crate::color::clamp_byte(y + (cg - 128)),
        out.2 == crate::color::clamp_byte(y - (co - 128) - (cg - 128)),
{
    let yi: i32 = y as i32;
    let coi: i32 = co as i32 - 128;
    let cgi: i32 = cg as i32 - 128;
    (clamp_i32(yi + coi - cgi), clamp_i32(yi + cgi), clamp_i32(yi - coi - cgi))
}

/// Converting to YCoCg and back changes red and blue by two levels at most and green by one.
pub proof fn law_ycocg_round_trip(r: u8, g: u8, b: u8)
    ensures
        ({
            let y = (r + 2 * g + b) / 4;
            let co = toward_zero(r - b, 2);
            let cg = toward_zero(2 * g - r - b, 4);
            &&& -2 <= crate::color::clamp_byte(y + co - cg) - r <= 1
            &&& -1 <= crate::color::clamp_byte(y + cg) - g <= 0
            &&& -2 <= crate::color::clamp_byte(y - co - cg) - b <= 1
        }),
{
}

/// The luma of pixel `p`.
pub open spec fn luma(rgba: Seq<u8>, p: int) -> int {
    (rgba[4 * p] + 2 * rgba[4 * p + 1] + rgba[4 * p + 2]) / 4
}

/// The orange difference of pixel `p`, rounded down.
pub open spec fn orange(rgba: Seq<u8>, p: int) -> int {
    (rgba[4 * p] - rgba[4 * p + 2]) / 2
}

/// The green difference of pixel `p`, rounded down.
pub open spec fn green(rgba: Seq<u8>, p: int) -> int {
    (2 * rgba[4 * p + 1] - rgba[4 * p] - rgba[4 * p + 2]) / 4
}

pub open spec fn abs(v: int) -> int {
    if v < 0 {
        -v
    } else {
        v
    }
}

pub open spec fn larger(a: int, b: int) -> int {
    if a >= b {
        a
    } else {
        b
    }
}

/// The pixel number `i` of the 4x4 block in column `bx` of block row `by`.
pub open spec fn block_pixel(width: int, bx: int, by: int, i: int) -> int {
    (4 * by + i / 4) * width + 4 * bx + i % 4
}

/// The largest chroma difference among the first `n` pixels of a block.
pub open spec fn spread(rgba: Seq<u8>, width: int, bx: int, by: int, n: int) -> int
    decreases n,
{
    if n <= 0 {
        0
    } else {
        let p = block_pixel(width, bx, by, n - 1);
        larger(
            larger(spread(rgba, width, bx, by, n - 1), abs(orange(rgba, p))),
            abs(green(rgba, p)),
        )
    }
}

/// The factor by which the chroma of a block can be scaled.
pub open spec fn scale_for(deviation: int) -> int {
    if deviation <= 31 {
        4
    } else if deviation <= 63 {
        2
    } else {
        1
    }
}

/// The factor of a block.
pub open spec fn block_scale(rgba: Seq<u8>, width: int, bx: int, by: int) -> int {
    scale_for(spread(rgba, width, bx, by, 16))
}

/// The dither added to the chroma of the pixel in column `x` of line `y`.
pub open spec fn dither(x: int, y: int, on: bool) -> int {
    if on {
        toward_zero(BAYER_4X4@[y % 4]@[x % 4] * 2 - 15, 8)
    } else {
        0
    }
}

/// The channel `c` of a pixel in the scaled layout: Co, Cg, the scale indicator and the luma.
pub open spec fn scaled_value(
    rgba: Seq<u8>,
    width: int,
    on: bool,
    x: int,
    y: int,
    c: int,
) -> int {
    let p = y * width + x;
    let scale = block_scale(rgba, width, x / 4, y / 4);
    if c == 0 {
        crate::color::clamp_byte(orange(rgba, p) * scale + 128 + dither(x, y, on))
    } else if c == 1 {
        crate::color::clamp_byte(green(rgba, p) * scale + 128 + dither(x, y, on))
    } else if c == 2 {
        (scale - 1) * 8
    } else {
        luma(rgba, p)
    }
}

/// An image in the scaled layout. Columns after the last whole block stay as they were.
pub open spec fn scaled_image(rgba: Seq<u8>, width: int, on: bool, before: Seq<u8>) -> Seq<u8> {
    Seq::new(
        rgba.len(),
        |i: int|
            {
                let x = crate::parallel::column(i, width);
                let y = crate::parallel::line(i, width);
                if x < width - width % 4 {
                    scaled_value(rgba, width, on, x, y, i % 4) as u8
                } else {
                    before[i]
                }
            },
    )
}

/// The luma and the chroma differences of a pixel.
fn pixel_ycocg(rgba: &[u8], p: usize) -> (out: (u8, i32, i32))
    requires
        4 * p + 4 <= rgba@.len(),
    ensures
        out.0 == luma(rgba@, p as int),
        out.1 == orange(rgba@, p as int),
        out.2 == green(rgba@, p as int),
        -128 <= out.1 <= 127,
        -128 <= out.2 <= 127,
{
    assert(rgba@.len() == rgba.len());
    let r: i32 = rgba[4 * p] as i32;
    let g: i32 = rgba[4 * p + 1] as i32;
    let b: i32 = rgba[4 * p + 2] as i32;
    let y: i32 = (r + 2 * g + b) / 4;
    (y as u8, floor_half(r - b), floor_half(floor_half(2 * g - r - b)))
}

/// Half of an integer, rounded down.
fn floor_half(v: i32) -> (r: i32)
    requires
        -2000 <= v <= 2000,
    ensures
        r == v as int / 2,
{
    if v >= 0 {
        v / 2
    } else {
        -((1 - v) / 2)
    }
}

/// A pixel within the dimensions lies within the buffer.
pub proof fn lemma_pixel_bound(width: int, lines: int, y: int, x: int, len: int)
    requires
        0 <= y < lines,
        0 <= x < width,
        len == width * lines * 4,
    ensures
        0 <= y * width + x,
        4 * (y * width + x) + 4 <= len,
{
    assert((y + 1) * width <= lines * width && y * width >= 0) by (nonlinear_arith)
        requires
            0 <= y,
            y + 1 <= lines,
            width >= 0,
    ;
    assert((y + 1) * width == y * width + width) by (nonlinear_arith);
    assert(lines * width == width * lines) by (nonlinear_arith);
}

/// The factors of the blocks in a block row.
fn block_scales(rgba: &[u8], width: usize, height: usize, by: usize) -> (out: Vec<u8>)
    requires
        rgba@.len() == width * height * 4,
        height % 4 == 0,
        by < height / 4,
    ensures
        out@.len() == width / 4,
        forall|bx: int|
            0 <= bx < width / 4 ==> #[trigger] out@[bx] == block_scale(
                rgba@,
                width as int,
                bx,
                by as int,
            ),
{
    assert(rgba@.len() == rgba.len());
    let blocks_x: usize = width / 4;
    let mut out: Vec<u8> = Vec::new();
    let mut bx: usize = 0;
    while bx < blocks_x
        invariant
            bx <= blocks_x,
            blocks_x == width / 4,
            rgba@.len() == width * height * 4,
            rgba@.len() <= usize::MAX,
            height % 4 == 0,
            by < height / 4,
            out@.len() == bx,
            forall|k: int|
                0 <= k < bx ==> #[trigger] out@[k] == block_scale(
                    rgba@,
                    width as int,
                    k,
                    by as int,
                ),
        decreases blocks_x - bx,
    {
        let mut dev: i32 = 0;
        let mut i: usize = 0;
        while i < 16
            invariant
                i <= 16,
                bx < blocks_x,
                blocks_x == width / 4,
                rgba@.len() == width * height * 4,
                rgba@.len() <= usize::MAX,
                height % 4 == 0,
                by < height / 4,
                dev == spread(rgba@, width as int, bx as int, by as int, i as int),
                0 <= dev <= 128,
            decreases 16 - i,
        {
            proof {
                lemma_pixel_bound(
                    width as int,
                    height as int,
                    4 * by + i / 4,
                    4 * bx + i % 4,
                    rgba@.len() as int,
                );
            }
            let p: usize = (4 * by + i / 4) * width + (4 * bx + i % 4);
            let (_, co, cg) = pixel_ycocg(rgba, p);
            let co_abs: i32 = if co < 0 { -co } else { co };
            let cg_abs: i32 = if cg < 0 { -cg } else { cg };
            if dev < co_abs {
                dev = co_abs;
            }
            if dev < cg_abs {
                dev = cg_abs;
            }
            i = i + 1;
        }
        out.push(
            if dev <= 31 {
                4
            } else if dev <= 63 {
                2
            } else {
                1
            },
        );
        bx = bx + 1;
    }
    out
}

/// The dither of a pixel.
fn dither_value(x: usize, y: usize, on: bool) -> (r: i32)
    ensures
        r == dither(x as int, y as int, on),
        -1 <= r <= 1,
{
    if on {
        let b: i32 = BAYER_4X4[y % 4][x % 4];
        proof {
            let row = BAYER_4X4@[y as int % 4]@;
            assert(0 <= row[x as int % 4] <= 15);
        }
        (b * 2 - 15) / 8
    } else {
        0
    }
}

/// One line of an image in the scaled layout, with zeros after the last whole block.
fn scaled_line(
    rgba: &[u8],
    width: usize,
    height: usize,
    y: usize,
    scales: &Vec<u8>,
    on: bool,
) -> (row: Vec<u8>)
    requires
        rgba@.len() == width * height * 4,
        y < height,
        scales@.len() == width / 4,
        forall|bx: int|
            0 <= bx < width / 4 ==> #[trigger] scales@[bx] == block_scale(
                rgba@,
                width as int,
                bx,
                y as int / 4,
            ),
    ensures
        row@.len() == width * 4,
        forall|k: int|
            0 <= k < 4 * (width - width % 4) ==> #[trigger] row@[k] == scaled_value(
                rgba@,
                width as int,
                on,
                k / 4,
                y as int,
                k % 4,
            ),
{
    assert(rgba@.len() == rgba.len());
    let mut row: Vec<u8> = Vec::new();
    let whole: usize = width - width % 4;
    let mut x: usize = 0;
    while x < width
        invariant
            x <= width,
            whole == width - width % 4,
            rgba@.len() == width * height * 4,
            rgba@.len() <= usize::MAX,
            y < height,
            scales@.len() == width / 4,
            forall|bx: int|
                0 <= bx < width / 4 ==> #[trigger] scales@[bx] == block_scale(
                    rgba@,
                    width as int,
                    bx,
                    y as int / 4,
                ),
            row@.len() == 4 * x,
            forall|k: int|
                0 <= k < 4 * x && k < 4 * whole ==> #[trigger] row@[k] == scaled_value(
                    rgba@,
                    width as int,
                    on,
                    k / 4,
                    y as int,
                    k % 4,
                ),
        decreases width - x,
    {
        if x < whole {
            proof {
                lemma_pixel_bound(
                    width as int,
                    height as int,
                    y as int,
                    x as int,
                    rgba@.len() as int,
                );
            }
            let p: usize = y * width + x;
            let (luma_value, co, cg) = pixel_ycocg(rgba, p);
            let scale: i32 = scales[x / 4] as i32;
            let d: i32 = dither_value(x, y, on);
            assert(scale == 1 || scale == 2 || scale == 4);
            assert(-512 <= co * scale <= 512 && -512 <= cg * scale <= 512) by (nonlinear_arith)
                requires
                    -128 <= co <= 127,
                    -128 <= cg <= 127,
                    1 <= scale <= 4,
            ;
            row.push(clamp_i32(co * scale + 128 + d));
            row.push(clamp_i32(cg * scale + 128 + d));
            row.push(((scale - 1) * 8) as u8);
            row.push(luma_value);
        } else {
            row.push(0);
            row.push(0);
            row.push(0);
            row.push(0);
        }
        x = x + 1;
    }
    row
}

/// Transforms an RGBA8 image of whole blocks to the scaled layout ahead of DXT5 compression, with
/// Bayer dithering of the chroma if so asked.
pub fn rgba_to_scaled_ycocg_dxt5_input_with_dither(
    rgba: &[u8],
    width: usize,
    height: usize,
    out: &mut [u8],
    enable_dither: bool,
)
    requires
        rgba@.len() == width * height * 4,
        old(out)@.len() == width * height * 4,
        height % 4 == 0,
    ensures
        final(out)@ == scaled_image(rgba@, width as int, enable_dither, old(out)@),
{
    if width == 0 || height == 0 {
        proof {
            assert(width * height == 0) by (nonlinear_arith)
                requires
                    width == 0 || height == 0,
            ;
        }
        assert(out@ =~= scaled_image(rgba@, width as int, enable_dither, old(out)@));
        return;
    }
    let find = |by: usize| -> (scales: Vec<u8>)
        requires
            by < height / 4,
        ensures
            scales@.len() == width / 4,
            forall|bx: int|
                0 <= bx < width / 4 ==> #[trigger] scales@[bx] == block_scale(
                    rgba@,
                    width as int,
                    bx,
                    by as int,
                ),
    {
        block_scales(rgba, width, height, by)
    };
    let scales = map_indices(height / 4, find);
    let scales_ref = &scales;
    let make = |y: usize| -> (row: Vec<u8>)
        requires
            y < height,
        ensures
            row@.len() == width * 4,
            forall|k: int|
                0 <= k < 4 * (width - width % 4) ==> #[trigger] row@[k] == scaled_value(
                    rgba@,
                    width as int,
                    enable_dither,
                    k / 4,
                    y as int,
                    k % 4,
                ),
    {
        scaled_line(rgba, width, height, y, &scales_ref[y / 4], enable_dither)
    };
    let rows = map_indices(height, make);
    let whole: usize = width - width % 4;
    let mut y: usize = 0;
    proof {
        assert(rgba@.len() == rgba.len());
        lemma_sizes(width as int, height as int, rgba@.len() as int);
    }
    while y < height
        invariant
            y <= height,
            0 < width,
            width * 4 <= usize::MAX,
            rgba@.len() == width * height * 4,
            rgba@.len() <= usize::MAX,
            rgba@.len() == height * (width * 4),
            whole == width - width % 4,
            out@.len() == old(out)@.len(),
            out@.len() == rgba@.len(),
            rows@.len() == height,
            forall|r: int| 0 <= r < height ==> (#[trigger] rows@[r])@.len() == width * 4,
            forall|r: int, k: int|
                0 <= r < height && 0 <= k < 4 * whole ==> #[trigger] rows@[r]@[k] == scaled_value(
                    rgba@,
                    width as int,
                    enable_dither,
                    k / 4,
                    r,
                    k % 4,
                ),
            forall|i: int|
                0 <= i < y * (width * 4) ==> #[trigger] out@[i] == scaled_image(
                    rgba@,
                    width as int,
                    enable_dither,
                    old(out)@,
                )[i],
            forall|i: int| y * (width * 4) <= i < out@.len() ==> #[trigger] out@[i] == old(out)@[i],
        decreases height - y,
    {
        let ghost start = y * (width * 4);
        proof {
            assert((y + 1) * (width * 4) == start + width * 4 && start >= 0 && (y + 1) * (width * 4)
                <= height * (width * 4)) by (nonlinear_arith)
                requires
                    start == y * (width * 4),
                    0 <= y,
                    y + 1 <= height,
                    width >= 0,
            ;
        }
        let base: usize = y * (width * 4);
        let row = &rows[y];
        let mut k: usize = 0;
        while k < 4 * whole
            invariant
                k <= 4 * whole,
                0 < width,
                whole == width - width % 4,
                y < height,
                base == start,
                start == y * (width * 4),
                start >= 0,
                start + width * 4 <= rgba@.len(),
                rgba@.len() <= usize::MAX,
                out@.len() == rgba@.len(),
                out@.len() == old(out)@.len(),
                row@.len() == width * 4,
                forall|j: int|
                    0 <= j < 4 * whole ==> #[trigger] row@[j] == scaled_value(
                        rgba@,
                        width as int,
                        enable_dither,
                        j / 4,
                        y as int,
                        j % 4,
                    ),
                forall|i: int|
                    0 <= i < start + k ==> #[trigger] out@[i] == scaled_image(
                        rgba@,
                        width as int,
                        enable_dither,
                        old(out)@,
                    )[i],
                forall|i: int| start + k <= i < out@.len() ==> #[trigger] out@[i] == old(out)@[i],
            decreases 4 * whole - k,
        {
            out[base + k] = row[k];
            proof {
                crate::parallel::lemma_position(y as int, k as int, width as int);
            }
            k = k + 1;
        }
        proof {
            let want = scaled_image(rgba@, width as int, enable_dither, old(out)@);
            assert forall|i: int| 0 <= i < (y + 1) * (width * 4) implies #[trigger] out@[i]
                == want[i] by {
                if i >= start + k {
                    crate::parallel::lemma_position(y as int, i - start, width as int);
                }
            }
        }
        y = y + 1;
    }
    assert(out@ =~= scaled_image(rgba@, width as int, enable_dither, old(out)@));
}

/// The bytes of a line, and of the whole image.
proof fn lemma_sizes(width: int, height: int, len: int)
    requires
        len == width * height * 4,
        0 < width,
        0 < height,
    ensures
        len == height * (width * 4),
        width * 4 <= len,
{
    assert(len == height * (width * 4) && width * 4 <= len) by (nonlinear_arith)
        requires
            len == width * height * 4,
            0 < width,
            1 <= height,
    ;
}

/// Transforms an RGBA8 image of whole blocks to the scaled layout ahead of DXT5 compression: Co,
/// Cg, the scale indicator `(scale - 1) * 8`, and the luma in the place of alpha.
pub fn rgba_to_scaled_ycocg_dxt5_input(rgba: &[u8], width: usize, height: usize, out: &mut [u8])
    requires
        rgba@.len() == width * height * 4,
        old(out)@.len() == width * height * 4,
        height % 4 == 0,
    ensures
        final(out)@ == scaled_image(rgba@, width as int, false, old(out)@),
{
    rgba_to_scaled_ycocg_dxt5_input_with_dither(rgba, width, height, out, false)
}

/// A colour value as a byte: limited to `0..=255`, without its fraction.
pub open spec fn to_byte(v: Single) -> int {
    crate::single::truncated_within(
        crate::single::clamped(
            v,
            crate::single::whole_number(0),
            crate::single::whole_number(255),
        ),
        0,
        255,
    )
}

/// A stored chroma value around its centre.
pub open spec fn centred(stored: int) -> Single {
    crate::single::difference(
        crate::single::whole_number(stored),
        crate::single::whole_number(128),
    )
}

/// The scale that a scale indicator stands for.
pub open spec fn scale_of(indicator: int) -> int {
    indicator / 8 + 1
}

/// Chroma, divided by its scale.
pub open spec fn divided(stored: int, scale: int) -> Single {
    crate::single::quotient(centred(stored), crate::single::whole_number(scale))
}

/// Chroma, multiplied by the inverse of its scale.
pub open spec fn multiplied(stored: int, scale: int) -> Single {
    crate::single::product(centred(stored), crate::single::ratio(1, scale))
}

/// The channel `c` of a pixel from its luma and its chroma. The pixel is opaque.
#[verifier::opaque]
pub open spec fn restored(luma: int, co: Single, cg: Single, c: int) -> int {
    let y = crate::single::whole_number(luma);
    if c == 0 {
        to_byte(crate::single::difference(crate::single::sum(y, co), cg))
    } else if c == 1 {
        to_byte(crate::single::sum(y, cg))
    } else if c == 2 {
        to_byte(crate::single::difference(crate::single::difference(y, co), cg))
    } else {
        255
    }
}

/// What `restored` comes to where the scale is a power of two: no rounding takes place.
pub open spec fn restored_exactly(luma: int, co: int, cg: int, scale: int, c: int) -> int {
    let o = co - 128;
    let g = cg - 128;
    if c == 0 {
        crate::color::clamp_byte((luma * scale + o - g) / scale)
    } else if c == 1 {
        crate::color::clamp_byte((luma * scale + g) / scale)
    } else if c == 2 {
        crate::color::clamp_byte((luma * scale - o - g) / scale)
    } else {
        255
    }
}

/// A value in units of 1/32 as a byte.
proof fn lemma_to_byte(v: Single, n: int)
    requires
        crate::single::is_exactly(v, n, -5),
    ensures
        to_byte(v) == crate::color::clamp_byte(n / 32),
{
    vstd::arithmetic::power2::lemma2_to64();
    crate::single::lemma_whole_number(0, -5);
    crate::single::lemma_whole_number(255, -5);
    let low = crate::single::whole_number(0);
    let high = crate::single::whole_number(255);
    crate::single::lemma_less_units(v, n, low, 0, -5);
    crate::single::lemma_less_units(high, 8160, v, n, -5);
    let w = crate::single::clamped(v, low, high);
    if n < 0 {
        crate::single::lemma_truncated_units(low, 0, -5);
    } else if n > 255 * 32 {
        crate::single::lemma_truncated_units(high, 8160, -5);
    } else {
        crate::single::lemma_truncated_units(v, n, -5);
    }
}

/// A value in units of `2^-j` is a value in units of 1/32.
proof fn lemma_finer(a: Single, v: int, j: int)
    requires
        crate::single::is_exactly(a, v, -j),
        0 <= j <= 5,
    ensures
        crate::single::is_exactly(a, v * crate::single::pow2(5 - j), -5),
{
    vstd::arithmetic::power2::lemma_pow2_adds((5 - j) as nat, 144);
    assert((5 - j) as nat + 144 == (149 - j) as nat);
    let p = crate::single::pow2(5 - j);
    let q = crate::single::pow2(144);
    assert((v * p) * q == v * (p * q)) by (nonlinear_arith);
}

/// Both forms of the chroma are exact where the scale is a power of two.
proof fn lemma_chroma(stored: int, j: int)
    requires
        0 <= stored <= 255,
        0 <= j <= 5,
    ensures
        crate::single::is_exactly(
            divided(stored, crate::single::pow2(j)),
            (stored - 128) * crate::single::pow2(5 - j),
            -5,
        ),
        crate::single::is_exactly(
            multiplied(stored, crate::single::pow2(j)),
            (stored - 128) * crate::single::pow2(5 - j),
            -5,
        ),
{
    vstd::arithmetic::power2::lemma2_to64();
    let one = crate::single::pow2(0);
    assert(stored * one == stored) by (nonlinear_arith)
        requires
            one == 1,
    ;
    crate::single::lemma_whole_number(stored, 0);
    crate::single::lemma_whole_number(128, 0);
    let c = centred(stored);
    let v = stored - 128;
    crate::single::lemma_difference_exact(
        crate::single::whole_number(stored),
        stored,
        crate::single::whole_number(128),
        128,
        0,
    );
    crate::single::lemma_quotient_power(c, v, j);
    lemma_finer(divided(stored, crate::single::pow2(j)), v, j);
    crate::single::lemma_power_of_two(j);
    let r = crate::single::ratio(1, crate::single::pow2(j));
    match c {
        Single::Finite { neg, mant, exp } => {
            crate::single::lemma_integer_exponent(c, v);
            let l = exp - j - 23;
            if mant == 0 {
                // the product of zero is zero, whatever its exponent
                assert(crate::single::product(c, r) == crate::single::zero(neg)) by {
                    reveal(crate::single::product);
                    assert(mant * 0x80_0000 == 0);
                }
                let q = crate::single::pow2(-j + 149);
                assert(0 * crate::single::pow2(0) == 0);
                assert(0 * q == 0);
                assert(v == 0);
            } else {
                vstd::arithmetic::power2::lemma_pow2_adds(23, (l + 149) as nat);
                vstd::arithmetic::power2::lemma_pow2_adds(j as nat, (exp - j + 149) as nat);
                vstd::arithmetic::power2::lemma_pow2_adds(j as nat, (149 - j) as nat);
                vstd::arithmetic::power2::lemma_pow2_pos(j as nat);
                assert(23 + (l + 149) as nat == (exp - j + 149) as nat);
                assert(j as nat + (exp - j + 149) as nat == (exp + 149) as nat);
                assert(j as nat + (149 - j) as nat == 149);
                let s = crate::single::signed(neg, mant as int);
                let x = crate::single::pow2(l + 149);
                let y = crate::single::pow2(exp - j + 149);
                let z = crate::single::pow2(j);
                let w = crate::single::pow2(149 - j);
                assert(crate::single::signed(neg, mant * 0x80_0000) == s * 0x80_0000);
                assert((s * 0x80_0000) * x == v * w) by (nonlinear_arith)
                    requires
                        s * (z * y) == v * (z * w),
                        y == 0x80_0000 * x,
                        z > 0,
                ;
                crate::single::lemma_product_exact(c, r, v, -j);
            }
        },
        _ => {},
    }
    lemma_finer(multiplied(stored, crate::single::pow2(j)), v, j);
}

/// Where the scale is a power of two both decoders restore a pixel exactly, and alike.
pub proof fn law_power_of_two_scales(luma: int, co: int, cg: int, j: int, c: int)
    requires
        0 <= luma <= 255,
        0 <= co <= 255,
        0 <= cg <= 255,
        0 <= j <= 5,
    ensures
        ({
            let s = crate::single::pow2(j);
            let want = restored_exactly(luma, co, cg, s, c);
            &&& restored(luma, divided(co, s), divided(cg, s), c) == want
            &&& restored(luma, multiplied(co, s), multiplied(cg, s), c) == want
        }),
{
    reveal(restored);
    vstd::arithmetic::power2::lemma2_to64();
    let s = crate::single::pow2(j);
    let t = crate::single::pow2(5 - j);
    vstd::arithmetic::power2::lemma_pow2_adds(j as nat, (5 - j) as nat);
    assert(j as nat + (5 - j) as nat == 5);
    vstd::arithmetic::power2::lemma_pow2_pos(j as nat);
    vstd::arithmetic::power2::lemma_pow2_pos((5 - j) as nat);
    assert(s * t == 32);
    assert(0 < t <= 32) by (nonlinear_arith)
        requires
            s * t == 32,
            s > 0,
            t > 0,
    ;
    lemma_chroma(co, j);
    lemma_chroma(cg, j);
    crate::single::lemma_whole_number(luma, -5);
    let y = crate::single::whole_number(luma);
    let n = luma * 32;
    let o = (co - 128) * t;
    let g = (cg - 128) * t;
    assert(-4096 <= o <= 4096 && -4096 <= g <= 4096) by (nonlinear_arith)
        requires
            o == (co - 128) * t,
            g == (cg - 128) * t,
            -128 <= co - 128 <= 127,
            -128 <= cg - 128 <= 127,
            0 < t <= 32,
    ;
    lemma_restored(luma, divided(co, s), o, divided(cg, s), g);
    lemma_restored(luma, multiplied(co, s), o, multiplied(cg, s), g);
    // dividing by 32 units is dividing by the scale
    lemma_cancel(luma * s + (co - 128) - (cg - 128), s, t);
    lemma_cancel(luma * s + (cg - 128), s, t);
    lemma_cancel(luma * s - (co - 128) - (cg - 128), s, t);
    assert((luma * s + (co - 128) - (cg - 128)) * t == n + o - g) by (nonlinear_arith)
        requires
            n == luma * 32,
            o == (co - 128) * t,
            g == (cg - 128) * t,
            s * t == 32,
    ;
    assert((luma * s + (cg - 128)) * t == n + g) by (nonlinear_arith)
        requires
            n == luma * 32,
            g == (cg - 128) * t,
            s * t == 32,
    ;
    assert((luma * s - (co - 128) - (cg - 128)) * t == n - o - g) by (nonlinear_arith)
        requires
            n == luma * 32,
            o == (co - 128) * t,
            g == (cg - 128) * t,
            s * t == 32,
    ;
}

proof fn lemma_cancel(v: int, s: int, t: int)
    requires
        s > 0,
        t > 0,
        s * t == 32,
    ensures
        (v * t) / 32 == v / s,
{
    vstd::arithmetic::div_mod::lemma_fundamental_div_mod(v, s);
    let q = v / s;
    let r = v % s;
    assert(v * t == q * 32 + r * t && 0 <= r * t < 32) by (nonlinear_arith)
        requires
            v == s * q + r,
            0 <= r < s,
            s * t == 32,
            t > 0,
    ;
    vstd::arithmetic::div_mod::lemma_fundamental_div_mod_converse(v * t, 32, q, r * t);
}

/// The channels of a pixel whose chroma is exact, in units of 1/32.
proof fn lemma_restored(luma: int, co: Single, o: int, cg: Single, g: int)
    requires
        0 <= luma <= 255,
        crate::single::is_exactly(co, o, -5),
        crate::single::is_exactly(cg, g, -5),
        -4096 <= o <= 4096,
        -4096 <= g <= 4096,
    ensures
        restored(luma, co, cg, 0) == crate::color::clamp_byte((luma * 32 + o - g) / 32),
        restored(luma, co, cg, 1) == crate::color::clamp_byte((luma * 32 + g) / 32),
        restored(luma, co, cg, 2) == crate::color::clamp_byte((luma * 32 - o - g) / 32),
{
    reveal(restored);
    vstd::arithmetic::power2::lemma2_to64();
    crate::single::lemma_whole_number(luma, -5);
    let y = crate::single::whole_number(luma);
    let n = luma * 32;
    crate::single::lemma_sum_exact(y, n, co, o, -5);
    crate::single::lemma_difference_exact(crate::single::sum(y, co), n + o, cg, g, -5);
    lemma_to_byte(crate::single::difference(crate::single::sum(y, co), cg), n + o - g);
    crate::single::lemma_sum_exact(y, n, cg, g, -5);
    lemma_to_byte(crate::single::sum(y, cg), n + g);
    crate::single::lemma_difference_exact(y, n, co, o, -5);
    crate::single::lemma_difference_exact(crate::single::difference(y, co), n - o, cg, g, -5);
    lemma_to_byte(crate::single::difference(crate::single::difference(y, co), cg), n - o - g);
}

/// Chroma, multiplied by the inverse of its scale or divided by it.
pub open spec fn chroma(stored: int, scale: int, by_product: bool) -> Single {
    if by_product {
        multiplied(stored, scale)
    } else {
        divided(stored, scale)
    }
}

fn to_byte_exec(v: Single) -> (r: u8)
    requires
        v.wf(),
    ensures
        r == to_byte(v),
{
    v.clamp(Single::from_u32(0), Single::from_u32(255)).trunc_u8()
}

fn chroma_exec(stored: u8, scale: u8, by_product: bool) -> (r: Single)
    requires
        1 <= scale <= 32,
    ensures
        r == chroma(stored as int, scale as int, by_product),
        r.wf(),
{
    let c = Single::from_u32(stored as u32).minus(Single::from_u32(128));
    if by_product {
        c.times(Single::from_ratio(1, scale as u32))
    } else {
        c.over(Single::from_u32(scale as u32))
    }
}

/// `v / s` rounded down, as a byte.
fn floor_byte(v: i32, s: i32) -> (r: u8)
    requires
        s > 0,
    ensures
        r == crate::color::clamp_byte(v as int / s as int),
{
    if v < 0 {
        assert((v as int / s as int) < 0) by (nonlinear_arith)
            requires
                v < 0,
                s > 0,
        ;
        0
    } else {
        let q: i32 = v / s;
        clamp_i32(q)
    }
}

/// Restores the colour of a pixel.
pub fn restore(luma: u8, co: u8, cg: u8, scale: u8, by_product: bool) -> (out: (u8, u8, u8))
    requires
        1 <= scale <= 32,
    ensures
        ({
            let o = chroma(co as int, scale as int, by_product);
            let g = chroma(cg as int, scale as int, by_product);
            &&& out.0 == restored(luma as int, o, g, 0)
            &&& out.1 == restored(luma as int, o, g, 1)
            &&& out.2 == restored(luma as int, o, g, 2)
        }),
{
    if scale == 1 || scale == 2 || scale == 4 || scale == 8 || scale == 16 || scale == 32 {
        // no rounding takes place, so integers will do
        proof {
            vstd::arithmetic::power2::lemma2_to64();
            let j: int = if scale == 1 {
                0
            } else if scale == 2 {
                1
            } else if scale == 4 {
                2
            } else if scale == 8 {
                3
            } else if scale == 16 {
                4
            } else {
                5
            };
            assert(crate::single::pow2(j) == scale);
            law_power_of_two_scales(luma as int, co as int, cg as int, j, 0);
            law_power_of_two_scales(luma as int, co as int, cg as int, j, 1);
            law_power_of_two_scales(luma as int, co as int, cg as int, j, 2);
            assert(0 <= luma * scale <= 255 * 32) by (nonlinear_arith)
                requires
                    0 <= luma <= 255,
                    0 <= scale <= 32,
            ;
        }
        let s: i32 = scale as i32;
        let y: i32 = luma as i32 * s;
        let o: i32 = co as i32 - 128;
        let g: i32 = cg as i32 - 128;
        (floor_byte(y + o - g, s), floor_byte(y + g, s), floor_byte(y - o - g, s))
    } else {
        proof {
            reveal(restored);
        }
        let y = Single::from_u32(luma as u32);
        let o = chroma_exec(co, scale, by_product);
        let g = chroma_exec(cg, scale, by_product);
        (
            to_byte_exec(y.plus(o).minus(g)),
            to_byte_exec(y.plus(g)),
            to_byte_exec(y.minus(o).minus(g)),
        )
    }
}

/// The channel `c` of the pixel whose four values in the scaled layout stand at `p`.
#[verifier::opaque]
pub open spec fn restored_at(scaled: Seq<u8>, p: int, c: int, by_product: bool) -> int {
    let scale = scale_of(scaled[p + 2] as int);
    restored(
        scaled[p + 3] as int,
        chroma(scaled[p] as int, scale, by_product),
        chroma(scaled[p + 1] as int, scale, by_product),
        c,
    )
}

/// Restores the pixel whose four values in the scaled layout stand at `p`, and appends it.
fn push_restored(scaled: &[u8], p: usize, by_product: bool, out: &mut Vec<u8>)
    requires
        p + 4 <= scaled@.len(),
    ensures
        final(out)@.len() == old(out)@.len() + 4,
        forall|k: int| 0 <= k < old(out)@.len() ==> final(out)@[k] == old(out)@[k],
        forall|c: int|
            0 <= c < 4 ==> #[trigger] final(out)@[old(out)@.len() + c] == restored_at(
                scaled@,
                p as int,
                c,
                by_product,
            ),
{
    assert(scaled@.len() == scaled.len());
    proof {
        reveal(restored);
        reveal(restored_at);
    }
    let scale: u8 = scaled[p + 2] / 8 + 1;
    let (r, g, b) = restore(scaled[p + 3], scaled[p], scaled[p + 1], scale, by_product);
    out.push(r);
    out.push(g);
    out.push(b);
    out.push(255);
}

/// An image in the scaled layout, restored.
pub open spec fn restored_image(scaled: Seq<u8>) -> Seq<u8> {
    Seq::new(scaled.len(), |i: int| restored_at(scaled, i - i % 4, i % 4, false) as u8)
}

/// One line of a restored image.
fn restored_line(scaled: &[u8], width: usize, height: usize, y: usize) -> (row: Vec<u8>)
    requires
        scaled@.len() == width * height * 4,
        y < height,
    ensures
        row@.len() == width * 4,
        forall|k: int|
            0 <= k < width * 4 ==> #[trigger] row@[k] == restored_at(
                scaled@,
                y * (width * 4) + k - k % 4,
                k % 4,
                false,
            ),
{
    assert(scaled@.len() == scaled.len());
    let mut row: Vec<u8> = Vec::new();
    let mut x: usize = 0;
    while x < width
        invariant
            x <= width,
            scaled@.len() == width * height * 4,
            scaled@.len() <= usize::MAX,
            y < height,
            row@.len() == 4 * x,
            forall|k: int|
                0 <= k < 4 * x ==> #[trigger] row@[k] == restored_at(
                    scaled@,
                    y * (width * 4) + k - k % 4,
                    k % 4,
                    false,
                ),
        decreases width - x,
    {
        proof {
            lemma_pixel_bound(
                width as int,
                height as int,
                y as int,
                x as int,
                scaled@.len() as int,
            );
            assert(4 * (y * width + x) == y * (width * 4) + 4 * x) by (nonlinear_arith);
        }
        let p: usize = 4 * (y * width + x);
        let ghost before = row@;
        push_restored(scaled, p, false, &mut row);
        assert forall|k: int| 0 <= k < 4 * (x + 1) implies #[trigger] row@[k] == restored_at(
            scaled@,
            y * (width * 4) + k - k % 4,
            k % 4,
            false,
        ) by {
            if k < 4 * x {
                assert(row@[k] == before[k]);
            } else {
                assert(row@[before.len() + (k - 4 * x)] == restored_at(
                    scaled@,
                    p as int,
                    k - 4 * x,
                    false,
                ));
            }
        }
        x = x + 1;
    }
    row
}

/// Transforms an image in the scaled layout, as DXT5 decompression gives it, back to RGBA8.
pub fn scaled_ycocg_dxt5_output_to_rgba(
    ycocg_dxt5: &[u8],
    width: usize,
    height: usize,
    out: &mut [u8],
)
    requires
        ycocg_dxt5@.len() == width * height * 4,
        old(out)@.len() == width * height * 4,
    ensures
        final(out)@ == restored_image(ycocg_dxt5@),
{
    if width == 0 || height == 0 {
        proof {
            assert(width * height == 0) by (nonlinear_arith)
                requires
                    width == 0 || height == 0,
            ;
        }
        assert(out@ =~= restored_image(ycocg_dxt5@));
        return;
    }
    let make = |y: usize| -> (row: Vec<u8>)
        requires
            y < height,
        ensures
            row@.len() == width * 4,
            forall|k: int|
                0 <= k < width * 4 ==> #[trigger] row@[k] == restored_at(
                    ycocg_dxt5@,
                    y * (width * 4) + k - k % 4,
                    k % 4,
                    false,
                ),
    {
        restored_line(ycocg_dxt5, width, height, y)
    };
    let rows = map_indices(height, make);
    proof {
        assert(ycocg_dxt5@.len() == ycocg_dxt5.len());
        lemma_sizes(width as int, height as int, ycocg_dxt5@.len() as int);
    }
    store_rows(&rows, width * 4, out);
    proof {
        let want = restored_image(ycocg_dxt5@);
        assert forall|i: int| 0 <= i < want.len() implies #[trigger] out@[i] == want[i] by {
            crate::parallel::lemma_locate(i, width as int, height as int);
            let y = i / (width * 4);
            let k = i % (width * 4);
            crate::parallel::lemma_position(y, k, width as int);
            assert(rows@[y]@[k] == out@[y * (width * 4) + k]);
        }
        assert(out@ =~= want);
    }
}

/// The channel `c` of a pixel of a Hap Q image.
pub open spec fn hap_q_value(blocks: Seq<u8>, width: int, x: int, y: int, c: int) -> int {
    restored_at(Seq::new(4, |k: int| crate::blocks::decoded_value(Codec::Bc3, blocks, width, x, y, k)), 0, c, true)
}

/// A Hap Q image of `len` bytes.
pub open spec fn hap_q_image(blocks: Seq<u8>, width: int, len: int) -> Seq<u8> {
    Seq::new(
        len as nat,
        |i: int|
            hap_q_value(
                blocks,
                width,
                crate::parallel::column(i, width),
                crate::parallel::line(i, width),
                i % 4,
            ) as u8,
    )
}

/// What decoding a Hap Q image gives, apart from the pixels.
pub open spec fn hap_q_outcome(len: int, width: int, height: int) -> Result<(), DxtError> {
    if !crate::dxt::whole_blocks(width, height) {
        Err(crate::dxt::bad_dimensions(width, height))
    } else if len < (width / 4) * (height / 4) * 16 {
        Err(crate::dxt::bad_size((width / 4) * (height / 4) * 16, len))
    } else {
        Ok(())
    }
}

/// One line of an image, restored out of the decoded blocks of its block row.
pub fn restored_block_line(decoded: &Vec<u8>, width: usize, y: usize) -> (row: Vec<u8>)
    requires
        width % 4 == 0,
        width * 16 <= usize::MAX,
        decoded@.len() == 64 * (width / 4),
    ensures
        row@.len() == width * 4,
        forall|k: int|
            0 <= k < width * 4 ==> #[trigger] row@[k] == restored_at(
                decoded@,
                crate::blocks::place(k / 4, y as int),
                k % 4,
                true,
            ),
{
    let mut row: Vec<u8> = Vec::new();
    let mut x: usize = 0;
    while x < width
        invariant
            x <= width,
            width % 4 == 0,
            width * 16 <= usize::MAX,
            decoded@.len() == 64 * (width / 4),
            row@.len() == 4 * x,
            forall|k: int|
                0 <= k < 4 * x ==> #[trigger] row@[k] == restored_at(
                    decoded@,
                    crate::blocks::place(k / 4, y as int),
                    k % 4,
                    true,
                ),
        decreases width - x,
    {
        let p: usize = 64 * (x / 4) + ((y % 4) * 4 + x % 4) * 4;
        let ghost before = row@;
        push_restored(decoded.as_slice(), p, true, &mut row);
        assert forall|k: int| 0 <= k < 4 * (x + 1) implies #[trigger] row@[k] == restored_at(
            decoded@,
            crate::blocks::place(k / 4, y as int),
            k % 4,
            true,
        ) by {
            if k < 4 * x {
                assert(row@[k] == before[k]);
            } else {
                let c = k - 4 * x;
                assert(row@[before.len() + c] == restored_at(decoded@, p as int, c, true));
            }
        }
        x = x + 1;
    }
    row
}

/// One line of a Hap Q image.
fn hap_q_line(blocks: Ghost<Seq<u8>>, decoded: &Vec<u8>, width: usize, y: usize) -> (row: Vec<u8>)
    requires
        width % 4 == 0,
        width * 16 <= usize::MAX,
        decoded@.len() == 64 * (width / 4),
        forall|bx: int, k: int|
            #![trigger decoded@[64 * bx + k]]
            0 <= bx < width / 4 && 0 <= k < 64 ==> decoded@[64 * bx + k] == crate::blocks::pixels_of(
                Codec::Bc3,
                blocks@.subrange(
                    16 * ((y / 4) * (width / 4) + bx),
                    16 * ((y / 4) * (width / 4) + bx) + 16,
                ),
            )[k],
    ensures
        row@.len() == width * 4,
        forall|k: int|
            0 <= k < width * 4 ==> #[trigger] row@[k] == hap_q_value(
                blocks@,
                width as int,
                k / 4,
                y as int,
                k % 4,
            ),
{
    let row = restored_block_line(decoded, width, y);
    proof {
        assert forall|k: int| 0 <= k < width * 4 implies #[trigger] row@[k] == hap_q_value(
            blocks@,
            width as int,
            k / 4,
            y as int,
            k % 4,
        ) by {
            let x = k / 4;
            let j = ((y as int % 4) * 4 + x % 4) * 4;
            let four = Seq::new(
                4,
                |c: int|
                    crate::blocks::decoded_value(Codec::Bc3, blocks@, width as int, x, y as int, c),
            );
            assert(decoded@[64 * (x / 4) + j] == four[0]);
            assert(decoded@[64 * (x / 4) + (j + 1)] == four[1]);
            assert(decoded@[64 * (x / 4) + (j + 2)] == four[2]);
            assert(decoded@[64 * (x / 4) + (j + 3)] == four[3]);
            reveal(restored_at);
        }
    }
    row
}

/// Decodes a Hap Q image, scaled YCoCg in BC3 blocks, to RGBA8 in one pass over all cores.
///
/// The output is filled with as many block rows as it has room for.
pub fn decode_scaled_ycocg_bc3_direct(
    bc3_data: &[u8],
    width: usize,
    height: usize,
    out: &mut [u8],
) -> (r: Result<(), DxtError>)
    requires
        crate::dxt::addressable(width as int, height as int),
        hap_q_outcome(bc3_data@.len() as int, width as int, height as int) is Ok ==> {
            &&& width == 0 ==> old(out)@.len() == 0
            &&& width > 0 ==> old(out)@.len() % (width * 16) as nat == 0
            &&& width > 0 ==> (old(out)@.len() as int / (width * 16)) * (width / 4) * 16
                <= bc3_data@.len()
        },
    ensures
        r == hap_q_outcome(bc3_data@.len() as int, width as int, height as int),
        r is Ok ==> final(out)@ == hap_q_image(
            bc3_data@,
            width as int,
            old(out)@.len() as int,
        ),
        r is Err ==> final(out)@ == old(out)@,
{
    if width % 4 != 0 || height % 4 != 0 {
        return Err(DxtError::InvalidDimensions { width, height });
    }
    proof {
        crate::dxt::lemma_sizes(width as int, height as int);
        assert(bc3_data@.len() == bc3_data.len());
    }
    let blocks_x: usize = width / 4;
    let expected: usize = blocks_x * (height / 4) * 16;
    if bc3_data.len() < expected {
        return Err(DxtError::BufferSizeMismatch { expected, actual: bc3_data.len() });
    }
    if width == 0 || out.len() == 0 {
        assert(out@ =~= hap_q_image(bc3_data@, width as int, old(out)@.len() as int));
        return Ok(());
    }
    let ghost len = out@.len() as int;
    let ghost per_row = width * 16;
    let ghost rows_n = len / per_row;
    proof {
        assert(len == rows_n * per_row && rows_n >= 1) by (nonlinear_arith)
            requires
                rows_n == len / per_row,
                len % per_row == 0,
                len > 0,
                per_row > 0,
        ;
        assert(per_row <= len) by (nonlinear_arith)
            requires
                len == rows_n * per_row,
                rows_n >= 1,
                per_row > 0,
        ;
        assert(rows_n * blocks_x * 16 <= bc3_data@.len());
        assert(4 * rows_n <= len && (4 * rows_n) * (width * 4) == len) by (nonlinear_arith)
            requires
                len == rows_n * per_row,
                per_row == width * 16,
                width >= 1,
                rows_n >= 1,
        ;
    }
    let count: usize = out.len() / (width * 16);
    let ghost blocks = bc3_data@;
    let unpack = |by: usize| -> (decoded: Vec<u8>)
        requires
            by < count,
        ensures
            decoded@.len() == 64 * (width / 4),
            forall|bx: int, k: int|
                #![trigger decoded@[64 * bx + k]]
                0 <= bx < width / 4 && 0 <= k < 64 ==> decoded@[64 * bx + k] == crate::blocks::pixels_of(
                    Codec::Bc3,
                    bc3_data@.subrange(
                        16 * (by * (width / 4) + bx),
                        16 * (by * (width / 4) + bx) + 16,
                    ),
                )[k],
    {
        proof {
            assert((by + 1) * blocks_x * 16 <= count * blocks_x * 16) by (nonlinear_arith)
                requires
                    by + 1 <= count,
                    blocks_x >= 0,
            ;
        }
        decode_blocks(Codec::Bc3, bc3_data, blocks_x, by)
    };
    let decoded = map_indices(count, unpack);
    let decoded_ref = &decoded;
    let lines: usize = 4 * count;
    let make = |y: usize| -> (row: Vec<u8>)
        requires
            y < lines,
        ensures
            row@.len() == width * 4,
            forall|k: int|
                0 <= k < width * 4 ==> #[trigger] row@[k] == hap_q_value(
                    bc3_data@,
                    width as int,
                    k / 4,
                    y as int,
                    k % 4,
                ),
    {
        hap_q_line(Ghost(bc3_data@), &decoded_ref[y / 4], width, y)
    };
    let rows = map_indices(lines, make);
    store_rows(&rows, width * 4, out);
    proof {
        let want = hap_q_image(bc3_data@, width as int, len);
        assert forall|i: int| 0 <= i < want.len() implies #[trigger] out@[i] == want[i] by {
            crate::parallel::lemma_locate(i, width as int, lines as int);
            let y = i / (width * 4);
            let k = i % (width * 4);
            crate::parallel::lemma_position(y, k, width as int);
            assert(rows@[y]@[k] == out@[y * (width * 4) + k]);
        }
        assert(out@ =~= want);
    }
    Ok(())
}

/// Without dithering, transforming an image to the scaled layout and back changes red and green
/// by one level down at most and blue by one level up at most. Alpha comes back opaque.
pub proof fn law_scaled_round_trip(rgba: Seq<u8>, width: int, height: int, before: Seq<u8>, p: int)
    requires
        rgba.len() == width * height * 4,
        before.len() == rgba.len(),
        0 < width,
        width % 4 == 0,
        0 <= p < width * height,
    ensures
        ({
            let back = restored_image(scaled_image(rgba, width, false, before));
            &&& -1 <= back[4 * p] - rgba[4 * p] <= 0
            &&& -1 <= back[4 * p + 1] - rgba[4 * p + 1] <= 0
            &&& 0 <= back[4 * p + 2] - rgba[4 * p + 2] <= 1
            &&& back[4 * p + 3] == 255
        }),
{
    let scaled = scaled_image(rgba, width, false, before);
    let s = block_scale(rgba, width, (p % width) / 4, (p / width) / 4);
    lemma_scaled_pixel(rgba, width, height, before, p);
    lemma_restored_pixel(scaled, 4 * p, luma(rgba, p), orange(rgba, p), green(rgba, p), s);
    let back = restored_image(scaled);
    assert(back[4 * p] == restored_at(scaled, 4 * p, 0, false) as u8);
    assert(back[4 * p + 1] == restored_at(scaled, 4 * p, 1, false) as u8);
    assert(back[4 * p + 2] == restored_at(scaled, 4 * p, 2, false) as u8);
    assert(back[4 * p + 3] == restored_at(scaled, 4 * p, 3, false) as u8);
}

/// A pixel in the scaled layout: scaling never leaves the range of a byte.
proof fn lemma_scaled_pixel(rgba: Seq<u8>, width: int, height: int, before: Seq<u8>, p: int)
    requires
        rgba.len() == width * height * 4,
        before.len() == rgba.len(),
        0 < width,
        width % 4 == 0,
        0 <= p < width * height,
    ensures
        ({
            let scaled = scaled_image(rgba, width, false, before);
            let s = block_scale(rgba, width, (p % width) / 4, (p / width) / 4);
            &&& s == 1 || s == 2 || s == 4
            &&& scaled.len() == rgba.len()
            &&& scaled[4 * p] == orange(rgba, p) * s + 128
            &&& scaled[4 * p + 1] == green(rgba, p) * s + 128
            &&& scaled[4 * p + 2] == (s - 1) * 8
            &&& scaled[4 * p + 3] == luma(rgba, p)
        }),
{
    let x = p % width;
    let y = p / width;
    assert(0 <= x < width && p == y * width + x && y >= 0) by (nonlinear_arith)
        requires
            x == p % width,
            y == p / width,
            width > 0,
            p >= 0,
    ;
    let q = 4 * p;
    assert(q / 4 == p && (q + 1) / 4 == p && (q + 2) / 4 == p && (q + 3) / 4 == p);
    // the deviation of the block bounds the chroma of the pixel
    let i = (y % 4) * 4 + x % 4;
    assert(block_pixel(width, x / 4, y / 4, i) == p) by {
        assert(4 * (y / 4) + i / 4 == y);
    }
    lemma_spread(rgba, width, x / 4, y / 4, i, 16);
    let s = block_scale(rgba, width, x / 4, y / 4);
    let o = orange(rgba, p);
    let g = green(rgba, p);
    assert(-128 <= o <= 127);
    assert(-128 <= g <= 127);
    assert(0 <= o * s + 128 <= 255 && 0 <= g * s + 128 <= 255) by {
        let dev = spread(rgba, width, x / 4, y / 4, 16);
        if dev <= 31 {
            assert(s == 4);
        } else if dev <= 63 {
            assert(s == 2);
        } else {
            assert(s == 1);
        }
    }
    assert(scaled_value(rgba, width, false, x, y, 0) == o * s + 128);
    assert(scaled_value(rgba, width, false, x, y, 1) == g * s + 128);
}

/// A pixel comes back from the scaled layout by integer arithmetic.
proof fn lemma_restored_pixel(scaled: Seq<u8>, q: int, l: int, o: int, g: int, s: int)
    requires
        0 <= q,
        q + 4 <= scaled.len(),
        s == 1 || s == 2 || s == 4,
        scaled[q] == o * s + 128,
        scaled[q + 1] == g * s + 128,
        scaled[q + 2] == (s - 1) * 8,
        scaled[q + 3] == l,
    ensures
        restored_at(scaled, q, 0, false) == crate::color::clamp_byte(l + o - g),
        restored_at(scaled, q, 1, false) == crate::color::clamp_byte(l + g),
        restored_at(scaled, q, 2, false) == crate::color::clamp_byte(l - o - g),
        restored_at(scaled, q, 3, false) == 255,
{
    reveal(restored_at);
    vstd::arithmetic::power2::lemma2_to64();
    let j: int = if s == 4 {
        2
    } else if s == 2 {
        1
    } else {
        0
    };
    assert(crate::single::pow2(j) == s);
    assert(scale_of(scaled[q + 2] as int) == s);
    law_power_of_two_scales(l, o * s + 128, g * s + 128, j, 0);
    law_power_of_two_scales(l, o * s + 128, g * s + 128, j, 1);
    law_power_of_two_scales(l, o * s + 128, g * s + 128, j, 2);
    law_power_of_two_scales(l, o * s + 128, g * s + 128, j, 3);
    if s == 1 {
        assert(restored_exactly(l, o + 128, g + 128, 1, 0) == crate::color::clamp_byte(l + o - g));
    } else if s == 2 {
        assert((l * 2 + o * 2 - g * 2) / 2 == l + o - g);
    } else {
        assert((l * 4 + o * 4 - g * 4) / 4 == l + o - g);
    }
}

/// No pixel of a block deviates more than the block.
proof fn lemma_spread(rgba: Seq<u8>, width: int, bx: int, by: int, i: int, n: int)
    requires
        0 <= i < n,
    ensures
        abs(orange(rgba, block_pixel(width, bx, by, i))) <= spread(rgba, width, bx, by, n),
        abs(green(rgba, block_pixel(width, bx, by, i))) <= spread(rgba, width, bx, by, n),
    decreases n,
{
    if i < n - 1 {
        lemma_spread(rgba, width, bx, by, i, n - 1);
    }
}

/// A pixel in the scaled layout, with or without dithering.
proof fn lemma_dithered_pixel(
    rgba: Seq<u8>,
    width: int,
    height: int,
    on: bool,
    before: Seq<u8>,
    p: int,
)
    requires
        rgba.len() == width * height * 4,
        before.len() == rgba.len(),
        0 < width,
        width % 4 == 0,
        0 <= p < width * height,
    ensures
        ({
            let scaled = scaled_image(rgba, width, on, before);
            let s = block_scale(rgba, width, (p % width) / 4, (p / width) / 4);
            let d = dither(p % width, p / width, on);
            &&& s == 1 || s == 2 || s == 4
            &&& scaled.len() == rgba.len()
            &&& -1 <= d <= 1
            &&& !on ==> d == 0
            &&& 0 <= orange(rgba, p) * s + 128 <= 255
            &&& 0 <= green(rgba, p) * s + 128 <= 255
            &&& scaled[4 * p] == crate::color::clamp_byte(orange(rgba, p) * s + 128 + d)
            &&& scaled[4 * p + 1] == crate::color::clamp_byte(green(rgba, p) * s + 128 + d)
            &&& scaled[4 * p + 2] == (s - 1) * 8
            &&& scaled[4 * p + 3] == luma(rgba, p)
        }),
{
    lemma_scaled_pixel(rgba, width, height, before, p);
    let x = p % width;
    let y = p / width;
    assert(0 <= x < width && p == y * width + x && y >= 0) by (nonlinear_arith)
        requires
            x == p % width,
            y == p / width,
            width > 0,
            p >= 0,
    ;
    law_dither(x, y);
    let q = 4 * p;
    assert(q / 4 == p && (q + 1) / 4 == p && (q + 2) / 4 == p && (q + 3) / 4 == p);
    assert(scaled_image(rgba, width, false, before)[4 * p] == orange(rgba, p) * block_scale(
        rgba,
        width,
        x / 4,
        y / 4,
    ) + 128);
}

/// Dithering adds nothing unless it is on. The Bayer matrix holds the ranks 0 to 15 in the ordered
/// pattern that is made of four times 0, 2, 3 and 1, again in that pattern; a pixel of one of the
/// four lowest ranks is darkened by one, one of the four highest is brightened by one.
pub proof fn law_dither(x: int, y: int)
    requires
        0 <= x,
        0 <= y,
    ensures
        dither(x, y, false) == 0,
        ({
            let coarse = bayer_step(x % 2, y % 2);
            let fine = bayer_step(x / 2 % 2, y / 2 % 2);
            let rank = 4 * coarse + fine;
            dither(x, y, true) == if rank < 4 {
                -1int
            } else if rank < 12 {
                0
            } else {
                1
            }
        }),
{
    let (a, b) = (x % 4, y % 4);
    assert(x % 2 == a % 2 && x / 2 % 2 == a / 2 && y % 2 == b % 2 && y / 2 % 2 == b / 2);
    assert(a == 0 || a == 1 || a == 2 || a == 3);
    assert(b == 0 || b == 1 || b == 2 || b == 3);
    assert(BAYER_4X4@[0]@ =~= seq![0i32, 8, 2, 10]);
    assert(BAYER_4X4@[1]@ =~= seq![12i32, 4, 14, 6]);
    assert(BAYER_4X4@[2]@ =~= seq![3i32, 11, 1, 9]);
    assert(BAYER_4X4@[3]@ =~= seq![15i32, 7, 13, 5]);
}

/// The pattern of two by two.
pub open spec fn bayer_step(x: int, y: int) -> int {
    if y == 0 {
        2 * x
    } else {
        3 - 2 * x
    }
}

/// Two bytes are no further apart than `n`.
pub open spec fn near(a: int, b: int, n: int) -> bool {
    -n <= a - b <= n
}

/// An image in the scaled layout is taken back to the image that it was made of, by both ways in
/// which decoders divide: each colour to within one level, with dithering to within three. Every
/// pixel comes back opaque.
#[verifier::spinoff_prover]
#[verifier::rlimit(40)]
pub proof fn law_scaled_image_restored(
    rgba: Seq<u8>,
    width: int,
    height: int,
    on: bool,
    before: Seq<u8>,
    p: int,
    by_product: bool,
)
    requires
        rgba.len() == width * height * 4,
        before.len() == rgba.len(),
        0 < width,
        width % 4 == 0,
        0 <= p < width * height,
    ensures
        ({
            let scaled = scaled_image(rgba, width, on, before);
            let n = if on {
                3int
            } else {
                1
            };
            &&& scaled.len() == rgba.len()
            &&& near(restored_at(scaled, 4 * p, 0, by_product), rgba[4 * p] as int, n)
            &&& near(restored_at(scaled, 4 * p, 1, by_product), rgba[4 * p + 1] as int, n)
            &&& near(restored_at(scaled, 4 * p, 2, by_product), rgba[4 * p + 2] as int, n)
            &&& restored_at(scaled, 4 * p, 3, by_product) == 255
        }),
{
    let scaled = scaled_image(rgba, width, on, before);
    lemma_dithered_pixel(rgba, width, height, on, before, p);
    let s = block_scale(rgba, width, (p % width) / 4, (p / width) / 4);
    let l = luma(rgba, p);
    let o = orange(rgba, p);
    let g = green(rgba, p);
    let co = scaled[4 * p] as int;
    let cg = scaled[4 * p + 1] as int;
    reveal(restored_at);
    vstd::arithmetic::power2::lemma2_to64();
    let j: int = if s == 4 {
        2
    } else if s == 2 {
        1
    } else {
        0
    };
    assert(crate::single::pow2(j) == s);
    assert(scale_of(scaled[4 * p + 2] as int) == s);
    law_power_of_two_scales(l, co, cg, j, 0);
    law_power_of_two_scales(l, co, cg, j, 1);
    law_power_of_two_scales(l, co, cg, j, 2);
    law_power_of_two_scales(l, co, cg, j, 3);
    let e = co - 128 - o * s;
    let f = cg - 128 - g * s;
    assert(-1 <= e <= 1 && -1 <= f <= 1);
    if s == 1 {
        assert(l * 1 + (co - 128) - (cg - 128) == l + o - g + e - f);
    } else if s == 2 {
        assert((l * 2 + (co - 128) - (cg - 128)) / 2 == l + o - g + (e - f) / 2);
        assert((l * 2 + (cg - 128)) / 2 == l + g + f / 2);
        assert((l * 2 - (co - 128) - (cg - 128)) / 2 == l - o - g + (-e - f) / 2);
    } else {
        assert((l * 4 + (co - 128) - (cg - 128)) / 4 == l + o - g + (e - f) / 4);
        assert((l * 4 + (cg - 128)) / 4 == l + g + f / 4);
        assert((l * 4 - (co - 128) - (cg - 128)) / 4 == l - o - g + (-e - f) / 4);
    }
}

/// The chroma differences of a pixel, halved and quartered, are no larger than `limit`.
pub open spec fn mild(rgba: Seq<u8>, p: int, limit: int) -> bool {
    &&& -2 * limit <= rgba[4 * p] - rgba[4 * p + 2] < 2 * limit + 2
    &&& -4 * limit <= 2 * rgba[4 * p + 1] - rgba[4 * p] - rgba[4 * p + 2] < 4 * limit + 4
}

/// So are those of every pixel of the block in column `bx` of block row `by`.
pub open spec fn mild_block(rgba: Seq<u8>, width: int, bx: int, by: int, limit: int) -> bool {
    forall|i: int|
        0 <= i < 16 ==> mild(
            rgba,
            #[trigger] ((4 * by + i / 4) * width + 4 * bx + i % 4),
            limit,
        )
}

/// The scaled layout of a pixel: a fourth of red, twice green and blue is its luma, in the last
/// channel. Half of red less blue, and a fourth of twice green less the two, stand in the first
/// two, times the scale of the block and around 128. The scale is 4 if no pixel of the block goes
/// beyond 31 in them, 2 if none goes beyond 63, and 1 else; the third channel holds 8 for each step
/// above 1. Dithering moves the first two by one at most, and nothing else.
pub proof fn law_scaled_layout(
    rgba: Seq<u8>,
    width: int,
    height: int,
    on: bool,
    before: Seq<u8>,
    x: int,
    y: int,
)
    requires
        rgba.len() == width * height * 4,
        before.len() == rgba.len(),
        width % 4 == 0,
        0 <= x < width,
        0 <= y < height,
    ensures
        ({
            let p = y * width + x;
            let (r, g, b) = (rgba[4 * p] as int, rgba[4 * p + 1] as int, rgba[4 * p + 2] as int);
            let scaled = scaled_image(rgba, width, on, before);
            let s = if mild_block(rgba, width, x / 4, y / 4, 31) {
                4int
            } else if mild_block(rgba, width, x / 4, y / 4, 63) {
                2
            } else {
                1
            };
            let n = if on {
                1int
            } else {
                0
            };
            &&& 0 <= r + 2 * g + b - 4 * scaled[4 * p + 3] < 4
            &&& scaled[4 * p + 2] == 8 * (s - 1)
            &&& near(scaled[4 * p] as int, (r - b) / 2 * s + 128, n)
            &&& near(scaled[4 * p + 1] as int, (2 * g - r - b) / 4 * s + 128, n)
        }),
{
    let p = y * width + x;
    assert(0 <= p < width * height) by (nonlinear_arith)
        requires
            p == y * width + x,
            0 <= x < width,
            0 <= y < height,
    ;
    vstd::arithmetic::div_mod::lemma_fundamental_div_mod_converse(p, width, y, x);
    lemma_dithered_pixel(rgba, width, height, on, before, p);
    lemma_mild(rgba, width, x / 4, y / 4, 31, 16);
    lemma_mild(rgba, width, x / 4, y / 4, 63, 16);
}

/// The spread of a block is within a limit exactly if every pixel is.
proof fn lemma_mild(rgba: Seq<u8>, width: int, bx: int, by: int, limit: int, n: int)
    requires
        0 <= n <= 16,
        limit >= 0,
    ensures
        spread(rgba, width, bx, by, n) <= limit <==> forall|i: int|
            0 <= i < n ==> mild(
                rgba,
                #[trigger] ((4 * by + i / 4) * width + 4 * bx + i % 4),
                limit,
            ),
    decreases n,
{
    if n > 0 {
        lemma_mild(rgba, width, bx, by, limit, n - 1);
        let p = (4 * by + (n - 1) / 4) * width + 4 * bx + (n - 1) % 4;
        assert(p == block_pixel(width, bx, by, n - 1));
        assert(mild(rgba, p, limit) <==> abs(orange(rgba, p)) <= limit && abs(green(rgba, p))
            <= limit);
    }
}

/// A restored value is a byte.
pub proof fn lemma_restored_range(scaled: Seq<u8>, p: int, c: int, by_product: bool)
    ensures
        0 <= restored_at(scaled, p, c, by_product) <= 255,
{
    reveal(restored_at);
    reveal(restored);
    reveal(crate::single::truncated_within);
}

/// The four values of a pixel decide what it is restored to.
pub proof fn lemma_restored_same(a: Seq<u8>, i: int, b: Seq<u8>, j: int, by_product: bool)
    requires
        forall|c: int| 0 <= c < 4 ==> #[trigger] a[i + c] == b[j + c],
    ensures
        forall|c: int| #[trigger]
            restored_at(a, i, c, by_product) == restored_at(b, j, c, by_product),
{
    reveal(restored_at);
    assert(a[i + 0] == b[j + 0]);
    assert(a[i + 1] == b[j + 1]);
    assert(a[i + 2] == b[j + 2]);
    assert(a[i + 3] == b[j + 3]);
}

} // verus!
