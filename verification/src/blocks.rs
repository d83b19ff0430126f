//! Decoding of single blocks with the `bcdec_rs` crate.

use crate::bc7::Endpoint;
use crate::bytes::push_all;
use vstd::prelude::*;
use vstd::slice::slice_subrange;

verus! {

/// A block format of 16 bytes per block.
#[derive(Debug, Clone, Copy, PartialEq, Eq)]
pub enum Codec {
    Bc3,
    Bc7,
}

/// What `bcdec_rs::bc3` makes of a block.
pub uninterp spec fn bc3_pixels(block: Seq<u8>) -> Seq<u8>;

/// Calls `bcdec_rs::bc3`, which decodes a block of 16 bytes to 4x4 pixels of four bytes, here
/// with nothing between the lines. What it writes depends on the block alone.
#[verifier::external_body]
fn bcdec_bc3(block: &[u8]) -> (out: Vec<u8>)
    requires
        block@.len() == 16,
    ensures
        out@ == bc3_pixels(block@),
        out@.len() == 64,
{
    let mut out = vec![0u8; 64];
    bcdec_rs::bc3(block, &mut out, 16);
    out
}

/// What `bcdec_rs::bc7` makes of a block.
pub uninterp spec fn bc7_pixels(block: Seq<u8>) -> Seq<u8>;

/// Calls `bcdec_rs::bc7`, which decodes a block of 16 bytes to 4x4 pixels of four bytes, here
/// with nothing between the lines. What it writes depends on the block alone. In mode 6, which
/// the lowest seven bits announce, it reads two endpoints, their shared bits and the indices, and
/// every pixel is the palette entry of its index.
#[verifier::external_body]
fn bcdec_bc7(block: &[u8]) -> (out: Vec<u8>)
    requires
        block@.len() == 16,
    ensures
        out@ == bc7_pixels(block@),
        out@.len() == 64,
        shows_mode6(block@, out@),
{
    let mut out = vec![0u8; 64];
    bcdec_rs::bc7(block, &mut out, 16);
    out
}

/// If the block is a mode 6 block then the pixels are the palette entries of its indices.
pub open spec fn shows_mode6(block: Seq<u8>, pixels: Seq<u8>) -> bool {
    forall|first: Endpoint, second: Endpoint, indices: Seq<u8>|
        crate::bc7::mode6_fields(first, second, indices) && block
            == #[trigger] crate::bc7::block_bytes(first, second, indices) ==> pixels
            == crate::bc7::palette_pixels(first, second, indices)
}

/// The 4x4 pixels of a block, line by line.
pub open spec fn pixels_of(codec: Codec, block: Seq<u8>) -> Seq<u8> {
    match codec {
        Codec::Bc3 => bc3_pixels(block),
        Codec::Bc7 => bc7_pixels(block),
    }
}

/// The byte of a decoded image at column `x`, line `y` and channel `c`.
pub open spec fn decoded_value(
    codec: Codec,
    blocks: Seq<u8>,
    width: int,
    x: int,
    y: int,
    c: int,
) -> u8 {
    let b = (y / 4) * (width / 4) + x / 4;
    pixels_of(codec, blocks.subrange(16 * b, 16 * b + 16))[((y % 4) * 4 + x % 4) * 4 + c]
}

/// The decoder reads block `b` as mode 6 if it is of that mode.
pub open spec fn shows_block(blocks: Seq<u8>, b: int) -> bool {
    let block = blocks.subrange(16 * b, 16 * b + 16);
    shows_mode6(block, bc7_pixels(block))
}

/// The decoder so reads all blocks of block row `by`.
pub open spec fn shows_row(blocks: Seq<u8>, blocks_x: int, by: int) -> bool {
    forall|bx: int| 0 <= bx < blocks_x ==> #[trigger] shows_block(blocks, by * blocks_x + bx)
}

/// Decodes the blocks of a block row, one after the other.
pub(crate) fn decode_blocks(codec: Codec, blocks: &[u8], blocks_x: usize, by: usize) -> (out: Vec<u8>)
    requires
        (by + 1) * blocks_x * 16 <= blocks@.len(),
        blocks_x * 64 <= usize::MAX,
    ensures
        out@.len() == 64 * blocks_x,
        forall|bx: int, k: int|
            #![trigger out@[64 * bx + k]]
            0 <= bx < blocks_x && 0 <= k < 64 ==> out@[64 * bx + k] == pixels_of(
                codec,
                blocks@.subrange(16 * (by * blocks_x + bx), 16 * (by * blocks_x + bx) + 16),
            )[k],
        codec == Codec::Bc7 ==> shows_row(blocks@, blocks_x as int, by as int),
{
    let ghost first = by * blocks_x;
    proof {
        assert(blocks@.len() == blocks.len());
        assert((by + 1) * blocks_x == first + blocks_x && first >= 0) by (nonlinear_arith)
            requires
                first == by * blocks_x,
                by >= 0,
                blocks_x >= 0,
        ;
    }
    let start: usize = by * blocks_x;
    let mut out: Vec<u8> = Vec::new();
    let mut bx: usize = 0;
    while bx < blocks_x
        invariant
            bx <= blocks_x,
            start == first,
            first >= 0,
            16 * (first + blocks_x) <= blocks@.len(),
            blocks@.len() <= usize::MAX,
            out@.len() == 64 * bx,
            forall|b: int, k: int|
                #![trigger out@[64 * b + k]]
                0 <= b < bx && 0 <= k < 64 ==> out@[64 * b + k] == pixels_of(
                    codec,
                    blocks@.subrange(16 * (first + b), 16 * (first + b) + 16),
                )[k],
            codec == Codec::Bc7 ==> forall|b: int|
                0 <= b < bx ==> #[trigger] shows_block(blocks@, first + b),
        decreases blocks_x - bx,
    {
        let at: usize = 16 * (start + bx);
        let block = slice_subrange(blocks, at, at + 16);
        let pixels = match codec {
            Codec::Bc3 => bcdec_bc3(block),
            Codec::Bc7 => bcdec_bc7(block),
        };
        let ghost before = out@;
        push_all(&mut out, pixels.as_slice());
        assert forall|b: int, k: int|
            #![trigger out@[64 * b + k]]
            0 <= b < bx + 1 && 0 <= k < 64 implies out@[64 * b + k] == pixels_of(
            codec,
            blocks@.subrange(16 * (first + b), 16 * (first + b) + 16),
        )[k] by {
            if b < bx {
                assert(out@[64 * b + k] == before[64 * b + k]);
            } else {
                assert(out@[64 * b + k] == pixels@[k]);
            }
        }
        bx = bx + 1;
    }
    out
}

/// Where the pixel at column `x` of line `y` stands among the decoded blocks of its block row.
pub open spec fn place(x: int, y: int) -> int {
    64 * (x / 4) + ((y % 4) * 4 + x % 4) * 4
}

/// One line of an image, out of the decoded blocks of its block row.
pub fn block_row_line(decoded: &Vec<u8>, width: usize, y: usize) -> (row: Vec<u8>)
    requires
        width % 4 == 0,
        width * 16 <= usize::MAX,
        decoded@.len() == 64 * (width / 4),
    ensures
        row@.len() == width * 4,
        forall|k: int|
            0 <= k < width * 4 ==> #[trigger] row@[k] == decoded@[place(k / 4, y as int) + k % 4],
{
    let mut row: Vec<u8> = Vec::new();
    let mut k: usize = 0;
    while k < width * 4
        invariant
            k <= width * 4,
            width % 4 == 0,
            width * 16 <= usize::MAX,
            decoded@.len() == 64 * (width / 4),
            row@.len() == k,
            forall|j: int|
                0 <= j < k ==> #[trigger] row@[j] == decoded@[place(j / 4, y as int) + j % 4],
        decreases width * 4 - k,
    {
        let x: usize = k / 4;
        let p: usize = 64 * (x / 4) + (((y % 4) * 4 + x % 4) * 4 + k % 4);
        row.push(decoded[p]);
        k = k + 1;
    }
    row
}

} // verus!
