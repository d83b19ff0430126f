//! Decoding of BC6H blocks (BPTC float) for Hap HDR, with the `texture2ddecoder` crate.

use vstd::prelude::*;
use vstd::slice::slice_subrange;

verus! {

/// Errors of BC6H decoding.
#[derive(Debug, PartialEq, Eq)]
pub enum Bc6hError {
    /// The dimensions are not multiples of 4.
    InvalidDimensions { width: usize, height: usize },
    /// The input buffer has the wrong size.
    BufferSizeMismatch { expected: usize, actual: usize },
    /// The decoder cannot read the blocks.
    DecompressFailed(String),
}

/// A BC6H error, with its text as characters.
pub enum Bc6hFault {
    InvalidDimensions { width: int, height: int },
    BufferSizeMismatch { expected: int, actual: int },
    DecompressFailed(Seq<char>),
}

impl View for Bc6hError {
    type V = Bc6hFault;

    open spec fn view(&self) -> Bc6hFault {
        match *self {
            Bc6hError::InvalidDimensions { width, height } => Bc6hFault::InvalidDimensions {
                width: width as int,
                height: height as int,
            },
            Bc6hError::BufferSizeMismatch { expected, actual } => Bc6hFault::BufferSizeMismatch {
                expected: expected as int,
                actual: actual as int,
            },
            Bc6hError::DecompressFailed(m) => Bc6hFault::DecompressFailed(m@),
        }
    }
}

/// What `texture2ddecoder::decode_bc6_signed` makes of blocks with signed endpoints.
pub uninterp spec fn signed_pixels(blocks: Seq<u8>, width: int, height: int) -> Seq<u32>;

/// What `texture2ddecoder::decode_bc6_unsigned` makes of blocks with unsigned endpoints.
pub uninterp spec fn unsigned_pixels(blocks: Seq<u8>, width: int, height: int) -> Seq<u32>;

/// A block, from `n` on, is of the mode with 16-bit endpoints. The decoder shifts a 16-bit
/// number by 16 places in that mode and so cannot read it.
pub open spec fn has_wide_block(blocks: Seq<u8>, n: int) -> bool {
    exists|b: int| n <= b && 16 * b < blocks.len() && is_wide(#[trigger] blocks[16 * b])
}

/// The first byte of a block announces 16-bit endpoints.
pub open spec fn is_wide(first: u8) -> bool {
    first % 32 == 15
}

/// Calls `texture2ddecoder::decode_bc6_signed`. It fails only on buffers that are too short;
/// what it writes depends on its arguments alone.
#[verifier::external_body]
fn decode_signed(blocks: &[u8], width: usize, height: usize) -> (r: Result<Vec<u32>, String>)
    requires
        width % 4 == 0,
        height % 4 == 0,
        width * height * 4 <= usize::MAX,
        blocks@.len() == (width / 4) * (height / 4) * 16,
        !has_wide_block(blocks@, 0),
    ensures
        r is Ok,
        r matches Ok(v) ==> v@ == signed_pixels(blocks@, width as int, height as int) && v@.len()
            == width * height,
{
    let mut image = vec![0u32; width * height];
    texture2ddecoder::decode_bc6_signed(blocks, width, height, &mut image).map_err(|e| e.to_owned())?;
    Ok(image)
}

/// Calls `texture2ddecoder::decode_bc6_unsigned`. It fails only on buffers that are too short;
/// what it writes depends on its arguments alone.
#[verifier::external_body]
fn decode_unsigned(blocks: &[u8], width: usize, height: usize) -> (r: Result<
    Vec<u32>,
    String,
>)
    requires
        width % 4 == 0,
        height % 4 == 0,
        width * height * 4 <= usize::MAX,
        blocks@.len() == (width / 4) * (height / 4) * 16,
        !has_wide_block(blocks@, 0),
    ensures
        r is Ok,
        r matches Ok(v) ==> v@ == unsigned_pixels(blocks@, width as int, height as int) && v@.len()
            == width * height,
{
    let mut image = vec![0u32; width * height];
    texture2ddecoder::decode_bc6_unsigned(blocks, width, height, &mut image).map_err(|e| e.to_owned())?;
    Ok(image)
}

/// A decoded pixel holds blue in its lowest byte, then green, then red. The preview is opaque.
pub open spec fn opaque_bytes(pixels: Seq<u32>) -> Seq<u8> {
    Seq::new(
        4 * pixels.len(),
        |i: int|
            if i % 4 == 0 {
                (pixels[i / 4] / 0x1_0000 % 0x100) as u8
            } else if i % 4 == 1 {
                (pixels[i / 4] / 0x100 % 0x100) as u8
            } else if i % 4 == 2 {
                (pixels[i / 4] % 0x100) as u8
            } else {
                255
            },
    )
}

/// What decoding BC6H blocks gives. Bytes after the last block are not read.
pub open spec fn decompressed(bc6h: Seq<u8>, width: int, height: int, is_signed: bool) -> Result<
    Seq<u8>,
    Bc6hFault,
> {
    let need = (width / 4) * (height / 4) * 16;
    if !crate::dxt::whole_blocks(width, height) {
        Err(Bc6hFault::InvalidDimensions { width, height })
    } else if bc6h.len() < need {
        Err(Bc6hFault::BufferSizeMismatch { expected: need, actual: bc6h.len() as int })
    } else {
        let blocks = bc6h.subrange(0, need);
        if has_wide_block(blocks, 0) {
            Err(Bc6hFault::DecompressFailed("Blocks with 16-bit endpoints are not supported"@))
        } else if is_signed {
            Ok(opaque_bytes(signed_pixels(blocks, width, height)))
        } else {
            Ok(opaque_bytes(unsigned_pixels(blocks, width, height)))
        }
    }
}

/// The outcome is the one wanted.
pub open spec fn agrees(r: Result<Vec<u8>, Bc6hError>, want: Result<Seq<u8>, Bc6hFault>) -> bool {
    match r {
        Ok(v) => want == Ok::<Seq<u8>, Bc6hFault>(v@),
        Err(e) => want == Err::<Seq<u8>, Bc6hFault>(e@),
    }
}

/// Looks for a block with 16-bit endpoints.
fn find_wide_block(blocks: &[u8]) -> (found: bool)
    requires
        blocks@.len() % 16 == 0,
    ensures
        found == has_wide_block(blocks@, 0),
{
    let count: usize = blocks.len() / 16;
    let mut b: usize = 0;
    while b < count
        invariant
            b <= count,
            blocks@.len() == 16 * count,
            blocks@.len() <= usize::MAX,
            has_wide_block(blocks@, 0) == has_wide_block(blocks@, b as int),
        decreases count - b,
    {
        if blocks[16 * b] % 32 == 15 {
            assert(is_wide(blocks@[16 * b as int]));
            return true;
        }
        b = b + 1;
        assert(has_wide_block(blocks@, b - 1) ==> has_wide_block(blocks@, b as int)) by {
            if has_wide_block(blocks@, b - 1) {
                let w = choose|w: int|
                    b - 1 <= w && 16 * w < blocks@.len() && is_wide(#[trigger] blocks@[16 * w]);
                assert(is_wide(blocks@[16 * w]));
            }
        }
    }
    false
}

/// Decodes BC6H blocks to RGBA8 preview pixels, clamped to the displayable range.
pub fn decompress_bc6h(bc6h: &[u8], width: usize, height: usize, is_signed: bool) -> (r: Result<
    Vec<u8>,
    Bc6hError,
>)
    requires
        crate::dxt::addressable(width as int, height as int),
    ensures
        agrees(r, decompressed(bc6h@, width as int, height as int, is_signed)),
        r matches Ok(v) ==> v@.len() == width * height * 4,
{
    if width % 4 != 0 || height % 4 != 0 {
        return Err(Bc6hError::InvalidDimensions { width, height });
    }
    proof {
        crate::dxt::lemma_sizes(width as int, height as int);
    }
    let expected: usize = (width / 4) * (height / 4) * 16;
    if bc6h.len() < expected {
        return Err(Bc6hError::BufferSizeMismatch { expected, actual: bc6h.len() });
    }
    let blocks = slice_subrange(bc6h, 0, expected);
    if find_wide_block(blocks) {
        return Err(
            Bc6hError::DecompressFailed(
                "Blocks with 16-bit endpoints are not supported".to_owned(),
            ),
        );
    }
    let pixels = if is_signed {
        decode_signed(blocks, width, height)
    } else {
        decode_unsigned(blocks, width, height)
    };
    match pixels {
        Ok(p) => Ok(to_bytes(p.as_slice())),
        Err(e) => Err(Bc6hError::DecompressFailed(e)),
    }
}

/// Takes the channels of decoded pixels apart.
pub fn to_bytes(pixels: &[u32]) -> (out: Vec<u8>)
    ensures
        out@ == opaque_bytes(pixels@),
{
    let mut out: Vec<u8> = Vec::new();
    let mut i: usize = 0;
    while i < pixels.len()
        invariant
            i <= pixels@.len(),
            out@.len() == 4 * i,
            forall|k: int| 0 <= k < 4 * i ==> #[trigger] out@[k] == opaque_bytes(pixels@)[k],
        decreases pixels@.len() - i,
    {
        let p: u32 = pixels[i];
        out.push((p / 0x1_0000 % 0x100) as u8);
        out.push((p / 0x100 % 0x100) as u8);
        out.push((p % 0x100) as u8);
        out.push(255);
        i = i + 1;
    }
    assert(out@ =~= opaque_bytes(pixels@));
    out
}

} // verus!
