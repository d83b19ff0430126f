//! Block compression with the `texpresso` crate: DXT1 (BC1), DXT5 (BC3) and BC4 (RGTC1).

use vstd::prelude::*;
use vstd::slice::slice_subrange;

verus! {

/// Errors of block compression and decompression.
#[derive(Debug, Clone, Copy, PartialEq, Eq)]
pub enum DxtError {
    /// The dimensions are not multiples of 4.
    InvalidDimensions { width: usize, height: usize },
    /// The input buffer has the wrong size.
    BufferSizeMismatch { expected: usize, actual: usize },
}

/// A block format.
#[derive(Debug, Clone, Copy, PartialEq, Eq)]
pub enum BlockFormat {
    /// Colour, 8 bytes per block.
    Bc1,
    /// Colour and alpha, 16 bytes per block.
    Bc3,
    /// One channel, 8 bytes per block.
    Bc4,
}

/// How the colours of a block are fitted.
#[derive(Debug, Clone, Copy, PartialEq, Eq)]
pub enum ColourFit {
    /// Fast.
    Range,
    /// Slow, of higher quality.
    Cluster,
}

/// How the channels weigh against each other.
#[derive(Debug, Clone, Copy, PartialEq, Eq)]
pub enum ChannelWeights {
    /// By perceived brightness.
    Perceptual,
    /// All the same.
    Uniform,
}

/// The parameters of block compression.
#[derive(Debug, Clone, Copy, PartialEq, Eq)]
pub struct CompressParams {
    pub fit: ColourFit,
    pub weights: ChannelWeights,
}

impl BlockFormat {
    /// The bytes of a block.
    pub open spec fn block_bytes(self) -> int {
        match self {
            BlockFormat::Bc3 => 16,
            _ => 8,
        }
    }

    /// The bytes of a block.
    pub fn block_size(self) -> (r: usize)
        ensures
            r == self.block_bytes(),
    {
        match self {
            BlockFormat::Bc3 => 16,
            _ => 8,
        }
    }
}

/// The dimensions are multiples of 4.
pub open spec fn whole_blocks(width: int, height: int) -> bool {
    width % 4 == 0 && height % 4 == 0
}

/// The pixels of an image of whole blocks can be held in one buffer.
pub open spec fn addressable(width: int, height: int) -> bool {
    whole_blocks(width, height) ==> width * height * 4 <= usize::MAX
}

/// The bytes of all blocks of an image.
pub open spec fn blocks_len(format: BlockFormat, width: int, height: int) -> int {
    (width / 4) * (height / 4) * format.block_bytes()
}

/// What `texpresso::Format::compress` makes of an image that has pixels.
pub uninterp spec fn texpresso_blocks(
    format: BlockFormat,
    params: CompressParams,
    rgba: Seq<u8>,
    width: int,
    height: int,
) -> Seq<u8>;

/// What `texpresso::Format::decompress` makes of the blocks of an image that has pixels.
pub uninterp spec fn texpresso_pixels(
    format: BlockFormat,
    blocks: Seq<u8>,
    width: int,
    height: int,
) -> Seq<u8>;

/// Calls `texpresso::Format::compress`, which fills the space that `compressed_size` asks for:
/// so many bytes for each 4x4 block. What it writes depends on its arguments alone. Colour is
/// not weighed by alpha.
#[verifier::external_body]
fn texpresso_compress(
    format: BlockFormat,
    params: CompressParams,
    rgba: &[u8],
    width: usize,
    height: usize,
) -> (out: Vec<u8>)
    requires
        0 < width,
        0 < height,
        whole_blocks(width as int, height as int),
        rgba@.len() == width * height * 4,
        width * height * 4 <= usize::MAX,
    ensures
        out@ == texpresso_blocks(format, params, rgba@, width as int, height as int),
        out@.len() == blocks_len(format, width as int, height as int),
{
    let format = match format {
        BlockFormat::Bc1 => texpresso::Format::Bc1,
        BlockFormat::Bc3 => texpresso::Format::Bc3,
        BlockFormat::Bc4 => texpresso::Format::Bc4,
    };
    let mut settings = texpresso::Params::default();
    settings.algorithm = match params.fit {
        ColourFit::Range => texpresso::Algorithm::RangeFit, ColourFit::Cluster => texpresso::Algorithm::ClusterFit };
    settings.weights = match params.weights {
        ChannelWeights::Perceptual => texpresso::COLOUR_WEIGHTS_PERCEPTUAL, ChannelWeights::Uniform => texpresso::COLOUR_WEIGHTS_UNIFORM };
    let mut out = vec![0u8; format.compressed_size(width, height)];
    format.compress(rgba, width, height, settings, &mut out);
    out
}

/// Calls `texpresso::Format::decompress`, which fills a buffer of four bytes for each pixel.
/// What it writes depends on its arguments alone.
#[verifier::external_body]
fn texpresso_decompress(format: BlockFormat, blocks: &[u8], width: usize, height: usize) -> (out:
    Vec<u8>)
    requires
        0 < width,
        0 < height,
        whole_blocks(width as int, height as int),
        blocks@.len() == blocks_len(format, width as int, height as int),
        width * height * 4 <= usize::MAX,
    ensures
        out@ == texpresso_pixels(format, blocks@, width as int, height as int),
        out@.len() == width * height * 4,
{
    let format = match format {
        BlockFormat::Bc1 => texpresso::Format::Bc1,
        BlockFormat::Bc3 => texpresso::Format::Bc3,
        BlockFormat::Bc4 => texpresso::Format::Bc4,
    };
    let mut out = vec![0u8; width * height * 4];
    format.decompress(blocks, width, height, &mut out);
    out
}

/// The blocks of an image. An image without pixels has none.
pub open spec fn image_blocks(
    format: BlockFormat,
    params: CompressParams,
    rgba: Seq<u8>,
    width: int,
    height: int,
) -> Seq<u8> {
    if width == 0 || height == 0 {
        Seq::empty()
    } else {
        texpresso_blocks(format, params, rgba, width, height)
    }
}

/// The pixels that blocks stand for. An image without pixels needs no blocks.
pub open spec fn image_pixels(
    format: BlockFormat,
    blocks: Seq<u8>,
    width: int,
    height: int,
) -> Seq<u8> {
    if width == 0 || height == 0 {
        Seq::empty()
    } else {
        texpresso_pixels(format, blocks, width, height)
    }
}

/// The error of dimensions that are not multiples of 4.
pub open spec fn bad_dimensions(width: int, height: int) -> DxtError {
    DxtError::InvalidDimensions { width: width as usize, height: height as usize }
}

/// The error of a buffer of the wrong size.
pub open spec fn bad_size(expected: int, actual: int) -> DxtError {
    DxtError::BufferSizeMismatch { expected: expected as usize, actual: actual as usize }
}

/// What compressing an image gives.
pub open spec fn compressed(
    format: BlockFormat,
    params: CompressParams,
    rgba: Seq<u8>,
    width: int,
    height: int,
) -> Result<Seq<u8>, DxtError> {
    if !whole_blocks(width, height) {
        Err(bad_dimensions(width, height))
    } else if rgba.len() != width * height * 4 {
        Err(bad_size(width * height * 4, rgba.len() as int))
    } else {
        Ok(image_blocks(format, params, rgba, width, height))
    }
}

/// What decompressing blocks gives. Bytes after the last block are not read.
pub open spec fn decompressed(
    format: BlockFormat,
    blocks: Seq<u8>,
    width: int,
    height: int,
) -> Result<Seq<u8>, DxtError> {
    let need = blocks_len(format, width, height);
    if !whole_blocks(width, height) {
        Err(bad_dimensions(width, height))
    } else if blocks.len() < need {
        Err(bad_size(need, blocks.len() as int))
    } else {
        Ok(image_pixels(format, blocks.subrange(0, need), width, height))
    }
}

/// One channel repeated in all four.
pub open spec fn splat(channel: Seq<u8>) -> Seq<u8> {
    Seq::new(4 * channel.len(), |i: int| channel[i / 4])
}

/// The channel number `c` of four.
pub open spec fn channel_of(rgba: Seq<u8>, c: int) -> Seq<u8> {
    Seq::new(rgba.len() / 4, |i: int| rgba[4 * i + c])
}

/// What compressing one channel gives.
pub open spec fn channel_compressed(channel: Seq<u8>, width: int, height: int) -> Result<
    Seq<u8>,
    DxtError,
> {
    if !whole_blocks(width, height) {
        Err(bad_dimensions(width, height))
    } else if channel.len() != width * height {
        Err(bad_size(width * height, channel.len() as int))
    } else {
        Ok(image_blocks(BlockFormat::Bc4, default_params(), splat(channel), width, height))
    }
}

/// What decompressing the blocks of one channel gives.
pub open spec fn channel_decompressed(blocks: Seq<u8>, width: int, height: int) -> Result<
    Seq<u8>,
    DxtError,
> {
    match decompressed(BlockFormat::Bc4, blocks, width, height) {
        Err(e) => Err(e),
        Ok(rgba) => Ok(channel_of(rgba, 0)),
    }
}

/// The parameters used where none are given.
pub open spec fn default_params() -> CompressParams {
    CompressParams { fit: ColourFit::Cluster, weights: ChannelWeights::Perceptual }
}

/// The outcome is the one wanted.
pub open spec fn agrees(r: Result<Vec<u8>, DxtError>, want: Result<Seq<u8>, DxtError>) -> bool {
    match r {
        Ok(v) => want == Ok::<Seq<u8>, DxtError>(v@),
        Err(e) => want == Err::<Seq<u8>, DxtError>(e),
    }
}

pub proof fn lemma_sizes(width: int, height: int)
    requires
        0 <= width,
        0 <= height,
        whole_blocks(width, height),
    ensures
        width * height == (width / 4) * (height / 4) * 16,
        (width / 4) * (height / 4) * 8 <= width * height,
        0 <= (width / 4) * (height / 4) <= width * height <= width * height * 4,
        width == 0 || height == 0 ==> width * height == 0,
{
    let a = width / 4;
    let b = height / 4;
    assert(width * height == a * b * 16 && a * b >= 0) by (nonlinear_arith)
        requires
            width == 4 * a,
            height == 4 * b,
            a >= 0,
            b >= 0,
    ;
}

/// Compresses an image.
fn compress(
    format: BlockFormat,
    params: CompressParams,
    rgba: &[u8],
    width: usize,
    height: usize,
) -> (r: Result<Vec<u8>, DxtError>)
    requires
        addressable(width as int, height as int),
    ensures
        agrees(r, compressed(format, params, rgba@, width as int, height as int)),
        r matches Ok(v) ==> v@.len() == blocks_len(format, width as int, height as int),
{
    if width % 4 != 0 || height % 4 != 0 {
        return Err(DxtError::InvalidDimensions { width, height });
    }
    proof {
        lemma_sizes(width as int, height as int);
    }
    let expected: usize = width * height * 4;
    if rgba.len() != expected {
        return Err(DxtError::BufferSizeMismatch { expected, actual: rgba.len() });
    }
    if width == 0 || height == 0 {
        let out: Vec<u8> = Vec::new();
        assert(out@ =~= Seq::<u8>::empty());
        assert(blocks_len(format, width as int, height as int) == 0) by (nonlinear_arith)
            requires
                width == 0 || height == 0,
                blocks_len(format, width as int, height as int) == (width / 4) * (height / 4)
                    * format.block_bytes(),
        ;
        return Ok(out);
    }
    Ok(texpresso_compress(format, params, rgba, width, height))
}

/// Decompresses the blocks of an image.
fn decompress(format: BlockFormat, blocks: &[u8], width: usize, height: usize) -> (r: Result<
    Vec<u8>,
    DxtError,
>)
    requires
        addressable(width as int, height as int),
    ensures
        agrees(r, decompressed(format, blocks@, width as int, height as int)),
        r matches Ok(v) ==> v@.len() == width * height * 4,
{
    if width % 4 != 0 || height % 4 != 0 {
        return Err(DxtError::InvalidDimensions { width, height });
    }
    proof {
        lemma_sizes(width as int, height as int);
    }
    let expected: usize = (width / 4) * (height / 4) * format.block_size();
    if blocks.len() < expected {
        return Err(DxtError::BufferSizeMismatch { expected, actual: blocks.len() });
    }
    if width == 0 || height == 0 {
        let out: Vec<u8> = Vec::new();
        assert(out@ =~= Seq::<u8>::empty());
        return Ok(out);
    }
    Ok(texpresso_decompress(format, slice_subrange(blocks, 0, expected), width, height))
}

/// Compresses an RGBA8 buffer to DXT1/BC1.
pub fn compress_bc1(rgba: &[u8], width: usize, height: usize) -> (r: Result<Vec<u8>, DxtError>)
    requires
        addressable(width as int, height as int),
    ensures
        agrees(
            r,
            compressed(BlockFormat::Bc1, default_params(), rgba@, width as int, height as int),
        ),
        r matches Ok(v) ==> v@.len() == (width / 4) * (height / 4) * 8,
{
    let params = CompressParams { fit: ColourFit::Cluster, weights: ChannelWeights::Perceptual };
    compress_bc1_with_params(rgba, width, height, params)
}

/// Compresses an RGBA8 buffer to DXT1/BC1 with the given parameters.
pub fn compress_bc1_with_params(
    rgba: &[u8],
    width: usize,
    height: usize,
    params: CompressParams,
) -> (r: Result<Vec<u8>, DxtError>)
    requires
        addressable(width as int, height as int),
    ensures
        agrees(r, compressed(BlockFormat::Bc1, params, rgba@, width as int, height as int)),
        r matches Ok(v) ==> v@.len() == (width / 4) * (height / 4) * 8,
{
    compress(BlockFormat::Bc1, params, rgba, width, height)
}

/// Decompresses DXT1/BC1 to RGBA8.
pub fn decompress_bc1(bc1: &[u8], width: usize, height: usize) -> (r: Result<Vec<u8>, DxtError>)
    requires
        addressable(width as int, height as int),
    ensures
        agrees(r, decompressed(BlockFormat::Bc1, bc1@, width as int, height as int)),
        r matches Ok(v) ==> v@.len() == width * height * 4,
{
    decompress(BlockFormat::Bc1, bc1, width, height)
}

/// Compresses an RGBA8 buffer to DXT5/BC3.
pub fn compress_bc3(rgba: &[u8], width: usize, height: usize) -> (r: Result<Vec<u8>, DxtError>)
    requires
        addressable(width as int, height as int),
    ensures
        agrees(
            r,
            compressed(BlockFormat::Bc3, default_params(), rgba@, width as int, height as int),
        ),
        r matches Ok(v) ==> v@.len() == (width / 4) * (height / 4) * 16,
{
    let params = CompressParams { fit: ColourFit::Cluster, weights: ChannelWeights::Perceptual };
    compress_bc3_with_params(rgba, width, height, params)
}

/// Compresses an RGBA8 buffer to DXT5/BC3 with the given parameters.
pub fn compress_bc3_with_params(
    rgba: &[u8],
    width: usize,
    height: usize,
    params: CompressParams,
) -> (r: Result<Vec<u8>, DxtError>)
    requires
        addressable(width as int, height as int),
    ensures
        agrees(r, compressed(BlockFormat::Bc3, params, rgba@, width as int, height as int)),
        r matches Ok(v) ==> v@.len() == (width / 4) * (height / 4) * 16,
{
    compress(BlockFormat::Bc3, params, rgba, width, height)
}

/// Decompresses DXT5/BC3 to RGBA8.
pub fn decompress_bc3(bc3: &[u8], width: usize, height: usize) -> (r: Result<Vec<u8>, DxtError>)
    requires
        addressable(width as int, height as int),
    ensures
        agrees(r, decompressed(BlockFormat::Bc3, bc3@, width as int, height as int)),
        r matches Ok(v) ==> v@.len() == width * height * 4,
{
    decompress(BlockFormat::Bc3, bc3, width, height)
}

/// Compresses an 8-bit channel to BC4/RGTC1.
pub fn compress_bc4(alpha: &[u8], width: usize, height: usize) -> (r: Result<Vec<u8>, DxtError>)
    requires
        addressable(width as int, height as int),
    ensures
        agrees(r, channel_compressed(alpha@, width as int, height as int)),
        r matches Ok(v) ==> v@.len() == (width / 4) * (height / 4) * 8,
{
    if width % 4 != 0 || height % 4 != 0 {
        return Err(DxtError::InvalidDimensions { width, height });
    }
    proof {
        lemma_sizes(width as int, height as int);
    }
    let expected: usize = width * height;
    if alpha.len() != expected {
        return Err(DxtError::BufferSizeMismatch { expected, actual: alpha.len() });
    }
    let mut rgba: Vec<u8> = Vec::new();
    let mut i: usize = 0;
    while i < expected
        invariant
            i <= expected,
            expected == alpha@.len(),
            rgba@.len() == 4 * i,
            forall|k: int| 0 <= k < rgba@.len() ==> #[trigger] rgba@[k] == alpha@[k / 4],
        decreases expected - i,
    {
        let a: u8 = alpha[i];
        rgba.push(a);
        rgba.push(a);
        rgba.push(a);
        rgba.push(a);
        i = i + 1;
    }
    assert(rgba@ =~= splat(alpha@));
    let params = CompressParams { fit: ColourFit::Cluster, weights: ChannelWeights::Perceptual };
    compress(BlockFormat::Bc4, params, rgba.as_slice(), width, height)
}

/// Decompresses BC4/RGTC1 to an 8-bit channel.
pub fn decompress_bc4(bc4: &[u8], width: usize, height: usize) -> (r: Result<Vec<u8>, DxtError>)
    requires
        addressable(width as int, height as int),
    ensures
        agrees(r, channel_decompressed(bc4@, width as int, height as int)),
        r matches Ok(v) ==> v@.len() == width * height,
{
    let rgba = match decompress(BlockFormat::Bc4, bc4, width, height) {
        Ok(v) => v,
        Err(e) => return Err(e),
    };
    let out: Vec<u8> = take_channel(rgba.as_slice(), 0);
    Ok(out)
}

/// The channel number `c` of an RGBA8 buffer.
pub fn take_channel(rgba: &[u8], c: usize) -> (out: Vec<u8>)
    requires
        c < 4,
    ensures
        out@ == channel_of(rgba@, c as int),
{
    let count: usize = rgba.len() / 4;
    let mut out: Vec<u8> = Vec::new();
    let mut i: usize = 0;
    while i < count
        invariant
            i <= count,
            c < 4,
            count == rgba@.len() / 4,
            rgba@.len() <= usize::MAX,
            out@ == channel_of(rgba@, c as int).subrange(0, i as int),
        decreases count - i,
    {
        out.push(rgba[4 * i + c]);
        i = i + 1;
        assert(channel_of(rgba@, c as int).subrange(0, i as int) =~= channel_of(
            rgba@,
            c as int,
        ).subrange(0, i - 1).push(rgba@[4 * (i - 1) + c]));
    }
    assert(channel_of(rgba@, c as int).subrange(0, i as int) =~= channel_of(rgba@, c as int));
    out
}

/// When blocks are made and read, and when not: dimensions that are not multiples of 4 come first,
/// then a buffer of another size than four bytes for each pixel, or one for a single channel. Blocks
/// to be read may be followed by other bytes, which do not count. BC1 and BC4 have 8 bytes for each
/// block of 4x4 pixels, BC3 has 16.
pub proof fn law_outcomes(
    format: BlockFormat,
    params: CompressParams,
    bytes: Seq<u8>,
    tail: Seq<u8>,
    width: int,
    height: int,
)
    requires
        0 < width,
        0 < height,
    ensures
        ({
            let whole = width % 4 == 0 && height % 4 == 0;
            let count = (width / 4) * (height / 4);
            let need = if format == BlockFormat::Bc3 {
                16 * count
            } else {
                8 * count
            };
            let made = compressed(format, params, bytes, width, height);
            let matte = channel_compressed(bytes, width, height);
            let read = decompressed(format, bytes, width, height);
            &&& !whole ==> made == Err::<Seq<u8>, DxtError>(bad_dimensions(width, height))
            &&& !whole ==> matte == Err::<Seq<u8>, DxtError>(bad_dimensions(width, height))
            &&& !whole ==> read == Err::<Seq<u8>, DxtError>(bad_dimensions(width, height))
            &&& whole && bytes.len() != width * height * 4 ==> made == Err::<Seq<u8>, DxtError>(
                bad_size(width * height * 4, bytes.len() as int),
            )
            &&& whole && bytes.len() != width * height ==> matte == Err::<Seq<u8>, DxtError>(
                bad_size(width * height, bytes.len() as int),
            )
            &&& whole && bytes.len() < need ==> read == Err::<Seq<u8>, DxtError>(
                bad_size(need, bytes.len() as int),
            )
            &&& whole && bytes.len() == width * height * 4 ==> made == Ok::<Seq<u8>, DxtError>(
                texpresso_blocks(format, params, bytes, width, height),
            )
            &&& whole && bytes.len() == width * height ==> matte is Ok
            &&& whole && bytes.len() == need ==> read == Ok::<Seq<u8>, DxtError>(
                texpresso_pixels(format, bytes, width, height),
            ) && decompressed(format, bytes + tail, width, height) == read
        }),
{
    let count = (width / 4) * (height / 4);
    assert(count >= 0) by (nonlinear_arith)
        requires
            count == (width / 4) * (height / 4),
            0 < width,
            0 < height,
    ;
    let need = blocks_len(format, width, height);
    if width % 4 == 0 && height % 4 == 0 && bytes.len() == need {
        assert((bytes + tail).subrange(0, need) =~= bytes);
        assert(bytes.subrange(0, need) =~= bytes);
    }
}

/// A single channel is compressed as a picture that has it in all four channels, and read back from
/// the first channel of the pixels.
pub proof fn law_single_channel(channel: Seq<u8>, i: int, c: int)
    requires
        0 <= i < channel.len(),
        0 <= c < 4,
    ensures
        splat(channel).len() == 4 * channel.len(),
        splat(channel)[4 * i + c] == channel[i],
        channel_of(splat(channel), c) == channel,
{
    assert(channel_of(splat(channel), c) =~= channel);
}

/// A channel takes every fourth byte, from its own number on.
pub proof fn law_channels(rgba: Seq<u8>, i: int, c: int)
    requires
        0 <= c < 4,
        0 <= i,
        4 * i + 4 <= rgba.len(),
    ensures
        channel_of(rgba, c)[i] == rgba[4 * i + c],
        4 * channel_of(rgba, c).len() + rgba.len() % 4 == rgba.len(),
{
}

} // verus!
