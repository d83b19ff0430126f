//! Encoding of whole frames.

use crate::bc7::{compress_bc7_with_refinement, Bc7Error};
use crate::bytes::{push_all, push_zeros};
use crate::color::{
    preprocess_rgba, AlphaMode, ColorRange, DitherMode, EncodeOptions, QualityPreset,
};
use crate::decoder::{DecodeFault, Framed, Texture};
use crate::dxt::{
    compress_bc1_with_params, compress_bc3_with_params, compress_bc4, take_channel, BlockFormat,
    ChannelWeights, ColourFit, CompressParams, DxtError,
};
use crate::format::HapFormat;
use crate::header::{ChunkInfo, DecodeInstructions, SectionHeader};
use crate::snappy::{compress_chunks_parallel, compress_snappy, SnappyError, SnappyFault};
use crate::ycocg::rgba_to_scaled_ycocg_dxt5_input_with_dither;
use std::borrow::Cow;
use vstd::prelude::*;

verus! {

/// Errors of encoding a frame.
#[derive(Debug)]
pub enum EncodeError {
    /// The DXT encoder refused the image.
    Dxt(DxtError),
    /// The BC7 encoder refused the image.
    Bc7(Bc7Error),
    /// The texture is too large to be compressed.
    Snappy(SnappyError),
    /// The dimensions are not multiples of 4.
    InvalidDimensions { width: usize, height: usize },
    /// The buffer does not fit the dimensions.
    BufferSizeMismatch { expected: usize, actual: usize },
    /// There is no encoder for the format.
    UnsupportedFormat(HapFormat),
}

/// An encode error without the codec's own report.
pub enum EncodeFault {
    Dxt(DxtError),
    Bc7(Bc7Error),
    Snappy(SnappyFault),
    InvalidDimensions { width: int, height: int },
    BufferSizeMismatch { expected: int, actual: int },
    UnsupportedFormat(HapFormat),
}

impl View for EncodeError {
    type V = EncodeFault;

    open spec fn view(&self) -> EncodeFault {
        match *self {
            EncodeError::Dxt(e) => EncodeFault::Dxt(e),
            EncodeError::Bc7(e) => EncodeFault::Bc7(e),
            EncodeError::Snappy(e) => EncodeFault::Snappy(e@),
            EncodeError::InvalidDimensions { width, height } => EncodeFault::InvalidDimensions {
                width: width as int,
                height: height as int,
            },
            EncodeError::BufferSizeMismatch { expected, actual } => {
                EncodeFault::BufferSizeMismatch { expected: expected as int, actual: actual as int }
            },
            EncodeError::UnsupportedFormat(f) => EncodeFault::UnsupportedFormat(f),
        }
    }
}

// ---------------------------------------------------------------------------------------------
// Packing.
// ---------------------------------------------------------------------------------------------

/// The compressor that the section type of a frame names.
pub open spec fn frame_compressor(chunk_count: int, use_snappy: bool) -> int {
    if chunk_count > 1 {
        0xC
    } else if use_snappy {
        0xB
    } else {
        0xA
    }
}

/// The payload of a frame with one texture: the texture as it is, or compressed, or cut into
/// chunks behind their table.
pub open spec fn frame_payload(texture: Seq<u8>, chunk_count: int, use_snappy: bool) -> Seq<u8> {
    if chunk_count > 1 {
        let chunks = crate::snappy::stored_chunks(texture, chunk_count, use_snappy);
        let table = crate::snappy::chunk_table(chunks, use_snappy);
        crate::header::section(0x01, crate::header::instruction_bytes(table))
            + crate::snappy::joined(chunks)
    } else {
        crate::snappy::stored(texture, use_snappy)
    }
}

/// A frame with one texture.
pub open spec fn frame_of(
    texture: Seq<u8>,
    format: HapFormat,
    chunk_count: int,
    use_snappy: bool,
) -> Seq<u8> {
    crate::header::section(
        format.type_byte(frame_compressor(chunk_count, use_snappy)) as u8,
        frame_payload(texture, chunk_count, use_snappy),
    )
}

/// The texture is not too large to be compressed.
pub open spec fn packable(len: int, chunk_count: int, use_snappy: bool) -> bool {
    if chunk_count > 1 {
        crate::snappy::storable(len, chunk_count, use_snappy)
    } else {
        use_snappy ==> crate::snappy::compressed_limit(len) <= u32::MAX
    }
}

/// The most bytes that the payload of a frame with one texture of `len` bytes can take.
pub open spec fn payload_limit(len: int, chunk_count: int, use_snappy: bool) -> int {
    if chunk_count > 1 {
        let count = crate::snappy::piece_count(len, chunk_count);
        32 + 9 * count + crate::snappy::stored_limit(len, count, use_snappy)
    } else {
        crate::snappy::stored_limit(len, 1, use_snappy)
    }
}

/// The section at the start of `frame` unpacks to the texture, whatever follows it.
pub open spec fn unpacks_to(frame: Seq<u8>, texture: Seq<u8>) -> bool {
    forall|rest: Seq<u8>|
        #[trigger] crate::decoder::unpacked_section(frame + rest) == Ok::<
            (Seq<u8>, Seq<u8>),
            DecodeFault,
        >((texture, rest))
}

/// A section is found at the start of a buffer that it begins.
pub proof fn lemma_framed(section_type: u8, data: Seq<u8>, rest: Seq<u8>)
    requires
        data.len() <= u32::MAX,
    ensures
        crate::decoder::framed(crate::header::section(section_type, data) + rest) == Ok::<
            Framed,
            DecodeFault,
        >(Framed { section_type, data, rest }),
{
    let p = crate::header::section(section_type, data) + rest;
    assert(p.subrange(0, p.len() as int) =~= p);
    crate::header::lemma_section_at(p, 0, section_type, data, rest);
}

/// The decode instructions of a chunked payload are read back as the table of its chunks.
pub proof fn lemma_table_read(texture: Seq<u8>, chunk_count: int, use_snappy: bool)
    requires
        chunk_count > 1,
        frame_payload(texture, chunk_count, use_snappy).len() <= u32::MAX,
    ensures
        ({
            let chunks = crate::snappy::stored_chunks(texture, chunk_count, use_snappy);
            let table = crate::snappy::chunk_table(chunks, use_snappy);
            &&& crate::header::instruction_bytes(table).len() <= u32::MAX
            &&& crate::header::instructions_of(crate::header::instruction_bytes(table)) == Ok::<
                Seq<ChunkInfo>,
                crate::header::HeaderFault,
            >(table)
        }),
{
    let chunks = crate::snappy::stored_chunks(texture, chunk_count, use_snappy);
    let table = crate::snappy::chunk_table(chunks, use_snappy);
    lemma_table_len(table);
    assert forall|i: int| 0 <= i < table.len() implies (#[trigger] table[i]).size <= u32::MAX
        && table[i].offset <= u32::MAX by {
        crate::snappy::lemma_joined(chunks, i);
    }
    crate::header::law_instructions_round_trip(table);
}

/// A chunked payload is read back by its table.
proof fn lemma_chunked(texture: Seq<u8>, chunk_count: int, use_snappy: bool)
    requires
        chunk_count > 1,
        frame_payload(texture, chunk_count, use_snappy).len() <= u32::MAX,
        ({
            let chunks = crate::snappy::stored_chunks(texture, chunk_count, use_snappy);
            crate::snappy::chunks_content(
                crate::snappy::joined(chunks),
                crate::snappy::chunk_table(chunks, use_snappy),
            ) == Ok::<Seq<u8>, SnappyFault>(texture)
        }),
    ensures
        crate::decoder::chunked_content(frame_payload(texture, chunk_count, use_snappy)) == Ok::<
            Seq<u8>,
            DecodeFault,
        >(texture),
{
    let chunks = crate::snappy::stored_chunks(texture, chunk_count, use_snappy);
    let table = crate::snappy::chunk_table(chunks, use_snappy);
    lemma_table_read(texture, chunk_count, use_snappy);
    lemma_framed(
        0x01,
        crate::header::instruction_bytes(table),
        crate::snappy::joined(chunks),
    );
}

/// The tables of sizes and offsets have four bytes for each chunk.
proof fn lemma_table_len(table: Seq<ChunkInfo>)
    ensures
        crate::header::size_bytes(table).len() == 4 * table.len(),
        crate::header::offset_bytes(table).len() == 4 * table.len(),
        4 * table.len() <= crate::header::instruction_bytes(table).len() <= 24 + 9 * table.len(),
    decreases table.len(),
{
    if table.len() > 0 {
        lemma_table_len(table.drop_last());
    }
}

/// A chunked payload whose chunks keep to their limit keeps to its own.
proof fn lemma_payload_len(texture: Seq<u8>, chunk_count: int, use_snappy: bool)
    requires
        chunk_count > 1,
        crate::snappy::joined(
            crate::snappy::stored_chunks(texture, chunk_count, use_snappy),
        ).len() <= crate::snappy::stored_limit(
            texture.len() as int,
            crate::snappy::piece_count(texture.len() as int, chunk_count),
            use_snappy,
        ),
    ensures
        frame_payload(texture, chunk_count, use_snappy).len() <= payload_limit(
            texture.len() as int,
            chunk_count,
            use_snappy,
        ),
{
    let chunks = crate::snappy::stored_chunks(texture, chunk_count, use_snappy);
    lemma_table_len(crate::snappy::chunk_table(chunks, use_snappy));
}

/// A payload that unpacks to a texture makes a frame that does.
proof fn lemma_unpacks(section_type: u8, payload: Seq<u8>, texture: Seq<u8>)
    requires
        payload.len() <= u32::MAX,
        crate::decoder::unpacked(section_type, payload) == Ok::<Seq<u8>, DecodeFault>(texture),
    ensures
        unpacks_to(crate::header::section(section_type, payload), texture),
{
    assert forall|rest: Seq<u8>| #[trigger]
        crate::decoder::unpacked_section(crate::header::section(section_type, payload) + rest)
            == Ok::<(Seq<u8>, Seq<u8>), DecodeFault>((texture, rest)) by {
        lemma_framed(section_type, payload, rest);
    }
}

/// Makes the payload of a chunked frame: the table of the chunks, and the chunks.
fn pack_chunks(texture_bytes: &[u8], chunk_count: usize, use_snappy: bool) -> (r: Result<
    Vec<u8>,
    EncodeError,
>)
    requires
        chunk_count > 1,
    ensures
        r is Ok <==> packable(texture_bytes@.len() as int, chunk_count as int, use_snappy),
        match r {
            Ok(v) => {
                &&& v@ == frame_payload(texture_bytes@, chunk_count as int, use_snappy)
                &&& v@.len() <= payload_limit(
                    texture_bytes@.len() as int,
                    chunk_count as int,
                    use_snappy,
                )
                &&& v@.len() <= u32::MAX ==> crate::decoder::chunked_content(v@) == Ok::<
                    Seq<u8>,
                    DecodeFault,
                >(texture_bytes@)
            },
            Err(e) => e@ == EncodeFault::Snappy(SnappyFault::Codec),
        },
{
    let (chunks, table) = match compress_chunks_parallel(texture_bytes, chunk_count, use_snappy) {
        Ok(c) => c,
        Err(e) => return Err(EncodeError::Snappy(e)),
    };
    let instructions = DecodeInstructions::build(table.as_slice());
    let mut body: Vec<u8> = Vec::new();
    SectionHeader::write_header(0x01, instructions.len(), &mut body);
    push_all(&mut body, instructions.as_slice());
    let ghost front = body@;
    push_chunks(&mut body, &chunks);
    assert(front =~= crate::header::section(0x01, instructions@));
    assert(body@ == frame_payload(texture_bytes@, chunk_count as int, use_snappy));
    proof {
        lemma_payload_len(texture_bytes@, chunk_count as int, use_snappy);
        if body@.len() <= u32::MAX {
            lemma_chunked(texture_bytes@, chunk_count as int, use_snappy);
        }
    }
    Ok(body)
}

/// Packs a texture to a frame, compressed and cut into chunks as asked.
///
/// The texture comes out of the frame again, if the payload has a size that a header can hold.
pub fn pack_single_texture_frame(
    texture_bytes: &[u8],
    format: HapFormat,
    chunk_count: usize,
    use_snappy: bool,
) -> (r: Result<Vec<u8>, EncodeError>)
    ensures
        r is Ok <==> packable(texture_bytes@.len() as int, chunk_count as int, use_snappy),
        match r {
            Ok(v) => {
                &&& v@ == frame_of(texture_bytes@, format, chunk_count as int, use_snappy)
                &&& frame_payload(texture_bytes@, chunk_count as int, use_snappy).len()
                    <= payload_limit(texture_bytes@.len() as int, chunk_count as int, use_snappy)
                &&& format != HapFormat::HapM && frame_payload(
                    texture_bytes@,
                    chunk_count as int,
                    use_snappy,
                ).len() <= u32::MAX ==> unpacks_to(v@, texture_bytes@)
            },
            Err(e) => e@ == EncodeFault::Snappy(SnappyFault::Codec),
        },
{
    let ghost payload = frame_payload(texture_bytes@, chunk_count as int, use_snappy);
    let mut out: Vec<u8> = Vec::new();
    if chunk_count > 1 {
        let body = match pack_chunks(texture_bytes, chunk_count, use_snappy) {
            Ok(v) => v,
            Err(e) => return Err(e),
        };
        SectionHeader::write_header(format.chunked_type_byte(), body.len(), &mut out);
        push_all(&mut out, body.as_slice());
        proof {
            if payload.len() <= u32::MAX && format != HapFormat::HapM {
                lemma_unpacks(format.type_byte(0xC) as u8, payload, texture_bytes@);
            }
        }
    } else if use_snappy {
        let body = match compress_snappy(texture_bytes) {
            Ok(v) => v,
            Err(e) => return Err(EncodeError::Snappy(e)),
        };
        SectionHeader::write_header(format.snappy_type_byte(), body.len(), &mut out);
        push_all(&mut out, body.as_slice());
        proof {
            if payload.len() <= u32::MAX && format != HapFormat::HapM {
                lemma_unpacks(format.type_byte(0xB) as u8, payload, texture_bytes@);
            }
        }
    } else {
        SectionHeader::write_header(
            format.uncompressed_type_byte(),
            texture_bytes.len(),
            &mut out,
        );
        push_all(&mut out, texture_bytes);
        proof {
            assert(texture_bytes@.len() == texture_bytes.len());
            if payload.len() <= u32::MAX && format != HapFormat::HapM {
                lemma_unpacks(format.type_byte(0xA) as u8, payload, texture_bytes@);
            }
        }
    }
    Ok(out)
}

/// Appends chunks one after the other.
fn push_chunks(out: &mut Vec<u8>, chunks: &Vec<Vec<u8>>)
    ensures
        final(out)@ == old(out)@ + crate::snappy::joined(crate::snappy::contents(chunks@)),
{
    let mut i: usize = 0;
    let ghost all = crate::snappy::contents(chunks@);
    assert(all.subrange(0, 0) =~= Seq::<Seq<u8>>::empty());
    assert(out@ =~= old(out)@ + crate::snappy::joined(all.subrange(0, 0)));
    while i < chunks.len()
        invariant
            i <= chunks@.len(),
            all == crate::snappy::contents(chunks@),
            out@ == old(out)@ + crate::snappy::joined(all.subrange(0, i as int)),
        decreases chunks@.len() - i,
    {
        push_all(out, chunks[i].as_slice());
        i = i + 1;
        assert(all.subrange(0, i as int).drop_last() =~= all.subrange(0, i - 1));
        assert(out@ =~= old(out)@ + crate::snappy::joined(all.subrange(0, i as int)));
    }
    assert(all.subrange(0, i as int) =~= all);
}

// ---------------------------------------------------------------------------------------------
// Encoding.
// ---------------------------------------------------------------------------------------------

/// The compression parameters of a quality.
pub open spec fn params_for(quality: QualityPreset, weights: ChannelWeights) -> CompressParams {
    CompressParams {
        fit: match quality {
            QualityPreset::Draft => ColourFit::Range,
            QualityPreset::Production => ColourFit::Cluster,
        },
        weights,
    }
}

/// The BC7 refinement rounds of a quality.
pub open spec fn rounds_for(quality: QualityPreset) -> int {
    match quality {
        QualityPreset::Draft => 1,
        QualityPreset::Production => 2,
    }
}

/// The blocks of a Hap Q texture. The channels of its layout count alike.
pub open spec fn hap_q_blocks(src: Seq<u8>, width: int, height: int, o: EncodeOptions) -> Seq<u8> {
    crate::dxt::image_blocks(
        BlockFormat::Bc3,
        params_for(o.quality, ChannelWeights::Uniform),
        crate::ycocg::scaled_image(
            src,
            width,
            o.dither_mode == DitherMode::Bayer4x4,
            crate::bytes::zeros(src.len() as int),
        ),
        width,
        height,
    )
}

/// The blocks of the alpha channel.
pub open spec fn alpha_blocks(src: Seq<u8>, width: int, height: int) -> Seq<u8> {
    crate::dxt::image_blocks(
        BlockFormat::Bc4,
        crate::dxt::default_params(),
        crate::dxt::splat(crate::dxt::channel_of(src, 3)),
        width,
        height,
    )
}

/// The texture of an image whose colours are prepared. There is none in the HDR format.
pub open spec fn texture_for(src: Seq<u8>, width: int, height: int, o: EncodeOptions) -> Texture {
    Texture {
        format: o.format,
        blocks: match o.format {
            HapFormat::Hap1 => crate::dxt::image_blocks(
                BlockFormat::Bc1,
                params_for(o.quality, ChannelWeights::Perceptual),
                src,
                width,
                height,
            ),
            HapFormat::Hap5 => crate::dxt::image_blocks(
                BlockFormat::Bc3,
                params_for(o.quality, ChannelWeights::Perceptual),
                src,
                width,
                height,
            ),
            HapFormat::HapY | HapFormat::HapM => hap_q_blocks(src, width, height, o),
            HapFormat::HapA => alpha_blocks(src, width, height),
            HapFormat::Hap7 => crate::bc7::encoded_image(
                src,
                width,
                height,
                rounds_for(o.quality),
            ),
            HapFormat::HapH => Seq::empty(),
        },
        alpha: if o.format == HapFormat::HapM {
            Some(alpha_blocks(src, width, height))
        } else {
            None
        },
    }
}

/// The texture of an image: colours are prepared first.
pub open spec fn image_texture(
    rgba: Seq<u8>,
    width: int,
    height: int,
    o: EncodeOptions,
) -> Texture {
    texture_for(crate::color::processed(rgba, o.color_range, o.alpha_mode), width, height, o)
}

/// The payload of the frame of a texture. Hap Q Alpha has two frames in it, colour then alpha.
pub open spec fn texture_payload(t: Texture, chunk_count: int, use_snappy: bool) -> Seq<u8> {
    match t.alpha {
        None => frame_payload(t.blocks, chunk_count, use_snappy),
        Some(alpha) => frame_of(t.blocks, HapFormat::HapY, chunk_count, use_snappy) + frame_of(
            alpha,
            HapFormat::HapA,
            chunk_count,
            use_snappy,
        ),
    }
}

/// The frame of a texture.
pub open spec fn texture_frame(t: Texture, chunk_count: int, use_snappy: bool) -> Seq<u8> {
    crate::header::section(
        t.format.type_byte(frame_compressor(chunk_count, use_snappy)) as u8,
        texture_payload(t, chunk_count, use_snappy),
    )
}

/// The texture is not too large to be compressed.
pub open spec fn texture_packable(t: Texture, chunk_count: int, use_snappy: bool) -> bool {
    &&& packable(t.blocks.len() as int, chunk_count, use_snappy)
    &&& t.alpha matches Some(alpha) ==> packable(alpha.len() as int, chunk_count, use_snappy)
}

/// What encoding an image gives.
pub open spec fn encoded(rgba: Seq<u8>, width: int, height: int, o: EncodeOptions) -> Result<
    Seq<u8>,
    EncodeFault,
> {
    let t = image_texture(rgba, width, height, o);
    if !crate::dxt::whole_blocks(width, height) {
        Err(EncodeFault::InvalidDimensions { width, height })
    } else if rgba.len() != width * height * 4 {
        Err(
            EncodeFault::BufferSizeMismatch {
                expected: width * height * 4,
                actual: rgba.len() as int,
            },
        )
    } else if o.format == HapFormat::HapH {
        Err(EncodeFault::UnsupportedFormat(HapFormat::HapH))
    } else if !texture_packable(t, o.chunk_count as int, o.use_snappy) {
        Err(EncodeFault::Snappy(SnappyFault::Codec))
    } else {
        Ok(texture_frame(t, o.chunk_count as int, o.use_snappy))
    }
}

/// The pixels that a texture stands for.
pub open spec fn texture_pixels(t: Texture, width: int, height: int) -> Result<
    Seq<u8>,
    DecodeFault,
> {
    match t.alpha {
        None => crate::decoder::pixels_of(t.format.texture_nibble(), t.blocks, width, height),
        Some(alpha) => crate::decoder::pair_pixels(t.blocks, alpha, width, height),
    }
}

/// A packet that a decoder reads as the texture, and as the pixels that the texture stands for.
pub open spec fn decodes_to(packet: Seq<u8>, t: Texture, width: int, height: int) -> bool {
    &&& crate::decoder::texture_of(packet) == Ok::<Texture, DecodeFault>(t)
    &&& crate::decoder::rgba_of(packet, width, height) == texture_pixels(t, width, height)
}

/// The image is one that can be encoded, unless its texture is too large to be compressed.
pub open spec fn can_encode(rgba: Seq<u8>, width: int, height: int, format: HapFormat) -> bool {
    &&& crate::dxt::whole_blocks(width, height)
    &&& rgba.len() == width * height * 4
    &&& format != HapFormat::HapH
}

/// The texture has the blocks of an image of these dimensions, and no more bytes.
pub open spec fn has_blocks(t: Texture, width: int, height: int) -> bool {
    let count = (width / 4) * (height / 4);
    match t.alpha {
        None => t.format != HapFormat::HapM && t.blocks.len() == count * t.format.block_bytes(),
        Some(alpha) => {
            &&& t.format == HapFormat::HapM
            &&& t.blocks.len() == count * 16
            &&& alpha.len() == count * 8
        },
    }
}

/// The most bytes that the payload of the frame of an image can take.
pub open spec fn image_payload_limit(
    width: int,
    height: int,
    format: HapFormat,
    chunk_count: int,
    use_snappy: bool,
) -> int {
    let count = (width / 4) * (height / 4);
    if format == HapFormat::HapM {
        16 + payload_limit(count * 16, chunk_count, use_snappy) + payload_limit(
            count * 8,
            chunk_count,
            use_snappy,
        )
    } else {
        payload_limit(count * format.block_bytes(), chunk_count, use_snappy)
    }
}

/// The outcome is the one wanted.
pub open spec fn agrees(
    r: Result<Vec<u8>, EncodeError>,
    want: Result<Seq<u8>, EncodeFault>,
) -> bool {
    match r {
        Ok(v) => want == Ok::<Seq<u8>, EncodeFault>(v@),
        Err(e) => want == Err::<Seq<u8>, EncodeFault>(e@),
    }
}

/// The bytes of a buffer that is borrowed or owned.
fn cow_slice<'a>(c: &'a Cow<'_, [u8]>) -> (r: &'a [u8])
    ensures
        r@ == crate::color::cow_bytes(*c),
{
    match c {
        Cow::Borrowed(b) => b,
        Cow::Owned(v) => v.as_slice(),
    }
}

/// The compression parameters of a quality.
fn choose_params(quality: QualityPreset, weights: ChannelWeights) -> (p: CompressParams)
    ensures
        p == params_for(quality, weights),
{
    let fit = match quality {
        QualityPreset::Draft => ColourFit::Range,
        QualityPreset::Production => ColourFit::Cluster,
    };
    CompressParams { fit, weights }
}

/// Compresses an image to a Hap Q texture.
fn compress_hap_q(src: &[u8], width: usize, height: usize, options: &EncodeOptions) -> (r: Result<
    Vec<u8>,
    EncodeError,
>)
    requires
        crate::dxt::addressable(width as int, height as int),
        crate::dxt::whole_blocks(width as int, height as int),
        src@.len() == width * height * 4,
    ensures
        r matches Ok(v) && v@ == hap_q_blocks(src@, width as int, height as int, *options)
            && v@.len() == (width / 4) * (height / 4) * 16,
{
    let mut scaled: Vec<u8> = Vec::new();
    push_zeros(&mut scaled, src.len());
    assert(scaled@ =~= crate::bytes::zeros(src@.len() as int));
    let dither: bool = options.dither_mode == DitherMode::Bayer4x4;
    rgba_to_scaled_ycocg_dxt5_input_with_dither(
        src,
        width,
        height,
        scaled.as_mut_slice(),
        dither,
    );
    let params = choose_params(options.quality, ChannelWeights::Uniform);
    match compress_bc3_with_params(scaled.as_slice(), width, height, params) {
        Ok(v) => Ok(v),
        Err(e) => Err(EncodeError::Dxt(e)),
    }
}

/// Compresses the alpha channel of an image.
fn compress_alpha(src: &[u8], width: usize, height: usize) -> (r: Result<Vec<u8>, EncodeError>)
    requires
        crate::dxt::addressable(width as int, height as int),
        crate::dxt::whole_blocks(width as int, height as int),
        src@.len() == width * height * 4,
    ensures
        r matches Ok(v) && v@ == alpha_blocks(src@, width as int, height as int) && v@.len()
            == (width / 4) * (height / 4) * 8,
{
    let alpha = take_channel(src, 3);
    match compress_bc4(alpha.as_slice(), width, height) {
        Ok(v) => Ok(v),
        Err(e) => Err(EncodeError::Dxt(e)),
    }
}

/// Compresses an image of prepared colours to the (colour) texture of its format.
fn compress_texture(src: &[u8], width: usize, height: usize, options: &EncodeOptions) -> (r: Result<
    Vec<u8>,
    EncodeError,
>)
    requires
        crate::dxt::addressable(width as int, height as int),
        crate::dxt::whole_blocks(width as int, height as int),
        src@.len() == width * height * 4,
    ensures
        match r {
            Ok(v) => {
                &&& options.format != HapFormat::HapH
                &&& v@ == texture_for(src@, width as int, height as int, *options).blocks
                &&& v@.len() == (width / 4) * (height / 4) * if options.format == HapFormat::HapM {
                    16
                } else {
                    options.format.block_bytes()
                }
            },
            Err(e) => options.format == HapFormat::HapH && e@ == EncodeFault::UnsupportedFormat(
                HapFormat::HapH,
            ),
        },
{
    match options.format {
        HapFormat::Hap1 => {
            let params = choose_params(options.quality, ChannelWeights::Perceptual);
            match compress_bc1_with_params(src, width, height, params) {
                Ok(v) => Ok(v),
                Err(e) => Err(EncodeError::Dxt(e)),
            }
        },
        HapFormat::Hap5 => {
            let params = choose_params(options.quality, ChannelWeights::Perceptual);
            match compress_bc3_with_params(src, width, height, params) {
                Ok(v) => Ok(v),
                Err(e) => Err(EncodeError::Dxt(e)),
            }
        },
        HapFormat::HapY | HapFormat::HapM => compress_hap_q(src, width, height, options),
        HapFormat::HapA => compress_alpha(src, width, height),
        HapFormat::Hap7 => {
            let rounds: u32 = match options.quality {
                QualityPreset::Draft => 1,
                QualityPreset::Production => 2,
            };
            match compress_bc7_with_refinement(src, width, height, rounds) {
                Ok(v) => Ok(v),
                Err(e) => Err(EncodeError::Bc7(e)),
            }
        },
        HapFormat::HapH => Err(EncodeError::UnsupportedFormat(HapFormat::HapH)),
    }
}

/// A frame with one texture decodes to it.
proof fn lemma_single_decodes(
    t: Texture,
    chunk_count: int,
    use_snappy: bool,
    width: int,
    height: int,
)
    requires
        t.format != HapFormat::HapM,
        t.alpha is None,
        texture_payload(t, chunk_count, use_snappy).len() <= u32::MAX,
        unpacks_to(frame_of(t.blocks, t.format, chunk_count, use_snappy), t.blocks),
        crate::dxt::whole_blocks(width, height),
    ensures
        decodes_to(texture_frame(t, chunk_count, use_snappy), t, width, height),
{
    let frame = texture_frame(t, chunk_count, use_snappy);
    let none = Seq::<u8>::empty();
    let section_type = t.format.type_byte(frame_compressor(chunk_count, use_snappy)) as u8;
    assert(frame + none =~= frame);
    lemma_framed(section_type, texture_payload(t, chunk_count, use_snappy), none);
    assert(crate::decoder::unpacked_section(frame + none) == Ok::<
        (Seq<u8>, Seq<u8>),
        DecodeFault,
    >((t.blocks, none)));
    assert(section_type as int % 16 == t.format.texture_nibble());
}

/// Two frames, one after the other, unpack to their textures.
proof fn lemma_pair_unpacks(
    colour: Seq<u8>,
    alpha: Seq<u8>,
    colour_texture: Seq<u8>,
    alpha_texture: Seq<u8>,
)
    requires
        unpacks_to(colour, colour_texture),
        unpacks_to(alpha, alpha_texture),
    ensures
        crate::decoder::unpacked_pair(colour + alpha) == Ok::<(Seq<u8>, Seq<u8>), DecodeFault>(
            (colour_texture, alpha_texture),
        ),
{
    let none = Seq::<u8>::empty();
    assert(crate::decoder::unpacked_section(colour + alpha) == Ok::<
        (Seq<u8>, Seq<u8>),
        DecodeFault,
    >((colour_texture, alpha)));
    assert(alpha + none =~= alpha);
    assert(crate::decoder::unpacked_section(alpha + none) == Ok::<
        (Seq<u8>, Seq<u8>),
        DecodeFault,
    >((alpha_texture, none)));
}

/// A multi-image section decodes to the two textures in it.
proof fn lemma_pair_read(payload: Seq<u8>, t: Texture, width: int, height: int)
    requires
        t.format == HapFormat::HapM,
        t.alpha is Some,
        payload.len() <= u32::MAX,
        crate::decoder::unpacked_pair(payload) == Ok::<(Seq<u8>, Seq<u8>), DecodeFault>(
            (t.blocks, t.alpha->0),
        ),
        crate::dxt::whole_blocks(width, height),
    ensures
        decodes_to(crate::header::section(0x0D, payload), t, width, height),
{
    let frame = crate::header::section(0x0D, payload);
    let none = Seq::<u8>::empty();
    assert(frame + none =~= frame);
    lemma_framed(0x0D, payload, none);
}

/// A frame has a header and its payload.
proof fn lemma_frame_len(
    texture: Seq<u8>,
    format: HapFormat,
    chunk_count: int,
    use_snappy: bool,
)
    ensures
        frame_payload(texture, chunk_count, use_snappy).len() <= frame_of(
            texture,
            format,
            chunk_count,
            use_snappy,
        ).len() <= 8 + frame_payload(texture, chunk_count, use_snappy).len(),
{
}

/// Packs the two textures of a Hap Q Alpha frame.
fn pack_pair(
    colour_texture: &[u8],
    alpha_texture: &[u8],
    chunk_count: usize,
    use_snappy: bool,
) -> (r: Result<Vec<u8>, EncodeError>)
    ensures
        ({
            let t = Texture {
                format: HapFormat::HapM,
                blocks: colour_texture@,
                alpha: Some(alpha_texture@),
            };
            let payload = texture_payload(t, chunk_count as int, use_snappy);
            &&& r is Ok <==> texture_packable(t, chunk_count as int, use_snappy)
            &&& match r {
                Ok(v) => {
                    &&& v@ == texture_frame(t, chunk_count as int, use_snappy)
                    &&& payload.len() <= 16 + payload_limit(
                        t.blocks.len() as int,
                        chunk_count as int,
                        use_snappy,
                    ) + payload_limit(
                        alpha_texture@.len() as int,
                        chunk_count as int,
                        use_snappy,
                    )
                    &&& payload.len() <= u32::MAX ==> crate::decoder::unpacked_pair(payload)
                        == Ok::<(Seq<u8>, Seq<u8>), DecodeFault>((t.blocks, alpha_texture@))
                },
                Err(e) => e@ == EncodeFault::Snappy(SnappyFault::Codec),
            }
        }),
{
    let colour = match pack_single_texture_frame(
        colour_texture,
        HapFormat::HapY,
        chunk_count,
        use_snappy,
    ) {
        Ok(v) => v,
        Err(e) => return Err(e),
    };
    let alpha = match pack_single_texture_frame(
        alpha_texture,
        HapFormat::HapA,
        chunk_count,
        use_snappy,
    ) {
        Ok(v) => v,
        Err(e) => return Err(e),
    };
    let ghost first = colour@;
    proof {
        lemma_frame_len(colour_texture@, HapFormat::HapY, chunk_count as int, use_snappy);
        lemma_frame_len(alpha_texture@, HapFormat::HapA, chunk_count as int, use_snappy);
    }
    let mut inner: Vec<u8> = colour;
    push_all(&mut inner, alpha.as_slice());
    let mut out: Vec<u8> = Vec::new();
    SectionHeader::write_header(0x0D, inner.len(), &mut out);
    push_all(&mut out, inner.as_slice());
    assert(out@ =~= crate::header::section(0x0D, first + alpha@));
    proof {
        if first.len() + alpha@.len() <= u32::MAX {
            lemma_pair_unpacks(first, alpha@, colour_texture@, alpha_texture@);
        }
    }
    Ok(out)
}

/// A texture with all its blocks stands for pixels.
proof fn lemma_pixels(t: Texture, width: int, height: int)
    requires
        has_blocks(t, width, height),
        t.format != HapFormat::HapH,
        crate::dxt::whole_blocks(width, height),
    ensures
        texture_pixels(t, width, height) is Ok,
{
}

/// Encodes an RGBA8 image to a frame.
///
/// The texture of the image has a block for each 4x4 pixels. The frame decodes to it, and to
/// pixels, if its payload has a size that a header can hold.
pub fn encode_frame_with_options(
    rgba: &[u8],
    width: usize,
    height: usize,
    options: &EncodeOptions,
) -> (r: Result<Vec<u8>, EncodeError>)
    requires
        crate::dxt::addressable(width as int, height as int),
    ensures
        agrees(r, encoded(rgba@, width as int, height as int, *options)),
        can_encode(rgba@, width as int, height as int, options.format) ==> has_blocks(
            image_texture(rgba@, width as int, height as int, *options),
            width as int,
            height as int,
        ),
        r matches Ok(v) ==> {
            let t = image_texture(rgba@, width as int, height as int, *options);
            let payload = texture_payload(t, options.chunk_count as int, options.use_snappy);
            &&& payload.len() <= image_payload_limit(
                width as int,
                height as int,
                options.format,
                options.chunk_count as int,
                options.use_snappy,
            )
            &&& payload.len() <= u32::MAX ==> {
                &&& decodes_to(v@, t, width as int, height as int)
                &&& crate::decoder::rgba_of(v@, width as int, height as int) is Ok
            }
        },
{
    if width % 4 != 0 || height % 4 != 0 {
        return Err(EncodeError::InvalidDimensions { width, height });
    }
    proof {
        crate::dxt::lemma_sizes(width as int, height as int);
    }
    if rgba.len() != width * height * 4 {
        return Err(
            EncodeError::BufferSizeMismatch { expected: width * height * 4, actual: rgba.len() },
        );
    }
    let prepared = preprocess_rgba(rgba, width, height, options.color_range, options.alpha_mode);
    let src = cow_slice(&prepared);
    let chunk_count: usize = options.chunk_count;
    let use_snappy: bool = options.use_snappy;
    let ghost t = image_texture(rgba@, width as int, height as int, *options);
    let texture = match compress_texture(src, width, height, options) {
        Ok(v) => v,
        Err(e) => return Err(e),
    };
    if options.format == HapFormat::HapM {
        let alpha = match compress_alpha(src, width, height) {
            Ok(v) => v,
            Err(e) => return Err(e),
        };
        proof {
            lemma_pixels(t, width as int, height as int);
            let payload = texture_payload(t, chunk_count as int, use_snappy);
            if payload.len() <= u32::MAX && crate::decoder::unpacked_pair(payload) == Ok::<
                (Seq<u8>, Seq<u8>),
                DecodeFault,
            >((texture@, alpha@)) {
                lemma_pair_read(payload, t, width as int, height as int);
            }
        }
        return pack_pair(texture.as_slice(), alpha.as_slice(), chunk_count, use_snappy);
    }
    match pack_single_texture_frame(texture.as_slice(), options.format, chunk_count, use_snappy) {
        Ok(v) => {
            proof {
                lemma_pixels(t, width as int, height as int);
                if texture_payload(t, chunk_count as int, use_snappy).len() <= u32::MAX {
                    lemma_single_decodes(
                        t,
                        chunk_count as int,
                        use_snappy,
                        width as int,
                        height as int,
                    );
                }
            }
            Ok(v)
        },
        Err(e) => Err(e),
    }
}

/// The options that `encode_frame` encodes with.
pub open spec fn plain_options(
    format: HapFormat,
    chunk_count: usize,
    use_snappy: bool,
) -> EncodeOptions {
    EncodeOptions {
        format,
        chunk_count,
        use_snappy,
        color_range: ColorRange::Full,
        alpha_mode: AlphaMode::Straight,
        dither_mode: DitherMode::Off,
        quality: QualityPreset::Production,
    }
}

/// Encodes an RGBA8 image to a frame with full range, straight alpha, no dither and production
/// quality.
pub fn encode_frame(
    rgba: &[u8],
    width: usize,
    height: usize,
    format: HapFormat,
    chunk_count: usize,
    use_snappy: bool,
) -> (r: Result<Vec<u8>, EncodeError>)
    requires
        crate::dxt::addressable(width as int, height as int),
    ensures
        agrees(
            r,
            encoded(
                rgba@,
                width as int,
                height as int,
                plain_options(format, chunk_count, use_snappy),
            ),
        ),
        can_encode(rgba@, width as int, height as int, format) ==> {
            let o = plain_options(format, chunk_count, use_snappy);
            let t = texture_for(rgba@, width as int, height as int, o);
            t == image_texture(rgba@, width as int, height as int, o) && has_blocks(
                t,
                width as int,
                height as int,
            )
        },
        r matches Ok(v) ==> {
            let t = texture_for(
                rgba@,
                width as int,
                height as int,
                plain_options(format, chunk_count, use_snappy),
            );
            let payload = texture_payload(t, chunk_count as int, use_snappy);
            &&& payload.len() <= image_payload_limit(
                width as int,
                height as int,
                format,
                chunk_count as int,
                use_snappy,
            )
            &&& payload.len() <= u32::MAX ==> {
                &&& decodes_to(v@, t, width as int, height as int)
                &&& crate::decoder::rgba_of(v@, width as int, height as int) is Ok
            }
        },
{
    let options = EncodeOptions {
        format,
        chunk_count,
        use_snappy,
        color_range: ColorRange::Full,
        alpha_mode: AlphaMode::Straight,
        dither_mode: DitherMode::Off,
        quality: QualityPreset::Production,
    };
    assert(crate::color::processed(rgba@, ColorRange::Full, AlphaMode::Straight) =~= rgba@);
    encode_frame_with_options(rgba, width, height, &options)
}

/// How an image is packed does not change what it decodes to: two frames of it, whatever their
/// chunks and whether or not they are compressed with Snappy, hold one texture in the format that
/// was asked for, with all its blocks, and one picture.
pub proof fn law_packing_keeps_texture(
    first: Seq<u8>,
    second: Seq<u8>,
    rgba: Seq<u8>,
    width: int,
    height: int,
    o: EncodeOptions,
    p: EncodeOptions,
)
    requires
        p == (EncodeOptions { chunk_count: p.chunk_count, use_snappy: p.use_snappy, ..o }),
        has_blocks(image_texture(rgba, width, height, o), width, height),
        decodes_to(first, image_texture(rgba, width, height, o), width, height),
        decodes_to(second, image_texture(rgba, width, height, p), width, height),
    ensures
        crate::decoder::texture_of(first) is Ok,
        crate::decoder::texture_of(second) == crate::decoder::texture_of(first),
        crate::decoder::rgba_of(second, width, height) == crate::decoder::rgba_of(
            first,
            width,
            height,
        ),
        ({
            let t = crate::decoder::texture_of(first)->Ok_0;
            let alpha_len = match t.alpha {
                Some(alpha) => alpha.len() as int,
                None => 0,
            };
            &&& t.format == o.format
            &&& t.blocks.len() + alpha_len == (width / 4) * (height / 4) * o.format.block_bytes()
        }),
{
    assert(image_texture(rgba, width, height, p) == image_texture(rgba, width, height, o));
}

/// A Hap R frame, decoded again, shows for each pixel the entry of its block's palette that is
/// closest to it.
#[verifier::spinoff_prover]
pub proof fn law_hap_r_round_trip(
    packet: Seq<u8>,
    rgba: Seq<u8>,
    width: int,
    height: int,
    o: EncodeOptions,
    x: int,
    y: int,
    c: int,
)
    requires
        o.format == HapFormat::Hap7,
        crate::dxt::whole_blocks(width, height),
        rgba.len() == width * height * 4,
        decodes_to(packet, image_texture(rgba, width, height, o), width, height),
        forall|b: int|
            0 <= b < (width / 4) * (height / 4) ==> #[trigger] crate::blocks::shows_block(
                image_texture(rgba, width, height, o).blocks,
                b,
            ),
        0 <= x < width,
        0 <= y < height,
        0 <= c < 4,
    ensures
        ({
            let src = crate::color::processed(rgba, o.color_range, o.alpha_mode);
            let b = (y / 4) * (width / 4) + x / 4;
            let px = crate::bc7::block_at(src, width, b);
            let ends = crate::bc7::block_ends(px, rounds_for(o.quality));
            let i = (y % 4) * 4 + x % 4;
            &&& crate::decoder::rgba_of(packet, width, height) is Ok
            &&& px[4 * i + c] == src[4 * (y * width + x) + c]
            &&& crate::decoder::rgba_of(packet, width, height)->Ok_0[4 * (y * width + x) + c]
                == crate::bc7::palette(
                ends.0,
                ends.1,
                crate::bc7::closest(px, i, ends.0, ends.1, 16),
                c,
            )
        }),
{
    let src = crate::color::processed(rgba, o.color_range, o.alpha_mode);
    let n = rounds_for(o.quality);
    let blocks = crate::bc7::encoded_image(src, width, height, n);
    crate::bc7::law_image_round_trip(src, width, height, n, x, y, c);
    let b = (y / 4) * (width / 4) + x / 4;
    assert(crate::blocks::shows_block(blocks, b));
    let p = 4 * (y * width + x) + c;
    assert(0 <= p < width * height * 4 && p == y * (width * 4) + (4 * x + c)) by (nonlinear_arith)
        requires
            p == 4 * (y * width + x) + c,
            0 <= x < width,
            0 <= y < height,
            0 <= c < 4,
    ;
    crate::parallel::lemma_position(y, 4 * x + c, width);
}

/// A Hap R frame of an opaque image is decoded to an opaque one, and so is one of any image whose
/// alpha is discarded.
pub proof fn law_hap_r_keeps_opacity(
    packet: Seq<u8>,
    rgba: Seq<u8>,
    width: int,
    height: int,
    o: EncodeOptions,
    x: int,
    y: int,
)
    requires
        o.format == HapFormat::Hap7,
        o.alpha_mode == AlphaMode::Discard || crate::bc7::is_opaque(rgba),
        crate::dxt::whole_blocks(width, height),
        rgba.len() == width * height * 4,
        decodes_to(packet, image_texture(rgba, width, height, o), width, height),
        forall|b: int|
            0 <= b < (width / 4) * (height / 4) ==> #[trigger] crate::blocks::shows_block(
                image_texture(rgba, width, height, o).blocks,
                b,
            ),
        0 <= x < width,
        0 <= y < height,
    ensures
        crate::decoder::rgba_of(packet, width, height) is Ok,
        crate::decoder::rgba_of(packet, width, height)->Ok_0[4 * (y * width + x) + 3] == 255,
{
    law_hap_r_round_trip(packet, rgba, width, height, o, x, y, 3);
    let src = crate::color::processed(rgba, o.color_range, o.alpha_mode);
    assert(crate::bc7::is_opaque(src)) by {
        assert forall|p: int| 0 <= p && 4 * p + 3 < src.len() implies #[trigger] src[4 * p + 3]
            == 255 by {
            crate::color::law_alpha_channel(rgba, o.color_range, o.alpha_mode, p);
            if o.alpha_mode != AlphaMode::Discard {
                assert(rgba[4 * p + 3] == 255);
            }
        }
    }
    crate::bc7::lemma_opaque_block(src, width, height, x, y);
    let px = crate::bc7::block_at(src, width, (y / 4) * (width / 4) + x / 4);
    crate::bc7::law_steady_channel(px, rounds_for(o.quality), (y % 4) * 4 + x % 4, 3);
}

/// The sizes of the parts.
pub open spec fn lengths(parts: Seq<Seq<u8>>) -> Seq<int> {
    Seq::new(parts.len(), |i: int| parts[i].len() as int)
}

proof fn lemma_lengths(parts: Seq<Seq<u8>>, n: int)
    requires
        0 <= n <= parts.len(),
    ensures
        crate::header::total(lengths(parts), n) == crate::snappy::joined(
            parts.subrange(0, n),
        ).len(),
    decreases n,
{
    if n > 0 {
        lemma_lengths(parts, n - 1);
        assert(parts.subrange(0, n).drop_last() =~= parts.subrange(0, n - 1));
    } else {
        assert(parts.subrange(0, 0) =~= Seq::<Seq<u8>>::empty());
    }
}

/// Where chunks lie end to end, each begins where the parts before it end.
proof fn lemma_end_to_end(
    chunks: Seq<ChunkInfo>,
    compressors: Seq<u8>,
    parts: Seq<Seq<u8>>,
    i: int,
)
    requires
        crate::header::lies_end_to_end(chunks, compressors, lengths(parts)),
        0 <= i < parts.len(),
    ensures
        chunks[i].offset == crate::snappy::joined(parts.subrange(0, i)).len(),
    decreases i,
{
    if i > 0 {
        lemma_end_to_end(chunks, compressors, parts, i - 1);
        assert(parts.subrange(0, i).drop_last() =~= parts.subrange(0, i - 1));
        assert(chunks[i].offset == chunks[i - 1].offset + chunks[i - 1].size);
        assert(chunks[i - 1].size == lengths(parts)[i - 1]);
    } else {
        assert(parts.subrange(0, 0) =~= Seq::<Seq<u8>>::empty());
        assert(chunks[0].offset == 0);
    }
}

/// A frame of chunks that lists their compressors and sizes alone, and holds the chunks one after
/// the other, is the texture that the chunks make up in their order. A chunk with compressor 0x0A
/// is taken as it is, one with 0x0B is decompressed.
#[verifier::spinoff_prover]
#[verifier::rlimit(40)]
pub proof fn law_frame_without_offsets(
    format: HapFormat,
    compressors: Seq<u8>,
    size_bytes: Seq<u8>,
    parts: Seq<Seq<u8>>,
    pieces: Seq<Seq<u8>>,
)
    requires
        format != HapFormat::HapM,
        crate::header::is_table(size_bytes, lengths(parts)),
        compressors.len() == parts.len(),
        pieces.len() == parts.len(),
        forall|i: int|
            0 <= i < parts.len() ==> {
                ||| compressors[i] == 0x0A && #[trigger] pieces[i] == parts[i]
                ||| compressors[i] == 0x0B && crate::snappy::snappy_decompressed(parts[i]) == Some(
                    pieces[i],
                )
            },
        ({
            let tables = crate::header::section(0x02, compressors) + crate::header::section(
                0x03,
                size_bytes,
            );
            crate::header::section(0x01, tables).len() + crate::snappy::joined(parts).len()
                <= u32::MAX
        }),
    ensures
        ({
            let tables = crate::header::section(0x02, compressors) + crate::header::section(
                0x03,
                size_bytes,
            );
            let packet = crate::header::section(
                (0xC0 + format.texture_nibble()) as u8,
                crate::header::section(0x01, tables) + crate::snappy::joined(parts),
            );
            crate::decoder::texture_of(packet) == Ok::<Texture, DecodeFault>(
                Texture { format, blocks: crate::snappy::joined(pieces), alpha: None },
            )
        }),
{
    let tables = crate::header::section(0x02, compressors) + crate::header::section(
        0x03,
        size_bytes,
    );
    let all = crate::snappy::joined(parts);
    let payload = crate::header::section(0x01, tables) + all;
    let section_type = (0xC0 + format.texture_nibble()) as u8;
    let packet = crate::header::section(section_type, payload);
    let sizes = lengths(parts);
    lemma_lengths(parts, parts.len() as int);
    assert(parts.subrange(0, parts.len() as int) =~= parts);
    crate::header::law_offsets_run_on(compressors, size_bytes, sizes);
    let chunks = crate::header::instructions_of(tables)->Ok_0;
    assert forall|i: int| 0 <= i < chunks.len() implies crate::snappy::reads_as(
        all,
        #[trigger] chunks[i],
        parts[i],
        pieces[i],
    ) by {
        lemma_end_to_end(chunks, compressors, parts, i);
        crate::snappy::lemma_joined(parts, i);
        assert(chunks[i].size == sizes[i]);
        assert(pieces[i] == pieces[i]);
    }
    crate::snappy::law_chunks_joined_in_order(all, chunks, parts, pieces);
    lemma_framed(0x01, tables, all);
    let none = Seq::<u8>::empty();
    assert(packet + none =~= packet);
    lemma_framed(section_type, payload, none);
    assert(section_type as int / 16 == 0xC);
    assert(section_type as int % 16 == format.texture_nibble());
}

/// The blocks of a Hap Q or Hap Q Alpha texture are the compression of an image `s` that the
/// inverse transform takes back to the prepared picture: to within one level, with dithering
/// within three. The quality chooses how the blocks are fitted, and nothing else.
#[verifier::spinoff_prover]
#[verifier::rlimit(40)]
pub proof fn law_hap_q_texture(rgba: Seq<u8>, width: int, height: int, o: EncodeOptions) -> (s: Seq<
    u8,
>)
    requires
        o.format == HapFormat::HapY || o.format == HapFormat::HapM,
        crate::dxt::whole_blocks(width, height),
        0 < width,
        0 < height,
        rgba.len() == width * height * 4,
    ensures
        image_texture(rgba, width, height, o).format == o.format,
        image_texture(rgba, width, height, o).blocks == crate::dxt::texpresso_blocks(
            BlockFormat::Bc3,
            (CompressParams {
                fit: if o.quality == QualityPreset::Draft {
                    ColourFit::Range
                } else {
                    ColourFit::Cluster
                },
                weights: ChannelWeights::Uniform,
            }),
            s,
            width,
            height,
        ),
        s.len() == rgba.len(),
        forall|q: QualityPreset|
            #[trigger] image_texture(
                rgba,
                width,
                height,
                EncodeOptions { quality: q, ..o },
            ).blocks == crate::dxt::texpresso_blocks(
                BlockFormat::Bc3,
                params_for(q, ChannelWeights::Uniform),
                s,
                width,
                height,
            ),
        ({
            let src = crate::color::processed(rgba, o.color_range, o.alpha_mode);
            let n = if o.dither_mode == DitherMode::Bayer4x4 {
                3int
            } else {
                1
            };
            forall|i: int|
                0 <= i < rgba.len() ==> if i % 4 == 3 {
                    #[trigger] crate::ycocg::restored_image(s)[i] == 255
                } else {
                    crate::ycocg::near(
                        crate::ycocg::restored_image(s)[i] as int,
                        src[i] as int,
                        n,
                    )
                }
        }),
{
    let src = crate::color::processed(rgba, o.color_range, o.alpha_mode);
    let on = o.dither_mode == DitherMode::Bayer4x4;
    let before = crate::bytes::zeros(src.len() as int);
    let s = crate::ycocg::scaled_image(src, width, on, before);
    assert forall|i: int| 0 <= i < rgba.len() implies if i % 4 == 3 {
        #[trigger] crate::ycocg::restored_image(s)[i] == 255
    } else {
        crate::ycocg::near(
            crate::ycocg::restored_image(s)[i] as int,
            src[i] as int,
            if on {
                3int
            } else {
                1
            },
        )
    } by {
        let p = i / 4;
        crate::ycocg::law_scaled_image_restored(src, width, height, on, before, p, false);
        assert(i - i % 4 == 4 * p);
        assert(i == 4 * p + i % 4);
        assert(i % 4 == 0 || i % 4 == 1 || i % 4 == 2 || i % 4 == 3);
        lemma_restored_byte(s, 4 * p, i % 4, false);
    }
    s
}

/// What is restored is a byte.
proof fn lemma_restored_byte(s: Seq<u8>, q: int, c: int, by_product: bool)
    ensures
        0 <= crate::ycocg::restored_at(s, q, c, by_product) <= 255,
{
    crate::ycocg::lemma_restored_range(s, q, c, by_product);
}

/// A Hap Q frame, and the colours of a Hap Q Alpha frame, are decoded to the prepared picture, as
/// far as compressing its blocks loses nothing: each colour to within one level, with dithering
/// within three.
#[verifier::spinoff_prover]
#[verifier::rlimit(40)]
pub proof fn law_hap_q_round_trip(
    packet: Seq<u8>,
    rgba: Seq<u8>,
    width: int,
    height: int,
    o: EncodeOptions,
    x: int,
    y: int,
) -> (s: Seq<u8>)
    requires
        o.format == HapFormat::HapY || o.format == HapFormat::HapM,
        crate::dxt::whole_blocks(width, height),
        rgba.len() == width * height * 4,
        decodes_to(packet, image_texture(rgba, width, height, o), width, height),
        has_blocks(image_texture(rgba, width, height, o), width, height),
        0 <= x < width,
        0 <= y < height,
    ensures
        image_texture(rgba, width, height, o).blocks == crate::dxt::texpresso_blocks(
            BlockFormat::Bc3,
            params_for(o.quality, ChannelWeights::Uniform),
            s,
            width,
            height,
        ),
        crate::decoder::rgba_of(packet, width, height) is Ok,
        (forall|k: int|
            0 <= k < 4 ==> crate::blocks::decoded_value(
                crate::blocks::Codec::Bc3,
                image_texture(rgba, width, height, o).blocks,
                width,
                x,
                y,
                k,
            ) == #[trigger] s[4 * (y * width + x) + k]) ==> ({
            let src = crate::color::processed(rgba, o.color_range, o.alpha_mode);
            let p = 4 * (y * width + x);
            let n = if o.dither_mode == DitherMode::Bayer4x4 {
                3int
            } else {
                1
            };
            &&& forall|c: int|
                0 <= c < 3 ==> crate::ycocg::near(
                    #[trigger] crate::decoder::rgba_of(packet, width, height)->Ok_0[p + c] as int,
                    src[p + c] as int,
                    n,
                )
            &&& o.format == HapFormat::HapY ==> crate::decoder::rgba_of(
                packet,
                width,
                height,
            )->Ok_0[p + 3] == 255
        }),
{
    let src = crate::color::processed(rgba, o.color_range, o.alpha_mode);
    let on = o.dither_mode == DitherMode::Bayer4x4;
    let before = crate::bytes::zeros(src.len() as int);
    let s = crate::ycocg::scaled_image(src, width, on, before);
    let t = image_texture(rgba, width, height, o);
    let q = y * width + x;
    let p = 4 * q;
    assert(0 <= q < width * height) by (nonlinear_arith)
        requires
            q == y * width + x,
            0 <= x < width,
            0 <= y < height,
    ;
    lemma_pixels(t, width, height);
    crate::ycocg::law_scaled_image_restored(src, width, height, on, before, q, true);
    let four = Seq::new(
        4,
        |k: int|
            crate::blocks::decoded_value(crate::blocks::Codec::Bc3, t.blocks, width, x, y, k),
    );
    if forall|k: int|
        0 <= k < 4 ==> crate::blocks::decoded_value(
            crate::blocks::Codec::Bc3,
            t.blocks,
            width,
            x,
            y,
            k,
        ) == #[trigger] s[4 * (y * width + x) + k] {
        assert forall|c: int| 0 <= c < 4 implies #[trigger] four[c] == s[p + c] by {
            assert(s[4 * (y * width + x) + c] == s[p + c]);
        }
        crate::ycocg::lemma_restored_same(four, 0, s, p, true);
        let image = crate::ycocg::hap_q_image(t.blocks, width, width * height * 4);
        assert(p == y * (width * 4) + 4 * x) by (nonlinear_arith)
            requires
                p == 4 * (y * width + x),
        ;
        assert forall|c: int| 0 <= c < 4 implies #[trigger] image[p + c] == crate::ycocg::restored_at(
            s,
            p,
            c,
            true,
        ) by {
            crate::parallel::lemma_position(y, 4 * x + c, width);
            lemma_restored_byte(s, p, c, true);
        }
        assert forall|c: int| 0 <= c < 3 implies crate::ycocg::near(
            #[trigger] crate::decoder::rgba_of(packet, width, height)->Ok_0[p + c] as int,
            src[p + c] as int,
            if on {
                3int
            } else {
                1
            },
        ) by {
            assert(crate::decoder::rgba_of(packet, width, height)->Ok_0[p + c] == image[p + c]);
            assert(c == 0 || c == 1 || c == 2);
        }
        assert(image[p + 3] == 255);
    }
    s
}

/// The alpha channel of a picture in all four channels.
pub open spec fn shows_alpha(a: Seq<u8>, rgba: Seq<u8>) -> bool {
    a.len() == rgba.len() && forall|i: int|
        0 <= i < rgba.len() ==> #[trigger] a[i] == rgba[4 * (i / 4) + 3]
}

proof fn lemma_shows_alpha(rgba: Seq<u8>)
    requires
        rgba.len() % 4 == 0,
    ensures
        shows_alpha(crate::dxt::splat(crate::dxt::channel_of(rgba, 3)), rgba),
{
    let a = crate::dxt::splat(crate::dxt::channel_of(rgba, 3));
    assert forall|i: int| 0 <= i < rgba.len() implies #[trigger] a[i] == rgba[4 * (i / 4) + 3] by {
        assert(0 <= i / 4 < rgba.len() / 4);
    }
}

/// What the blocks of a texture are made of. Hap 1 is the BC1 compression of the prepared picture
/// and Hap Alpha the BC3 compression, the quality choosing the fit. Alpha Only is the BC4
/// compression of its alpha channel, and so is the second texture of Hap Q Alpha. The other
/// formats have no second texture.
pub proof fn law_textures(rgba: Seq<u8>, width: int, height: int, o: EncodeOptions, a: Seq<u8>)
    requires
        crate::dxt::whole_blocks(width, height),
        0 < width,
        0 < height,
        rgba.len() == width * height * 4,
        shows_alpha(a, crate::color::processed(rgba, o.color_range, o.alpha_mode)),
    ensures
        ({
            let src = crate::color::processed(rgba, o.color_range, o.alpha_mode);
            let t = image_texture(rgba, width, height, o);
            let fit = match o.quality {
                QualityPreset::Draft => ColourFit::Range,
                QualityPreset::Production => ColourFit::Cluster,
            };
            let weights = ChannelWeights::Perceptual;
            let matte = crate::dxt::texpresso_blocks(
                BlockFormat::Bc4,
                CompressParams { fit: ColourFit::Cluster, weights },
                a,
                width,
                height,
            );
            &&& t.format == o.format
            &&& t.alpha == if o.format == HapFormat::HapM {
                Some(matte)
            } else {
                None
            }
            &&& o.format == HapFormat::Hap1 ==> t.blocks == crate::dxt::texpresso_blocks(
                BlockFormat::Bc1,
                CompressParams { fit, weights },
                src,
                width,
                height,
            )
            &&& o.format == HapFormat::Hap5 ==> t.blocks == crate::dxt::texpresso_blocks(
                BlockFormat::Bc3,
                CompressParams { fit, weights },
                src,
                width,
                height,
            )
            &&& o.format == HapFormat::HapA ==> t.blocks == matte
        }),
{
    let src = crate::color::processed(rgba, o.color_range, o.alpha_mode);
    lemma_shows_alpha(src);
    assert(a =~= crate::dxt::splat(crate::dxt::channel_of(src, 3)));
}

/// The outcome of unpacking a section by its type: 0xA in the high half is no compression, 0xB is
/// Snappy; what is neither of these nor chunked is refused.
pub proof fn law_section_unpacked(section_type: u8, payload: Seq<u8>)
    ensures
        ({
            let got = crate::decoder::unpacked(section_type, payload);
            &&& 0xA0 <= section_type <= 0xAF ==> got == Ok::<Seq<u8>, DecodeFault>(payload)
            &&& 0xB0 <= section_type <= 0xBF ==> match crate::snappy::snappy_decompressed(payload) {
                Some(v) => got == Ok::<Seq<u8>, DecodeFault>(v),
                None => got is Err,
            }
            &&& section_type < 0xA0 || section_type > 0xCF ==> got is Err
        }),
{
}

/// What a frame of one texture is read as: its format by the low half of its type, its blocks as
/// the high half says. A low half that stands for no format is refused.
pub proof fn law_frame_read(section_type: u8, payload: Seq<u8>)
    requires
        payload.len() <= u32::MAX,
        section_type != 0x0D,
    ensures
        ({
            let got = crate::decoder::texture_of(crate::header::section(section_type, payload));
            let n = section_type as int % 16;
            match crate::decoder::unpacked(section_type, payload) {
                Err(e) => got == Err::<Texture, DecodeFault>(e),
                Ok(blocks) => match got {
                    Ok(t) => {
                        &&& t.blocks == blocks
                        &&& t.alpha is None
                        &&& n == 0x0B ==> t.format == HapFormat::Hap1
                        &&& n == 0x0E ==> t.format == HapFormat::Hap5
                        &&& n == 0x0F ==> t.format == HapFormat::HapY
                        &&& n == 0x01 ==> t.format == HapFormat::HapA
                        &&& n == 0x0C ==> t.format == HapFormat::Hap7
                        &&& n == 0x02 || n == 0x03 ==> t.format == HapFormat::HapH
                        &&& n == 0x0B || n == 0x0E || n == 0x0F || 0x01 <= n <= 0x03 || n == 0x0C
                    },
                    Err(_) => n == 0x00 || 0x04 <= n <= 0x0A || n == 0x0D,
                },
            }
        }),
{
    let packet = crate::header::section(section_type, payload);
    let none = Seq::<u8>::empty();
    assert(packet + none =~= packet);
    lemma_framed(section_type, payload, none);
}

/// A Hap Q Alpha frame is read as the texture of its first section and the alpha of its second,
/// whatever follows them.
#[verifier::spinoff_prover]
#[verifier::rlimit(40)]
pub proof fn law_pair_read(
    colour_type: u8,
    colour: Seq<u8>,
    alpha_type: u8,
    alpha: Seq<u8>,
    rest: Seq<u8>,
)
    requires
        colour.len() <= u32::MAX,
        alpha.len() <= u32::MAX,
        crate::header::section(colour_type, colour).len() + crate::header::section(
            alpha_type,
            alpha,
        ).len() + rest.len() <= u32::MAX,
    ensures
        ({
            let packet = crate::header::section(
                0x0D,
                crate::header::section(colour_type, colour) + (crate::header::section(
                    alpha_type,
                    alpha,
                ) + rest),
            );
            match (
                crate::decoder::unpacked(colour_type, colour),
                crate::decoder::unpacked(alpha_type, alpha),
            ) {
                (Ok(c), Ok(a)) => crate::decoder::texture_of(packet) == Ok::<Texture, DecodeFault>(
                    Texture { format: HapFormat::HapM, blocks: c, alpha: Some(a) },
                ),
                (Err(e), _) => crate::decoder::texture_of(packet) == Err::<Texture, DecodeFault>(e),
                (_, Err(e)) => crate::decoder::texture_of(packet) == Err::<Texture, DecodeFault>(e),
            }
        }),
{
    let second = crate::header::section(alpha_type, alpha) + rest;
    let payload = crate::header::section(colour_type, colour) + second;
    lemma_section_unpacked(colour_type, colour, second);
    lemma_section_unpacked(alpha_type, alpha, rest);
    lemma_pair_outcome(payload);
}

/// What the section at the start of a buffer holds.
proof fn lemma_section_unpacked(section_type: u8, data: Seq<u8>, rest: Seq<u8>)
    requires
        data.len() <= u32::MAX,
    ensures
        crate::decoder::unpacked_section(crate::header::section(section_type, data) + rest)
            == match crate::decoder::unpacked(section_type, data) {
            Err(e) => Err::<(Seq<u8>, Seq<u8>), DecodeFault>(e),
            Ok(v) => Ok::<(Seq<u8>, Seq<u8>), DecodeFault>((v, rest)),
        },
{
    lemma_framed(section_type, data, rest);
}

/// What a container is read as.
proof fn lemma_pair_outcome(payload: Seq<u8>)
    requires
        payload.len() <= u32::MAX,
    ensures
        crate::decoder::texture_of(crate::header::section(0x0D, payload))
            == match crate::decoder::unpacked_pair(payload) {
            Err(e) => Err::<Texture, DecodeFault>(e),
            Ok((colour, alpha)) => Ok::<Texture, DecodeFault>(
                Texture { format: HapFormat::HapM, blocks: colour, alpha: Some(alpha) },
            ),
        },
{
    let packet = crate::header::section(0x0D, payload);
    let none = Seq::<u8>::empty();
    assert(packet + none =~= packet);
    lemma_framed(0x0D, payload, none);
}

/// A frame that ends before its header says is refused.
pub proof fn law_cut_frame_refused(packet: Seq<u8>, width: int, height: int)
    requires
        match crate::header::header_of(packet) {
            Ok(h) => h.header_size + h.data_size > packet.len(),
            Err(_) => true,
        },
    ensures
        crate::decoder::texture_of(packet) is Err,
        crate::decoder::rgba_of(packet, width, height) is Err,
{
}

/// What the pixels of a frame are, by its texture: those of its BC1 or BC3 blocks for Hap 1 and Hap
/// Alpha, the first channel of the BC4 blocks in all four channels for Alpha Only. In a Hap Q Alpha
/// frame the alpha channel is that of the second texture. Bytes after the last block do not count,
/// and blocks that are missing make an error.
#[verifier::spinoff_prover]
#[verifier::rlimit(40)]
pub proof fn law_pixels_of_texture(packet: Seq<u8>, t: Texture, width: int, height: int)
    requires
        crate::decoder::texture_of(packet) == Ok::<Texture, DecodeFault>(t),
        crate::dxt::whole_blocks(width, height),
        0 < width,
        0 < height,
    ensures
        ({
            let got = crate::decoder::rgba_of(packet, width, height);
            let count = (width / 4) * (height / 4);
            let eight = t.blocks.subrange(0, count * 8);
            let sixteen = t.blocks.subrange(0, count * 16);
            &&& match t.format {
                HapFormat::Hap1 => if t.blocks.len() < count * 8 {
                    got is Err
                } else {
                    got == Ok::<Seq<u8>, DecodeFault>(
                        crate::dxt::texpresso_pixels(BlockFormat::Bc1, eight, width, height),
                    )
                },
                HapFormat::Hap5 => if t.blocks.len() < count * 16 {
                    got is Err
                } else {
                    got == Ok::<Seq<u8>, DecodeFault>(
                        crate::dxt::texpresso_pixels(BlockFormat::Bc3, sixteen, width, height),
                    )
                },
                HapFormat::HapA => if t.blocks.len() < count * 8 {
                    got is Err
                } else {
                    let px = crate::dxt::texpresso_pixels(BlockFormat::Bc4, eight, width, height);
                    &&& got is Ok
                    &&& px.len() == width * height * 4 ==> forall|i: int|
                        0 <= i < px.len() ==> #[trigger] got->Ok_0[i] == px[4 * (i / 4)]
                },
                HapFormat::HapM => if t.blocks.len() < count * 16 || (t.alpha matches Some(a)
                    && a.len() < count * 8) {
                    got is Err
                } else {
                    let px = crate::dxt::texpresso_pixels(
                        BlockFormat::Bc4,
                        t.alpha->0.subrange(0, count * 8),
                        width,
                        height,
                    );
                    &&& got is Ok
                    &&& px.len() == width * height * 4 ==> forall|i: int|
                        0 <= i < px.len() ==> #[trigger] got->Ok_0[i] == if i % 4 == 3 {
                            px[4 * (i / 4)]
                        } else {
                            crate::ycocg::hap_q_image(t.blocks, width, width * height * 4)[i]
                        }
                },
                HapFormat::HapY => if t.blocks.len() < count * 16 {
                    got is Err
                } else {
                    got == Ok::<Seq<u8>, DecodeFault>(
                        crate::ycocg::hap_q_image(t.blocks, width, width * height * 4),
                    )
                },
                HapFormat::Hap7 => t.blocks.len() < count * 16 <==> got is Err,
                HapFormat::HapH => t.blocks.len() < count * 16 ==> got is Err,
            }
        }),
{
    let count = (width / 4) * (height / 4);
    assert(width * height * 4 >= 0) by (nonlinear_arith)
        requires
            0 < width,
            0 < height,
    ;
    let got = crate::decoder::rgba_of(packet, width, height);
    if t.format == HapFormat::HapA && t.blocks.len() >= count * 8 {
        let px = crate::dxt::texpresso_pixels(
            BlockFormat::Bc4,
            t.blocks.subrange(0, count * 8),
            width,
            height,
        );
        assert forall|i: int| 0 <= i < px.len() && px.len() == width * height * 4 implies (
        #[trigger] got->Ok_0[i]) == px[4 * (i / 4)] by {
            assert(0 <= i / 4 < px.len() / 4);
        }
    }
    if t.format == HapFormat::HapM && got is Ok {
        let px = crate::dxt::texpresso_pixels(
            BlockFormat::Bc4,
            t.alpha->0.subrange(0, count * 8),
            width,
            height,
        );
        assert forall|i: int| 0 <= i < px.len() && px.len() == width * height * 4 implies (
        #[trigger] got->Ok_0[i]) == if i % 4 == 3 {
            px[4 * (i / 4)]
        } else {
            crate::ycocg::hap_q_image(t.blocks, width, width * height * 4)[i]
        } by {
            assert(0 <= i / 4 < px.len() / 4);
        }
    }
}

/// What is refused, and what is not. Dimensions that are not multiples of 4 come first, then a
/// buffer that has not four bytes for each pixel, then the HDR format. What is left is encoded, but
/// that Snappy refuses a piece of the texture whose compressed form may not fit in 32 bits.
pub proof fn law_encoding_outcome(rgba: Seq<u8>, width: int, height: int, o: EncodeOptions)
    ensures
        ({
            let got = encoded(rgba, width, height, o);
            let blocks = width % 4 == 0 && height % 4 == 0;
            let need = 4 * (width * height);
            &&& !blocks ==> got == Err::<Seq<u8>, EncodeFault>(
                EncodeFault::InvalidDimensions { width, height },
            )
            &&& blocks && rgba.len() != need ==> got == Err::<Seq<u8>, EncodeFault>(
                EncodeFault::BufferSizeMismatch { expected: need, actual: rgba.len() as int },
            )
            &&& blocks && rgba.len() == need && o.format == HapFormat::HapH ==> got == Err::<
                Seq<u8>,
                EncodeFault,
            >(EncodeFault::UnsupportedFormat(HapFormat::HapH))
            &&& blocks && rgba.len() == need && o.format != HapFormat::HapH ==> {
                &&& !o.use_snappy ==> got is Ok
                &&& got is Ok || got == Err::<Seq<u8>, EncodeFault>(
                    EncodeFault::Snappy(SnappyFault::Codec),
                )
                &&& got is Ok && o.chunk_count <= 1 && o.use_snappy ==> {
                    let n = image_texture(rgba, width, height, o).blocks.len();
                    32 + n + n / 6 <= u32::MAX
                }
            }
        }),
{
    assert(width * height * 4 == 4 * (width * height));
}

/// A picture is the frame of its texture: the type byte has the format in its low half, and in its
/// high half 0xC for chunks, 0xB for Snappy alone and 0xA for neither; the frame of Hap Q Alpha has
/// the type 0x0D, and a frame of each texture in it, colour then alpha.
pub proof fn law_frame_types(t: Texture, chunk_count: int, use_snappy: bool)
    ensures
        ({
            let kind: int = if chunk_count > 1 {
                0xC0
            } else if use_snappy {
                0xB0
            } else {
                0xA0
            };
            let frame = texture_frame(t, chunk_count, use_snappy);
            &&& t.alpha is None && t.format == HapFormat::Hap1 ==> frame == crate::header::section(
                (kind + 0x0B) as u8,
                frame_payload(t.blocks, chunk_count, use_snappy),
            )
            &&& t.alpha is None && t.format == HapFormat::HapY ==> frame == crate::header::section(
                (kind + 0x0F) as u8,
                frame_payload(t.blocks, chunk_count, use_snappy),
            )
            &&& t.alpha is Some && t.format == HapFormat::HapM ==> frame == crate::header::section(
                0x0D,
                crate::header::section(
                    (kind + 0x0F) as u8,
                    frame_payload(t.blocks, chunk_count, use_snappy),
                ) + crate::header::section(
                    (kind + 0x01) as u8,
                    frame_payload(t.alpha->0, chunk_count, use_snappy),
                ),
            )
        }),
{
}

/// The blocks of a Hap R texture are the BC7 blocks of the prepared picture, refined once in a draft
/// and twice in production.
pub proof fn law_hap_r_texture(rgba: Seq<u8>, width: int, height: int, o: EncodeOptions)
    requires
        o.format == HapFormat::Hap7,
    ensures
        ({
            let src = crate::color::processed(rgba, o.color_range, o.alpha_mode);
            let t = image_texture(rgba, width, height, o);
            &&& t.alpha is None
            &&& o.quality == QualityPreset::Draft ==> t.blocks == crate::bc7::encoded_image(
                src,
                width,
                height,
                1,
            )
            &&& o.quality == QualityPreset::Production ==> t.blocks == crate::bc7::encoded_image(
                src,
                width,
                height,
                2,
            )
        }),
{
}

/// The pixels of a frame in the HDR format: those of its blocks with unsigned endpoints for the type
/// 2 in the low half, with signed ones for 3. The lowest byte of a decoded pixel is blue, the next
/// green and the next red; the picture is opaque.
#[verifier::spinoff_prover]
#[verifier::rlimit(40)]
pub proof fn law_hdr_pixels(blocks: Seq<u8>, width: int, height: int, signed: bool, p: int)
    requires
        crate::dxt::whole_blocks(width, height),
        blocks.len() >= (width / 4) * (height / 4) * 16,
        0 < width,
        0 < height,
        forall|b: int|
            0 <= 16 * b < blocks.len() ==> (#[trigger] blocks[16 * b]) % 32 != 15,
        0 <= p,
    ensures
        ({
            let n = (width / 4) * (height / 4) * 16;
            let got = crate::decoder::pixels_of(
                if signed {
                    3
                } else {
                    2
                },
                blocks,
                width,
                height,
            );
            let px = if signed {
                crate::bc6h::signed_pixels(blocks.subrange(0, n), width, height)
            } else {
                crate::bc6h::unsigned_pixels(blocks.subrange(0, n), width, height)
            };
            &&& got is Ok
            &&& got->Ok_0.len() == 4 * px.len()
            &&& p < px.len() ==> {
                let q = got->Ok_0;
                &&& q[4 * p + 3] == 255
                &&& px[p] as int % 0x100_0000 == 256 * (256 * q[4 * p] + q[4 * p + 1]) + q[4 * p
                    + 2]
            }
        }),
{
    let n = (width / 4) * (height / 4) * 16;
    let cut = blocks.subrange(0, n);
    assert(n >= 0) by (nonlinear_arith)
        requires
            n == (width / 4) * (height / 4) * 16,
            0 < width,
            0 < height,
    ;
    assert(!crate::bc6h::has_wide_block(cut, 0)) by {
        assert forall|b: int| 0 <= b && 16 * b < cut.len() implies !crate::bc6h::is_wide(
            #[trigger] cut[16 * b],
        ) by {
            assert(cut[16 * b] == blocks[16 * b]);
        }
    }
}

/// A frame that is encoded without options is taken as it is: of the full range, with its alpha
/// channel, without dithering, in the best quality, in the format and the chunks that were asked for.
pub proof fn law_plain_options(format: HapFormat, chunk_count: usize, use_snappy: bool)
    ensures
        ({
            let o = plain_options(format, chunk_count, use_snappy);
            &&& o.format == format && o.chunk_count == chunk_count && o.use_snappy == use_snappy
            &&& o.color_range == ColorRange::Full && o.alpha_mode == AlphaMode::Straight
            &&& o.dither_mode != DitherMode::Bayer4x4 && o.quality != QualityPreset::Draft
            &&& forall|rgba: Seq<u8>| #[trigger]
                crate::color::processed(rgba, o.color_range, o.alpha_mode) == rgba
        }),
{
    let o = plain_options(format, chunk_count, use_snappy);
    assert forall|rgba: Seq<u8>| #[trigger]
        crate::color::processed(rgba, o.color_range, o.alpha_mode) == rgba by {
        assert(crate::color::processed(rgba, o.color_range, o.alpha_mode) =~= rgba);
    }
}

} // verus!
