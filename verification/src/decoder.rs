//! Decoding of whole frames, to textures and to pixels.

use crate::bc6h::{decompress_bc6h, Bc6hError, Bc6hFault};
use crate::bc7::{decompress_bc7, Bc7Error};
use crate::dxt::{decompress_bc1, decompress_bc3, decompress_bc4, BlockFormat, DxtError};
use crate::format::HapFormat;
use crate::header::{DecodeInstructions, HeaderError, HeaderFault, SectionHeader};
use crate::snappy::{decompress_chunks_parallel, decompress_snappy, SnappyError, SnappyFault};
use crate::text::push_hex;
use crate::ycocg::decode_scaled_ycocg_bc3_direct;
use vstd::prelude::*;
use vstd::slice::{slice_subrange, slice_to_vec};

verus! {

/// Errors of decoding a frame.
#[derive(Debug)]
pub enum DecodeError {
    /// A section header or a chunk table is malformed.
    Header(HeaderError),
    /// A compressed payload cannot be read.
    Snappy(SnappyError),
    /// DXT blocks do not fit the image.
    Dxt(DxtError),
    /// BC7 blocks do not fit the image.
    Bc7(Bc7Error),
    /// BC6H blocks do not fit the image.
    Bc6h(Bc6hError),
    /// The dimensions are not multiples of 4.
    InvalidDimensions { width: usize, height: usize },
    /// The frame is not one that can be decoded.
    CorruptFrame(String),
}

/// A decode error, with its texts as characters.
pub enum DecodeFault {
    Header(HeaderFault),
    Snappy(SnappyFault),
    Dxt(DxtError),
    Bc7(Bc7Error),
    Bc6h(Bc6hFault),
    InvalidDimensions { width: int, height: int },
    CorruptFrame(Seq<char>),
}

impl View for DecodeError {
    type V = DecodeFault;

    open spec fn view(&self) -> DecodeFault {
        match *self {
            DecodeError::Header(e) => DecodeFault::Header(e@),
            DecodeError::Snappy(e) => DecodeFault::Snappy(e@),
            DecodeError::Dxt(e) => DecodeFault::Dxt(e),
            DecodeError::Bc7(e) => DecodeFault::Bc7(e),
            DecodeError::Bc6h(e) => DecodeFault::Bc6h(e@),
            DecodeError::InvalidDimensions { width, height } => DecodeFault::InvalidDimensions {
                width: width as int,
                height: height as int,
            },
            DecodeError::CorruptFrame(m) => DecodeFault::CorruptFrame(m@),
        }
    }
}

/// The texture of a frame, ready to be uploaded to a graphics card.
#[derive(Debug, Clone)]
pub struct RawTextureFrame {
    /// The flavour of the frame.
    pub format: HapFormat,
    /// The blocks of the (colour) texture.
    pub texture_bytes: Vec<u8>,
    /// The blocks of the alpha texture of a Hap Q Alpha frame.
    pub alpha_bytes: Option<Vec<u8>>,
}

/// The texture of a frame, with its blocks as sequences.
pub struct Texture {
    pub format: HapFormat,
    pub blocks: Seq<u8>,
    pub alpha: Option<Seq<u8>>,
}

impl View for RawTextureFrame {
    type V = Texture;

    open spec fn view(&self) -> Texture {
        Texture {
            format: self.format,
            blocks: self.texture_bytes@,
            alpha: match self.alpha_bytes {
                Some(a) => Some(a@),
                None => None,
            },
        }
    }
}

/// A section found at the start of a buffer: its type, its data, and what follows it.
pub struct Framed {
    pub section_type: u8,
    pub data: Seq<u8>,
    pub rest: Seq<u8>,
}

/// The section at the start of a buffer.
pub open spec fn framed(buf: Seq<u8>) -> Result<Framed, DecodeFault> {
    match crate::header::header_of(buf) {
        Err(e) => Err(DecodeFault::Header(e)),
        Ok(h) => {
            let end = h.header_size + h.data_size;
            if end > buf.len() {
                Err(
                    DecodeFault::Header(
                        HeaderFault::Truncated {
                            need: crate::header::capped(end),
                            have: buf.len() as int,
                        },
                    ),
                )
            } else {
                Ok(
                    Framed {
                        section_type: h.section_type,
                        data: buf.subrange(h.header_size as int, end),
                        rest: buf.subrange(end, buf.len() as int),
                    },
                )
            }
        },
    }
}

/// The type of the section at the start of a buffer, whether or not its data is all there.
pub open spec fn first_type(buf: Seq<u8>) -> Option<u8> {
    match crate::header::header_of(buf) {
        Err(_) => None,
        Ok(h) => Some(h.section_type),
    }
}

/// What a chunked payload holds: decode instructions, and the chunks after them.
pub open spec fn chunked_content(payload: Seq<u8>) -> Result<Seq<u8>, DecodeFault> {
    if first_type(payload) is Some && first_type(payload) != Some(0x01u8) {
        Err(
            DecodeFault::CorruptFrame(
                "Expected 0x01 decode instructions container, got 0x"@ + crate::text::hex(
                    first_type(payload)->0 as int,
                ),
            ),
        )
    } else {
        match framed(payload) {
            Err(e) => Err(e),
            Ok(s) => match crate::header::instructions_of(s.data) {
                Err(e) => Err(DecodeFault::Header(e)),
                Ok(chunks) => match crate::snappy::chunks_content(s.rest, chunks) {
                    Err(e) => Err(DecodeFault::Snappy(e)),
                    Ok(v) => Ok(v),
                },
            },
        }
    }
}

/// What a section payload holds, by the compressor in the high half of the section type.
pub open spec fn unpacked(section_type: u8, payload: Seq<u8>) -> Result<Seq<u8>, DecodeFault> {
    let compressor = section_type as int / 16;
    if compressor == 0x0A {
        Ok(payload)
    } else if compressor == 0x0B {
        match crate::snappy::unpacked(payload) {
            Err(e) => Err(DecodeFault::Snappy(e)),
            Ok(v) => Ok(v),
        }
    } else if compressor == 0x0C {
        chunked_content(payload)
    } else {
        Err(
            DecodeFault::CorruptFrame(
                "Unsupported compressor high-nibble: 0x"@ + crate::text::hex(compressor),
            ),
        )
    }
}

/// What the section at the start of a buffer holds, and what follows it.
pub open spec fn unpacked_section(buf: Seq<u8>) -> Result<(Seq<u8>, Seq<u8>), DecodeFault> {
    match framed(buf) {
        Err(e) => Err(e),
        Ok(s) => match unpacked(s.section_type, s.data) {
            Err(e) => Err(e),
            Ok(v) => Ok((v, s.rest)),
        },
    }
}

/// The two textures of a Hap Q Alpha payload: colour, then alpha.
pub open spec fn unpacked_pair(payload: Seq<u8>) -> Result<(Seq<u8>, Seq<u8>), DecodeFault> {
    match unpacked_section(payload) {
        Err(e) => Err(e),
        Ok((colour, rest)) => match unpacked_section(rest) {
            Err(e) => Err(e),
            Ok((alpha, _)) => Ok((colour, alpha)),
        },
    }
}

/// The flavour that the low half of a section type stands for.
pub open spec fn format_of(nibble: int) -> Option<HapFormat> {
    if nibble == 0x0B {
        Some(HapFormat::Hap1)
    } else if nibble == 0x0E {
        Some(HapFormat::Hap5)
    } else if nibble == 0x0F {
        Some(HapFormat::HapY)
    } else if nibble == 0x01 {
        Some(HapFormat::HapA)
    } else if nibble == 0x0C {
        Some(HapFormat::Hap7)
    } else if nibble == 0x02 || nibble == 0x03 {
        Some(HapFormat::HapH)
    } else {
        None
    }
}

/// The texture that a packet holds.
pub open spec fn texture_of(packet: Seq<u8>) -> Result<Texture, DecodeFault> {
    match framed(packet) {
        Err(e) => Err(e),
        Ok(s) => if s.section_type == 0x0D {
            match unpacked_pair(s.data) {
                Err(e) => Err(e),
                Ok((colour, alpha)) => Ok(
                    Texture { format: HapFormat::HapM, blocks: colour, alpha: Some(alpha) },
                ),
            }
        } else {
            match unpacked(s.section_type, s.data) {
                Err(e) => Err(e),
                Ok(blocks) => match format_of(s.section_type as int % 16) {
                    None => Err(
                        DecodeFault::CorruptFrame(
                            "Unknown low nibble format 0x"@ + crate::text::hex(
                                s.section_type as int % 16,
                            ),
                        ),
                    ),
                    Some(format) => Ok(Texture { format, blocks, alpha: None }),
                },
            }
        },
    }
}

/// The pixels of a Hap Q texture.
pub open spec fn hap_q_pixels(blocks: Seq<u8>, width: int, height: int) -> Result<
    Seq<u8>,
    DecodeFault,
> {
    match crate::ycocg::hap_q_outcome(blocks.len() as int, width, height) {
        Err(e) => Err(DecodeFault::Dxt(e)),
        Ok(_) => Ok(crate::ycocg::hap_q_image(blocks, width, width * height * 4)),
    }
}

/// A DXT outcome as the outcome of a frame.
pub open spec fn from_dxt(r: Result<Seq<u8>, DxtError>) -> Result<Seq<u8>, DecodeFault> {
    match r {
        Ok(v) => Ok(v),
        Err(e) => Err(DecodeFault::Dxt(e)),
    }
}

/// A BC6H outcome as the outcome of a frame.
pub open spec fn from_bc6h(r: Result<Seq<u8>, Bc6hFault>) -> Result<Seq<u8>, DecodeFault> {
    match r {
        Ok(v) => Ok(v),
        Err(e) => Err(DecodeFault::Bc6h(e)),
    }
}

/// The pixels of a texture whose flavour the low half of the section type gives.
pub open spec fn pixels_of(nibble: int, blocks: Seq<u8>, width: int, height: int) -> Result<
    Seq<u8>,
    DecodeFault,
> {
    if nibble == 0x0B {
        from_dxt(crate::dxt::decompressed(BlockFormat::Bc1, blocks, width, height))
    } else if nibble == 0x0E {
        from_dxt(crate::dxt::decompressed(BlockFormat::Bc3, blocks, width, height))
    } else if nibble == 0x0F {
        hap_q_pixels(blocks, width, height)
    } else if nibble == 0x01 {
        match crate::dxt::channel_decompressed(blocks, width, height) {
            Ok(a) => Ok(crate::dxt::splat(a)),
            Err(e) => Err(DecodeFault::Dxt(e)),
        }
    } else if nibble == 0x0C {
        match crate::bc7::decompressed(blocks, width, height) {
            Ok(v) => Ok(v),
            Err(e) => Err(DecodeFault::Bc7(e)),
        }
    } else if nibble == 0x02 {
        from_bc6h(crate::bc6h::decompressed(blocks, width, height, false))
    } else if nibble == 0x03 {
        from_bc6h(crate::bc6h::decompressed(blocks, width, height, true))
    } else {
        Err(
            DecodeFault::CorruptFrame(
                "Unsupported format low-nibble: 0x"@ + crate::text::hex(nibble),
            ),
        )
    }
}

/// An image with another alpha channel.
pub open spec fn with_alpha_channel(rgba: Seq<u8>, alpha: Seq<u8>) -> Seq<u8> {
    Seq::new(
        rgba.len(),
        |i: int|
            if i % 4 == 3 {
                alpha[i / 4]
            } else {
                rgba[i]
            },
    )
}

/// The pixels of a Hap Q Alpha frame.
pub open spec fn pair_pixels(
    colour: Seq<u8>,
    alpha: Seq<u8>,
    width: int,
    height: int,
) -> Result<Seq<u8>, DecodeFault> {
    match hap_q_pixels(colour, width, height) {
        Err(e) => Err(e),
        Ok(rgba) => match crate::dxt::channel_decompressed(alpha, width, height) {
            Err(e) => Err(DecodeFault::Dxt(e)),
            Ok(a) => Ok(with_alpha_channel(rgba, a)),
        },
    }
}

/// The pixels that a packet holds.
pub open spec fn rgba_of(packet: Seq<u8>, width: int, height: int) -> Result<
    Seq<u8>,
    DecodeFault,
> {
    if !crate::dxt::whole_blocks(width, height) {
        Err(DecodeFault::InvalidDimensions { width, height })
    } else {
        match framed(packet) {
            Err(e) => Err(e),
            Ok(s) => if s.section_type == 0x0D {
                match unpacked_pair(s.data) {
                    Err(e) => Err(e),
                    Ok((colour, alpha)) => pair_pixels(colour, alpha, width, height),
                }
            } else {
                match unpacked(s.section_type, s.data) {
                    Err(e) => Err(e),
                    Ok(blocks) => pixels_of(s.section_type as int % 16, blocks, width, height),
                }
            },
        }
    }
}

/// The outcome is the one wanted.
pub open spec fn agrees(
    r: Result<Vec<u8>, DecodeError>,
    want: Result<Seq<u8>, DecodeFault>,
) -> bool {
    match r {
        Ok(v) => want == Ok::<Seq<u8>, DecodeFault>(v@),
        Err(e) => want == Err::<Seq<u8>, DecodeFault>(e@),
    }
}

/// Finds the section at the start of a buffer: its type, and where its data begins and ends.
fn find_section(buf: &[u8]) -> (r: Result<(u8, usize, usize), DecodeError>)
    ensures
        match r {
            Ok((section_type, start, end)) => {
                &&& start <= end <= buf@.len()
                &&& framed(buf@) == Ok::<Framed, DecodeFault>(
                    Framed {
                        section_type,
                        data: buf@.subrange(start as int, end as int),
                        rest: buf@.subrange(end as int, buf@.len() as int),
                    },
                )
            },
            Err(e) => framed(buf@) == Err::<Framed, DecodeFault>(e@),
        },
{
    let hdr = match SectionHeader::parse(buf) {
        Ok(h) => h,
        Err(e) => return Err(DecodeError::Header(e)),
    };
    if hdr.data_size > buf.len() - hdr.header_size {
        return Err(
            DecodeError::Header(
                HeaderError::Truncated {
                    need: hdr.header_size.saturating_add(hdr.data_size),
                    have: buf.len(),
                },
            ),
        );
    }
    Ok((hdr.section_type, hdr.header_size, hdr.header_size + hdr.data_size))
}

/// A message that ends in a byte in hexadecimal.
fn with_hex(text: &str, b: u8) -> (m: String)
    ensures
        m@ == text@ + crate::text::hex(b as int),
{
    let mut m: String = text.to_owned();
    push_hex(&mut m, b);
    m
}

/// Unpacks a section payload to blocks, by the compressor in the high half of the section type.
pub fn unpack_section_payload(section_type: u8, payload: &[u8]) -> (r: Result<
    Vec<u8>,
    DecodeError,
>)
    ensures
        agrees(r, unpacked(section_type, payload@)),
{
    match section_type / 16 {
        0x0A => Ok(slice_to_vec(payload)),
        0x0B => match decompress_snappy(payload) {
            Ok(v) => Ok(v),
            Err(e) => Err(DecodeError::Snappy(e)),
        },
        0x0C => unpack_chunks(payload),
        other => Err(
            DecodeError::CorruptFrame(with_hex("Unsupported compressor high-nibble: 0x", other)),
        ),
    }
}

/// Unpacks a chunked payload.
fn unpack_chunks(payload: &[u8]) -> (r: Result<Vec<u8>, DecodeError>)
    ensures
        agrees(r, chunked_content(payload@)),
{
    let hdr = match SectionHeader::parse(payload) {
        Ok(h) => h,
        Err(e) => return Err(DecodeError::Header(e)),
    };
    if hdr.section_type != 0x01 {
        return Err(
            DecodeError::CorruptFrame(
                with_hex("Expected 0x01 decode instructions container, got 0x", hdr.section_type),
            ),
        );
    }
    let (_, start, end) = match find_section(payload) {
        Ok(s) => s,
        Err(e) => return Err(e),
    };
    let instructions = match DecodeInstructions::parse(slice_subrange(payload, start, end)) {
        Ok(d) => d,
        Err(e) => return Err(DecodeError::Header(e)),
    };
    match decompress_chunks_parallel(
        slice_subrange(payload, end, payload.len()),
        instructions.chunks.as_slice(),
    ) {
        Ok(v) => Ok(v),
        Err(e) => Err(DecodeError::Snappy(e)),
    }
}

/// Unpacks the section at the start of a buffer and says where it ends.
fn unpack_section(buf: &[u8]) -> (r: Result<(Vec<u8>, usize), DecodeError>)
    ensures
        match r {
            Ok((v, end)) => {
                &&& end <= buf@.len()
                &&& unpacked_section(buf@) == Ok::<(Seq<u8>, Seq<u8>), DecodeFault>(
                    (v@, buf@.subrange(end as int, buf@.len() as int)),
                )
            },
            Err(e) => unpacked_section(buf@) == Err::<(Seq<u8>, Seq<u8>), DecodeFault>(e@),
        },
{
    let (section_type, start, end) = match find_section(buf) {
        Ok(s) => s,
        Err(e) => return Err(e),
    };
    match unpack_section_payload(section_type, slice_subrange(buf, start, end)) {
        Ok(v) => Ok((v, end)),
        Err(e) => Err(e),
    }
}

/// Unpacks the colour and the alpha texture of a Hap Q Alpha payload.
fn unpack_pair(payload: &[u8]) -> (r: Result<(Vec<u8>, Vec<u8>), DecodeError>)
    ensures
        match r {
            Ok((colour, alpha)) => unpacked_pair(payload@) == Ok::<
                (Seq<u8>, Seq<u8>),
                DecodeFault,
            >((colour@, alpha@)),
            Err(e) => unpacked_pair(payload@) == Err::<(Seq<u8>, Seq<u8>), DecodeFault>(e@),
        },
{
    let (colour, end) = match unpack_section(payload) {
        Ok(s) => s,
        Err(e) => return Err(e),
    };
    match unpack_section(slice_subrange(payload, end, payload.len())) {
        Ok((alpha, _)) => Ok((colour, alpha)),
        Err(e) => Err(e),
    }
}

/// Decodes a packet to the block-compressed texture that it holds.
pub fn decode_frame_to_texture(packet: &[u8]) -> (r: Result<RawTextureFrame, DecodeError>)
    ensures
        match r {
            Ok(t) => texture_of(packet@) == Ok::<Texture, DecodeFault>(t@),
            Err(e) => texture_of(packet@) == Err::<Texture, DecodeFault>(e@),
        },
{
    let (section_type, start, end) = match find_section(packet) {
        Ok(s) => s,
        Err(e) => return Err(e),
    };
    let payload = slice_subrange(packet, start, end);
    if section_type == 0x0D {
        let (colour, alpha) = match unpack_pair(payload) {
            Ok(p) => p,
            Err(e) => return Err(e),
        };
        return Ok(
            RawTextureFrame {
                format: HapFormat::HapM,
                texture_bytes: colour,
                alpha_bytes: Some(alpha),
            },
        );
    }
    let texture_bytes = match unpack_section_payload(section_type, payload) {
        Ok(v) => v,
        Err(e) => return Err(e),
    };
    let format = match section_type % 16 {
        0x0B => HapFormat::Hap1,
        0x0E => HapFormat::Hap5,
        0x0F => HapFormat::HapY,
        0x01 => HapFormat::HapA,
        0x0C => HapFormat::Hap7,
        0x02 | 0x03 => HapFormat::HapH,
        other => return Err(
            DecodeError::CorruptFrame(with_hex("Unknown low nibble format 0x", other)),
        ),
    };
    Ok(RawTextureFrame { format, texture_bytes, alpha_bytes: None })
}

/// The bytes of an image are whole lines of blocks.
proof fn lemma_image_len(width: int, height: int)
    requires
        0 <= width,
        0 <= height,
        crate::dxt::whole_blocks(width, height),
    ensures
        0 <= width * height <= width * height * 4,
        width == 0 ==> width * height * 4 == 0,
        width > 0 ==> (width * height * 4) % (width * 16) == 0,
        width > 0 ==> (width * height * 4) / (width * 16) == height / 4,
        (height / 4) * (width / 4) * 16 == (width / 4) * (height / 4) * 16,
{
    let rows = height / 4;
    assert(width * height * 4 == rows * (width * 16) && 0 <= width * height) by (nonlinear_arith)
        requires
            0 <= width,
            0 <= height,
            height == 4 * rows,
    ;
    assert(rows * (width / 4) == (width / 4) * rows) by (nonlinear_arith);
    if width > 0 {
        vstd::arithmetic::div_mod::lemma_fundamental_div_mod_converse(
            width * height * 4,
            width * 16,
            rows,
            0,
        );
    }
}

/// Decodes a Hap Q texture to pixels.
fn decode_hap_q(blocks: &[u8], width: usize, height: usize) -> (r: Result<Vec<u8>, DecodeError>)
    requires
        crate::dxt::addressable(width as int, height as int),
        crate::dxt::whole_blocks(width as int, height as int),
    ensures
        agrees(r, hap_q_pixels(blocks@, width as int, height as int)),
        r matches Ok(v) ==> v@.len() == width * height * 4,
{
    proof {
        lemma_image_len(width as int, height as int);
    }
    let mut rgba: Vec<u8> = vec![0u8; width * height * 4];
    match decode_scaled_ycocg_bc3_direct(blocks, width, height, rgba.as_mut_slice()) {
        Ok(_) => Ok(rgba),
        Err(e) => Err(DecodeError::Dxt(e)),
    }
}

/// Replaces the alpha channel of an image.
pub fn set_alpha(rgba: &mut Vec<u8>, alpha: &Vec<u8>)
    requires
        old(rgba)@.len() == 4 * alpha@.len(),
    ensures
        final(rgba)@ == with_alpha_channel(old(rgba)@, alpha@),
{
    let mut i: usize = 0;
    assert(rgba@.len() == rgba.len());
    while i < alpha.len()
        invariant
            i <= alpha@.len(),
            rgba@.len() == old(rgba)@.len(),
            rgba@.len() == 4 * alpha@.len(),
            rgba@.len() <= usize::MAX,
            forall|j: int|
                0 <= j < 4 * i ==> #[trigger] rgba@[j] == with_alpha_channel(
                    old(rgba)@,
                    alpha@,
                )[j],
            forall|j: int| 4 * i <= j < rgba@.len() ==> #[trigger] rgba@[j] == old(rgba)@[j],
        decreases alpha@.len() - i,
    {
        rgba.set(i * 4 + 3, alpha[i]);
        i = i + 1;
    }
    assert(rgba@ =~= with_alpha_channel(old(rgba)@, alpha@));
}

/// Repeats one channel in all four.
pub fn splat_channel(channel: &Vec<u8>) -> (rgba: Vec<u8>)
    ensures
        rgba@ == crate::dxt::splat(channel@),
{
    let mut rgba: Vec<u8> = Vec::new();
    let mut i: usize = 0;
    while i < channel.len()
        invariant
            i <= channel@.len(),
            rgba@.len() == 4 * i,
            forall|j: int| 0 <= j < 4 * i ==> #[trigger] rgba@[j] == channel@[j / 4],
        decreases channel@.len() - i,
    {
        let a: u8 = channel[i];
        rgba.push(a);
        rgba.push(a);
        rgba.push(a);
        rgba.push(a);
        i = i + 1;
    }
    assert(rgba@ =~= crate::dxt::splat(channel@));
    rgba
}

/// Decodes a Hap Q Alpha frame to pixels.
fn decode_pair(colour: &[u8], alpha: &[u8], width: usize, height: usize) -> (r: Result<
    Vec<u8>,
    DecodeError,
>)
    requires
        crate::dxt::addressable(width as int, height as int),
        crate::dxt::whole_blocks(width as int, height as int),
    ensures
        agrees(r, pair_pixels(colour@, alpha@, width as int, height as int)),
        r matches Ok(v) ==> v@.len() == width * height * 4,
{
    let mut rgba = match decode_hap_q(colour, width, height) {
        Ok(v) => v,
        Err(e) => return Err(e),
    };
    let channel = match decompress_bc4(alpha, width, height) {
        Ok(v) => v,
        Err(e) => return Err(DecodeError::Dxt(e)),
    };
    set_alpha(&mut rgba, &channel);
    Ok(rgba)
}

/// Decodes a texture to pixels, by the low half of its section type.
fn decode_texture(nibble: u8, blocks: &[u8], width: usize, height: usize) -> (r: Result<
    Vec<u8>,
    DecodeError,
>)
    requires
        crate::dxt::addressable(width as int, height as int),
        crate::dxt::whole_blocks(width as int, height as int),
    ensures
        agrees(r, pixels_of(nibble as int, blocks@, width as int, height as int)),
        r matches Ok(v) ==> v@.len() == width * height * 4,
        r is Ok && nibble == 0x0C ==> forall|b: int|
            0 <= b < (width / 4) * (height / 4) ==> #[trigger] crate::blocks::shows_block(
                blocks@,
                b,
            ),
{
    match nibble {
        0x0B => match decompress_bc1(blocks, width, height) {
            Ok(v) => Ok(v),
            Err(e) => Err(DecodeError::Dxt(e)),
        },
        0x0E => match decompress_bc3(blocks, width, height) {
            Ok(v) => Ok(v),
            Err(e) => Err(DecodeError::Dxt(e)),
        },
        0x0F => decode_hap_q(blocks, width, height),
        0x01 => match decompress_bc4(blocks, width, height) {
            Ok(v) => Ok(splat_channel(&v)),
            Err(e) => Err(DecodeError::Dxt(e)),
        },
        0x0C => match decompress_bc7(blocks, width, height) {
            Ok(v) => Ok(v),
            Err(e) => Err(DecodeError::Bc7(e)),
        },
        0x02 => match decompress_bc6h(blocks, width, height, false) {
            Ok(v) => Ok(v),
            Err(e) => Err(DecodeError::Bc6h(e)),
        },
        0x03 => match decompress_bc6h(blocks, width, height, true) {
            Ok(v) => Ok(v),
            Err(e) => Err(DecodeError::Bc6h(e)),
        },
        other => Err(
            DecodeError::CorruptFrame(with_hex("Unsupported format low-nibble: 0x", other)),
        ),
    }
}

/// Decodes a packet to an RGBA8 image of four bytes for each pixel.
///
/// Where the packet holds BC7 blocks, a block of mode 6 is decoded to the palette entries that
/// its indices choose.
pub fn decode_frame_to_rgba(packet: &[u8], width: usize, height: usize) -> (r: Result<
    Vec<u8>,
    DecodeError,
>)
    requires
        crate::dxt::addressable(width as int, height as int),
    ensures
        agrees(r, rgba_of(packet@, width as int, height as int)),
        r matches Ok(v) ==> v@.len() == width * height * 4,
        r is Ok && texture_of(packet@) is Ok && texture_of(packet@)->Ok_0.format == HapFormat::Hap7
            ==> forall|b: int|
            0 <= b < (width / 4) * (height / 4) ==> #[trigger] crate::blocks::shows_block(
                texture_of(packet@)->Ok_0.blocks,
                b,
            ),
{
    if width % 4 != 0 || height % 4 != 0 {
        return Err(DecodeError::InvalidDimensions { width, height });
    }
    let (section_type, start, end) = match find_section(packet) {
        Ok(s) => s,
        Err(e) => return Err(e),
    };
    let payload = slice_subrange(packet, start, end);
    if section_type == 0x0D {
        let (colour, alpha) = match unpack_pair(payload) {
            Ok(p) => p,
            Err(e) => return Err(e),
        };
        return decode_pair(colour.as_slice(), alpha.as_slice(), width, height);
    }
    let blocks = match unpack_section_payload(section_type, payload) {
        Ok(v) => v,
        Err(e) => return Err(e),
    };
    decode_texture(section_type % 16, blocks.as_slice(), width, height)
}

/// A chunked payload begins with a container of decode instructions, of type 1: any other section
/// there is refused. The chunks are counted from the end of the container on.
pub proof fn law_chunked_payload(kind: u8, instructions: Seq<u8>, chunks: Seq<u8>, nibble: int)
    requires
        instructions.len() <= u32::MAX,
        0 <= nibble < 16,
    ensures
        ({
            let payload = crate::header::section(kind, instructions) + chunks;
            let got = unpacked((0xC0 + nibble) as u8, payload);
            &&& kind != 0x01 ==> got is Err
            &&& kind == 0x01 ==> match crate::header::instructions_of(instructions) {
                Err(_) => got is Err,
                Ok(list) => match crate::snappy::chunks_content(chunks, list) {
                    Err(_) => got is Err,
                    Ok(v) => got == Ok::<Seq<u8>, DecodeFault>(v),
                },
            }
        }),
{
    let payload = crate::header::section(kind, instructions) + chunks;
    assert(payload.subrange(0, payload.len() as int) =~= payload);
    crate::header::lemma_section_at(payload, 0, kind, instructions, chunks);
}

/// Pixels are asked for in whole blocks: dimensions that are not multiples of 4 are refused before
/// the packet is read.
pub proof fn law_dimensions_first(packet: Seq<u8>, width: int, height: int)
    requires
        width % 4 != 0 || height % 4 != 0,
    ensures
        rgba_of(packet, width, height) == Err::<Seq<u8>, DecodeFault>(
            DecodeFault::InvalidDimensions { width, height },
        ),
{
}

/// Another alpha channel changes nothing but the alpha of every pixel.
pub proof fn law_alpha_replaced(rgba: Seq<u8>, alpha: Seq<u8>, p: int, c: int)
    requires
        0 <= c < 3,
        0 <= p,
        4 * p + 4 <= rgba.len(),
    ensures
        with_alpha_channel(rgba, alpha).len() == rgba.len(),
        with_alpha_channel(rgba, alpha)[4 * p + c] == rgba[4 * p + c],
        with_alpha_channel(rgba, alpha)[4 * p + 3] == alpha[p],
{
}

} // verus!
