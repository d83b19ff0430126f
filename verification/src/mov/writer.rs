//! Writing of QuickTime movies.
//!
//! The writer says which bytes go where; putting them there is left to the caller.

use crate::bytes::{push_all, push_be16, push_be32, push_be64, push_zeros};
use crate::format::HapFormat;
use crate::mov::atoms::{
    create_atom, write_atom_header, ATOM_ALIS, ATOM_CO64, ATOM_DINF, ATOM_DREF, ATOM_FTYP,
    ATOM_HDLR, ATOM_MDAT, ATOM_MDHD, ATOM_MDIA, ATOM_MINF, ATOM_MOOV, ATOM_MVHD, ATOM_STBL,
    ATOM_STCO, ATOM_STSC, ATOM_STSD, ATOM_STSZ, ATOM_STTS, ATOM_TKHD, ATOM_TRAK, ATOM_VMHD,
    BRAND_QT, HANDLER_VIDE,
};
use crate::single::Single;
use vstd::prelude::*;
use vstd::slice::slice_subrange;

verus! {

/// Errors of writing a movie.
#[derive(Debug)]
pub enum MovWriterError {
    /// The movie is complete; nothing can be added.
    AlreadyFinalized,
    /// A movie has at least one frame.
    NoFramesWritten,
    /// The configuration does not describe a video.
    InvalidConfig(String),
}

/// A writer error, with its text as characters.
pub enum MovWriterFault {
    AlreadyFinalized,
    NoFramesWritten,
    InvalidConfig(Seq<char>),
}

impl View for MovWriterError {
    type V = MovWriterFault;

    open spec fn view(&self) -> MovWriterFault {
        match *self {
            MovWriterError::AlreadyFinalized => MovWriterFault::AlreadyFinalized,
            MovWriterError::NoFramesWritten => MovWriterFault::NoFramesWritten,
            MovWriterError::InvalidConfig(m) => MovWriterFault::InvalidConfig(m@),
        }
    }
}

/// The name that the handler atom carries, with a zero byte at its end.
pub const HANDLER_NAME: [u8; 18] = [0x48, 0x41, 0x50, 0x20, 0x56, 0x69, 0x64, 0x65, 0x6F, 0x20, 0x48, 0x61, 0x6E, 0x64, 0x6C, 0x65, 0x72, 0x00];

/// The settings of a video track.
#[derive(Debug, Clone, Copy)]
pub struct VideoConfig {
    pub width: u32,
    pub height: u32,
    /// Frames per second.
    pub fps: Single,
    pub format: HapFormat,
    /// Time units per second.
    pub timescale: u32,
}

/// The two rates are the same to a hundredth.
pub open spec fn close_to(fps: Single, rate: Single) -> bool {
    crate::single::less(
        crate::single::magnitude(crate::single::difference(fps, rate)),
        crate::single::ratio(1, 100),
    )
}

/// The time units per second for a frame rate: the broadcast rates have a thousand units for each
/// frame of the next whole rate, the others a thousand for each frame.
pub open spec fn timescale_for(fps: Single) -> int {
    if close_to(fps, crate::single::ratio(2997, 100)) {
        30000
    } else if close_to(fps, crate::single::ratio(5994, 100)) {
        60000
    } else if close_to(fps, crate::single::ratio(23976, 1000)) {
        24000
    } else {
        crate::single::nearest_within(
            crate::single::product(fps, crate::single::whole_number(1000)),
            0,
            u32::MAX as int,
        )
    }
}

/// Whether two rates are the same to a hundredth.
fn is_close(fps: Single, rate: Single) -> (r: bool)
    requires
        fps.wf(),
        rate.wf(),
    ensures
        r == close_to(fps, rate),
{
    fps.minus(rate).abs().lt(Single::from_ratio(1, 100))
}

impl VideoConfig {
    /// The time units that a frame is shown for.
    pub open spec fn frame_units(self) -> int {
        crate::single::nearest_within(
            crate::single::quotient(crate::single::whole_number(self.timescale as int), self.fps),
            0,
            u32::MAX as int,
        )
    }

    /// The settings for a video of the given size and rate.
    pub fn new(width: u32, height: u32, fps: Single, format: HapFormat) -> (r: Self)
        requires
            fps.wf(),
        ensures
            r == (VideoConfig {
                width,
                height,
                fps,
                format,
                timescale: timescale_for(fps) as u32,
            }),
            r.timescale == timescale_for(fps),
    {
        let timescale: u32 = if is_close(fps, Single::from_ratio(2997, 100)) {
            30000
        } else if is_close(fps, Single::from_ratio(5994, 100)) {
            60000
        } else if is_close(fps, Single::from_ratio(23976, 1000)) {
            24000
        } else {
            fps.times(Single::from_u32(1000)).round_u32()
        };
        VideoConfig { width, height, fps, format, timescale }
    }

    /// The time units that a frame is shown for.
    pub fn sample_duration(&self) -> (r: u32)
        requires
            self.fps.wf(),
        ensures
            r == self.frame_units(),
    {
        Single::from_u32(self.timescale).over(self.fps).round_u32()
    }
}

/// Where a frame lies in the file.
#[derive(Debug, Clone, Copy)]
pub struct SampleInfo {
    pub offset: u64,
    pub size: u32,
}

// ---------------------------------------------------------------------------------------------
// What the atoms of a movie hold.
// ---------------------------------------------------------------------------------------------

/// The version, which is 0, and the flags of an atom.
pub open spec fn flags(f: u8) -> Seq<u8> {
    seq![0u8, 0u8, 0u8, f]
}

/// The unity display matrix.
pub open spec fn unity_matrix_bytes() -> Seq<u8> {
    crate::bytes::be32_bytes(0x1_0000) + crate::bytes::zeros(12) + crate::bytes::be32_bytes(
        0x1_0000,
    ) + crate::bytes::zeros(12) + crate::bytes::be32_bytes(0x4000_0000)
}

/// The movie header: time scale and duration, normal rate and volume.
#[verifier::opaque]
pub open spec fn mvhd_payload(config: VideoConfig, count: int) -> Seq<u8> {
    flags(0) + crate::bytes::zeros(8) + crate::bytes::be32_bytes(config.timescale as int)
        + crate::bytes::be32_bytes(count * config.frame_units()) + crate::bytes::be32_bytes(
        0x1_0000,
    ) + crate::bytes::be16_bytes(0x100) + crate::bytes::zeros(10) + unity_matrix_bytes()
        + crate::bytes::zeros(24) + crate::bytes::be32_bytes(2)
}

/// The track header: duration, and the dimensions as 16.16 fixed-point numbers.
#[verifier::opaque]
pub open spec fn tkhd_payload(config: VideoConfig, count: int) -> Seq<u8> {
    flags(0x0F) + crate::bytes::zeros(8) + crate::bytes::be32_bytes(1) + crate::bytes::zeros(4)
        + crate::bytes::be32_bytes(count * config.frame_units()) + crate::bytes::zeros(16)
        + unity_matrix_bytes() + crate::bytes::be32_bytes(config.width * 0x1_0000)
        + crate::bytes::be32_bytes(config.height * 0x1_0000)
}

/// The media header: time scale, duration, and no language.
#[verifier::opaque]
pub open spec fn mdhd_payload(config: VideoConfig, count: int) -> Seq<u8> {
    flags(0) + crate::bytes::zeros(8) + crate::bytes::be32_bytes(config.timescale as int)
        + crate::bytes::be32_bytes(count * config.frame_units()) + crate::bytes::be16_bytes(0x55C4)
        + crate::bytes::zeros(2)
}

/// The handler of video.
#[verifier::opaque]
pub open spec fn hdlr_payload() -> Seq<u8> {
    flags(0) + crate::bytes::zeros(4) + HANDLER_VIDE@ + crate::bytes::zeros(12) + HANDLER_NAME@
}

/// The video media header.
#[verifier::opaque]
pub open spec fn vmhd_payload() -> Seq<u8> {
    flags(1) + crate::bytes::zeros(8)
}

/// The data reference: the file itself.
#[verifier::opaque]
pub open spec fn dinf_payload() -> Seq<u8> {
    crate::mov::atoms::atom(
        ATOM_DREF,
        flags(0) + crate::bytes::be32_bytes(1) + crate::mov::atoms::atom(ATOM_ALIS, flags(1)),
    )
}

/// A compressor name: its length, as much of it as fits in 31 bytes, and zeros.
pub open spec fn pascal_name(name: Seq<u8>) -> Seq<u8> {
    let n = if name.len() > 31 {
        31
    } else {
        name.len() as int
    };
    seq![n as u8] + name.subrange(0, n) + crate::bytes::zeros(31 - n)
}

/// The sample description: format, dimensions, 72 dpi, name and depth.
#[verifier::opaque]
pub open spec fn sample_entry(config: VideoConfig) -> Seq<u8> {
    crate::bytes::zeros(6) + crate::bytes::be16_bytes(1) + crate::bytes::zeros(16)
        + crate::bytes::be16_bytes(config.width as int) + crate::bytes::be16_bytes(
        config.height as int,
    ) + crate::bytes::be32_bytes(0x48_0000) + crate::bytes::be32_bytes(0x48_0000)
        + crate::bytes::zeros(4) + crate::bytes::be16_bytes(1) + pascal_name(
        vstd::utf8::encode_utf8(config.format.title()),
    ) + crate::bytes::be16_bytes(
        if config.format.alpha() {
            32
        } else {
            24
        },
    ) + crate::bytes::be16_bytes(0xFFFF)
}

/// The sample description table, of one entry named like the format.
#[verifier::opaque]
pub open spec fn stsd_payload(config: VideoConfig) -> Seq<u8> {
    flags(0) + crate::bytes::be32_bytes(1) + (crate::bytes::be32_bytes(
        sample_entry(config).len() as int + 8,
    ) + config.format.code() + sample_entry(config))
}

/// The time table: all frames last alike.
#[verifier::opaque]
pub open spec fn stts_payload(config: VideoConfig, count: int) -> Seq<u8> {
    flags(0) + crate::bytes::be32_bytes(1) + crate::bytes::be32_bytes(count)
        + crate::bytes::be32_bytes(config.frame_units())
}

/// The chunk table: one sample in each chunk.
#[verifier::opaque]
pub open spec fn stsc_payload() -> Seq<u8> {
    flags(0) + crate::bytes::be32_bytes(1) + crate::bytes::be32_bytes(1)
        + crate::bytes::be32_bytes(1) + crate::bytes::be32_bytes(1)
}

/// The sizes of the samples, four bytes each.
pub open spec fn sample_sizes(samples: Seq<SampleInfo>) -> Seq<u8>
    decreases samples.len(),
{
    if samples.len() == 0 {
        Seq::empty()
    } else {
        sample_sizes(samples.drop_last()) + crate::bytes::be32_bytes(samples.last().size as int)
    }
}

/// The offsets of the samples, four bytes each.
pub open spec fn short_offsets(samples: Seq<SampleInfo>) -> Seq<u8>
    decreases samples.len(),
{
    if samples.len() == 0 {
        Seq::empty()
    } else {
        short_offsets(samples.drop_last()) + crate::bytes::be32_bytes(samples.last().offset as int)
    }
}

/// The offsets of the samples, eight bytes each.
pub open spec fn long_offsets(samples: Seq<SampleInfo>) -> Seq<u8>
    decreases samples.len(),
{
    if samples.len() == 0 {
        Seq::empty()
    } else {
        long_offsets(samples.drop_last()) + crate::bytes::be64_bytes(samples.last().offset as int)
    }
}

/// The size table.
#[verifier::opaque]
pub open spec fn stsz_payload(samples: Seq<SampleInfo>) -> Seq<u8> {
    flags(0) + crate::bytes::zeros(4) + crate::bytes::be32_bytes(samples.len() as int)
        + sample_sizes(samples)
}

/// The last offset needs more than four bytes.
pub open spec fn needs_long_offsets(samples: Seq<SampleInfo>) -> bool {
    samples.len() > 0 && samples.last().offset > 0xFFFF_FFFF
}

/// The offset table, with as many bytes for each offset as the last one needs.
pub open spec fn offset_atom(samples: Seq<SampleInfo>) -> Seq<u8> {
    if needs_long_offsets(samples) {
        crate::mov::atoms::atom(
            ATOM_CO64,
            flags(0) + crate::bytes::be32_bytes(samples.len() as int) + long_offsets(samples),
        )
    } else {
        crate::mov::atoms::atom(
            ATOM_STCO,
            flags(0) + crate::bytes::be32_bytes(samples.len() as int) + short_offsets(samples),
        )
    }
}

/// The sample table.
#[verifier::opaque]
pub open spec fn stbl_payload(config: VideoConfig, samples: Seq<SampleInfo>) -> Seq<u8> {
    crate::mov::atoms::atom(ATOM_STSD, stsd_payload(config)) + crate::mov::atoms::atom(
        ATOM_STTS,
        stts_payload(config, samples.len() as int),
    ) + crate::mov::atoms::atom(ATOM_STSC, stsc_payload()) + crate::mov::atoms::atom(
        ATOM_STSZ,
        stsz_payload(samples),
    ) + offset_atom(samples)
}

/// The media information.
#[verifier::opaque]
pub open spec fn minf_payload(config: VideoConfig, samples: Seq<SampleInfo>) -> Seq<u8> {
    crate::mov::atoms::atom(ATOM_VMHD, vmhd_payload()) + crate::mov::atoms::atom(
        ATOM_DINF,
        dinf_payload(),
    ) + crate::mov::atoms::atom(ATOM_STBL, stbl_payload(config, samples))
}

/// The media.
#[verifier::opaque]
pub open spec fn mdia_payload(config: VideoConfig, samples: Seq<SampleInfo>) -> Seq<u8> {
    crate::mov::atoms::atom(ATOM_MDHD, mdhd_payload(config, samples.len() as int))
        + crate::mov::atoms::atom(ATOM_HDLR, hdlr_payload()) + crate::mov::atoms::atom(
        ATOM_MINF,
        minf_payload(config, samples),
    )
}

/// The track.
#[verifier::opaque]
pub open spec fn trak_payload(config: VideoConfig, samples: Seq<SampleInfo>) -> Seq<u8> {
    crate::mov::atoms::atom(ATOM_TKHD, tkhd_payload(config, samples.len() as int))
        + crate::mov::atoms::atom(ATOM_MDIA, mdia_payload(config, samples))
}

/// The movie description.
pub open spec fn moov_payload(config: VideoConfig, samples: Seq<SampleInfo>) -> Seq<u8> {
    crate::mov::atoms::atom(ATOM_MVHD, mvhd_payload(config, samples.len() as int))
        + crate::mov::atoms::atom(ATOM_TRAK, trak_payload(config, samples))
}

/// What stands ahead of the frames: the file type, and the header of the media data with its
/// size in eight bytes.
pub open spec fn movie_head(mdat_size: int) -> Seq<u8> {
    crate::mov::atoms::atom(ATOM_FTYP, BRAND_QT@ + crate::bytes::be32_bytes(0) + BRAND_QT@)
        + crate::bytes::be32_bytes(1) + ATOM_MDAT@ + crate::bytes::be64_bytes(mdat_size)
}

/// Where the frame number `i` begins.
pub open spec fn frame_offset(frames: Seq<Seq<u8>>, i: int) -> int {
    36 + crate::snappy::joined(frames.subrange(0, i)).len() as int
}

/// Where the frames lie. A size keeps its low four bytes.
pub open spec fn sample_table(frames: Seq<Seq<u8>>) -> Seq<SampleInfo> {
    Seq::new(
        frames.len(),
        |i: int|
            SampleInfo {
                offset: frame_offset(frames, i) as u64,
                size: (frames[i].len() as int % 0x1_0000_0000) as u32,
            },
    )
}

/// A whole movie file: head, frames, description.
pub open spec fn movie(config: VideoConfig, frames: Seq<Seq<u8>>) -> Seq<u8> {
    movie_head(16 + crate::snappy::joined(frames).len() as int) + crate::snappy::joined(frames)
        + crate::mov::atoms::atom(ATOM_MOOV, moov_payload(config, sample_table(frames)))
}

/// What is in the file before the movie is finished.
pub open spec fn unfinished(frames: Seq<Seq<u8>>) -> Seq<u8> {
    movie_head(0) + crate::snappy::joined(frames)
}

// ---------------------------------------------------------------------------------------------
// Building the atoms.
// ---------------------------------------------------------------------------------------------

/// Appends the low four bytes of an integer.
fn push_low32(out: &mut Vec<u8>, v: u64)
    ensures
        final(out)@ == old(out)@ + crate::bytes::be32_bytes(v as int),
{
    push_be32(out, (v % 0x1_0000_0000) as u32);
    proof {
        crate::bytes::lemma_low_bytes(v as int);
        assert(crate::bytes::be32_bytes(v as int % 0x1_0000_0000) =~= crate::bytes::be32_bytes(
            v as int,
        ));
    }
}

/// Appends the low two bytes of an integer.
fn push_low16(out: &mut Vec<u8>, v: u32)
    ensures
        final(out)@ == old(out)@ + crate::bytes::be16_bytes(v as int),
{
    push_be16(out, (v % 0x1_0000) as u16);
    proof {
        let r = v as int % 0x1_0000;
        let a = v as int / 0x100;
        assert(v as int / 0x1_0000 == a / 0x100);
        assert(r == (a % 0x100) * 0x100 + v as int % 0x100);
        assert(r / 0x100 == a % 0x100);
        assert(crate::bytes::be16_bytes(r) =~= crate::bytes::be16_bytes(v as int));
    }
}

/// Appends a version of 0 and flags.
fn push_flags(out: &mut Vec<u8>, f: u8)
    ensures
        final(out)@ == old(out)@ + flags(f),
{
    let ghost before = out@;
    out.push(0);
    out.push(0);
    out.push(0);
    out.push(f);
    assert(out@ =~= before + flags(f));
}

/// A payload that begins with a version of 0 and flags.
fn start_payload(f: u8) -> (out: Vec<u8>)
    ensures
        out@ == flags(f),
{
    let mut out: Vec<u8> = Vec::new();
    push_flags(&mut out, f);
    assert(out@ =~= flags(f));
    out
}

/// The unity display matrix.
fn unity_matrix() -> (m: Vec<u8>)
    ensures
        m@ == unity_matrix_bytes(),
{
    let mut m: Vec<u8> = Vec::new();
    push_be32(&mut m, 0x1_0000);
    assert(m@ =~= crate::bytes::be32_bytes(0x1_0000));
    push_zeros(&mut m, 12);
    push_be32(&mut m, 0x1_0000);
    push_zeros(&mut m, 12);
    push_be32(&mut m, 0x4000_0000);
    m
}

/// Appends the duration of `count` frames of `units` time units.
fn push_duration(out: &mut Vec<u8>, count: usize, units: u32)
    ensures
        final(out)@ == old(out)@ + crate::bytes::be32_bytes(count * units),
{
    let low: u64 = count as u64 % 0x1_0000_0000;
    assert(low * units <= 0xFFFF_FFFF * 0xFFFF_FFFF) by (nonlinear_arith)
        requires
            0 <= low <= 0xFFFF_FFFF,
            0 <= units <= 0xFFFF_FFFF,
    ;
    let total: u64 = low * units as u64;
    push_low32(out, total);
    proof {
        let high = count as int / 0x1_0000_0000;
        let whole = count * units;
        let left = high * units;
        assert(whole == left * 0x1_0000_0000 + total) by (nonlinear_arith)
            requires
                whole == count * units,
                left == high * units,
                count == high * 0x1_0000_0000 + low,
                total == low * units,
        ;
        assert(whole % 0x1_0000_0000 == total as int % 0x1_0000_0000);
        crate::bytes::lemma_low_bytes(whole);
        crate::bytes::lemma_low_bytes(total as int);
        assert(crate::bytes::be32_bytes(whole) =~= crate::bytes::be32_bytes(total as int));
    }
}

/// Appends a dimension as a 16.16 fixed-point number.
fn push_fixed(out: &mut Vec<u8>, v: u32)
    ensures
        final(out)@ == old(out)@ + crate::bytes::be32_bytes(v * 0x1_0000),
{
    push_low32(out, v as u64 * 0x1_0000);
}

/// The movie header.
fn mvhd_atom(config: VideoConfig, count: usize, units: u32) -> (r: Vec<u8>)
    requires
        units == config.frame_units(),
    ensures
        r@ == crate::mov::atoms::atom(ATOM_MVHD, mvhd_payload(config, count as int)),
{
    proof {
        reveal(mvhd_payload);
    }
    let mut p: Vec<u8> = start_payload(0);
    push_zeros(&mut p, 8);
    push_be32(&mut p, config.timescale);
    push_duration(&mut p, count, units);
    push_be32(&mut p, 0x1_0000);
    push_be16(&mut p, 0x100);
    push_zeros(&mut p, 10);
    push_all(&mut p, unity_matrix().as_slice());
    push_zeros(&mut p, 24);
    push_be32(&mut p, 2);
    create_atom(ATOM_MVHD, p.as_slice())
}

/// The track header.
fn tkhd_atom(config: VideoConfig, count: usize, units: u32) -> (r: Vec<u8>)
    requires
        units == config.frame_units(),
    ensures
        r@ == crate::mov::atoms::atom(ATOM_TKHD, tkhd_payload(config, count as int)),
{
    proof {
        reveal(tkhd_payload);
    }
    let mut p: Vec<u8> = start_payload(0x0F);
    push_zeros(&mut p, 8);
    push_be32(&mut p, 1);
    push_zeros(&mut p, 4);
    push_duration(&mut p, count, units);
    push_zeros(&mut p, 16);
    push_all(&mut p, unity_matrix().as_slice());
    push_fixed(&mut p, config.width);
    push_fixed(&mut p, config.height);
    create_atom(ATOM_TKHD, p.as_slice())
}

/// The media header.
fn mdhd_atom(config: VideoConfig, count: usize, units: u32) -> (r: Vec<u8>)
    requires
        units == config.frame_units(),
    ensures
        r@ == crate::mov::atoms::atom(ATOM_MDHD, mdhd_payload(config, count as int)),
{
    proof {
        reveal(mdhd_payload);
    }
    let mut p: Vec<u8> = start_payload(0);
    push_zeros(&mut p, 8);
    push_be32(&mut p, config.timescale);
    push_duration(&mut p, count, units);
    push_be16(&mut p, 0x55C4);
    push_zeros(&mut p, 2);
    create_atom(ATOM_MDHD, p.as_slice())
}

/// The handler.
fn hdlr_atom() -> (r: Vec<u8>)
    ensures
        r@ == crate::mov::atoms::atom(ATOM_HDLR, hdlr_payload()),
{
    proof {
        reveal(hdlr_payload);
    }
    let mut p: Vec<u8> = start_payload(0);
    push_zeros(&mut p, 4);
    push_all(&mut p, HANDLER_VIDE.as_slice());
    push_zeros(&mut p, 12);
    push_all(&mut p, HANDLER_NAME.as_slice());
    create_atom(ATOM_HDLR, p.as_slice())
}

/// The video media header.
fn vmhd_atom() -> (r: Vec<u8>)
    ensures
        r@ == crate::mov::atoms::atom(ATOM_VMHD, vmhd_payload()),
{
    proof {
        reveal(vmhd_payload);
    }
    let mut p: Vec<u8> = start_payload(1);
    push_zeros(&mut p, 8);
    create_atom(ATOM_VMHD, p.as_slice())
}

/// The data reference.
fn dinf_atom() -> (r: Vec<u8>)
    ensures
        r@ == crate::mov::atoms::atom(ATOM_DINF, dinf_payload()),
{
    proof {
        reveal(dinf_payload);
    }
    let entry = start_payload(1);
    let mut p: Vec<u8> = start_payload(0);
    push_be32(&mut p, 1);
    push_all(&mut p, create_atom(ATOM_ALIS, entry.as_slice()).as_slice());
    let dref = create_atom(ATOM_DREF, p.as_slice());
    create_atom(ATOM_DINF, dref.as_slice())
}

/// Appends a compressor name.
fn push_pascal_name(out: &mut Vec<u8>, name: &[u8])
    ensures
        final(out)@ == old(out)@ + pascal_name(name@),
{
    let ghost before = out@;
    let n: usize = if name.len() > 31 { 31 } else { name.len() };
    out.push(n as u8);
    push_all(out, slice_subrange(name, 0, n));
    push_zeros(out, 31 - n);
    assert(out@ =~= before + pascal_name(name@));
}

/// The sample description table.
fn stsd_atom(config: VideoConfig) -> (r: Vec<u8>)
    ensures
        r@ == crate::mov::atoms::atom(ATOM_STSD, stsd_payload(config)),
{
    proof {
        reveal(stsd_payload);
        reveal(sample_entry);
    }
    let mut entry: Vec<u8> = Vec::new();
    push_zeros(&mut entry, 6);
    assert(entry@ =~= crate::bytes::zeros(6));
    push_be16(&mut entry, 1);
    push_zeros(&mut entry, 16);
    push_low16(&mut entry, config.width);
    push_low16(&mut entry, config.height);
    push_be32(&mut entry, 0x48_0000);
    push_be32(&mut entry, 0x48_0000);
    push_zeros(&mut entry, 4);
    push_be16(&mut entry, 1);
    push_pascal_name(&mut entry, config.format.name().as_bytes());
    push_be16(&mut entry, config.format.bits_per_pixel());
    push_be16(&mut entry, 0xFFFF);
    assert(entry@ == sample_entry(config));
    let mut p: Vec<u8> = start_payload(0);
    push_be32(&mut p, 1);
    push_all(&mut p, create_atom(config.format.fourcc(), entry.as_slice()).as_slice());
    create_atom(ATOM_STSD, p.as_slice())
}

/// The time table.
fn stts_atom(config: VideoConfig, count: usize, units: u32) -> (r: Vec<u8>)
    requires
        units == config.frame_units(),
    ensures
        r@ == crate::mov::atoms::atom(ATOM_STTS, stts_payload(config, count as int)),
{
    proof {
        reveal(stts_payload);
    }
    let mut p: Vec<u8> = start_payload(0);
    push_be32(&mut p, 1);
    push_low32(&mut p, count as u64);
    push_be32(&mut p, units);
    create_atom(ATOM_STTS, p.as_slice())
}

/// The chunk table.
fn stsc_atom() -> (r: Vec<u8>)
    ensures
        r@ == crate::mov::atoms::atom(ATOM_STSC, stsc_payload()),
{
    proof {
        reveal(stsc_payload);
    }
    let mut p: Vec<u8> = start_payload(0);
    push_be32(&mut p, 1);
    push_be32(&mut p, 1);
    push_be32(&mut p, 1);
    push_be32(&mut p, 1);
    create_atom(ATOM_STSC, p.as_slice())
}

/// The size table.
fn stsz_atom(samples: &Vec<SampleInfo>) -> (r: Vec<u8>)
    ensures
        r@ == crate::mov::atoms::atom(ATOM_STSZ, stsz_payload(samples@)),
{
    proof {
        reveal(stsz_payload);
    }
    let mut p: Vec<u8> = start_payload(0);
    push_zeros(&mut p, 4);
    push_low32(&mut p, samples.len() as u64);
    let ghost head = p@;
    let mut i: usize = 0;
    assert(p@ =~= head + sample_sizes(samples@.subrange(0, 0)));
    while i < samples.len()
        invariant
            i <= samples@.len(),
            p@ == head + sample_sizes(samples@.subrange(0, i as int)),
        decreases samples@.len() - i,
    {
        push_be32(&mut p, samples[i].size);
        i = i + 1;
        assert(samples@.subrange(0, i as int).drop_last() =~= samples@.subrange(0, i - 1));
        assert(p@ =~= head + sample_sizes(samples@.subrange(0, i as int)));
    }
    assert(samples@.subrange(0, i as int) =~= samples@);
    create_atom(ATOM_STSZ, p.as_slice())
}

/// The offset table with four bytes for each offset.
fn stco_atom(samples: &Vec<SampleInfo>) -> (r: Vec<u8>)
    ensures
        r@ == crate::mov::atoms::atom(
            ATOM_STCO,
            flags(0) + crate::bytes::be32_bytes(samples@.len() as int) + short_offsets(samples@),
        ),
{
    let mut p: Vec<u8> = start_payload(0);
    push_low32(&mut p, samples.len() as u64);
    let ghost head = p@;
    let mut i: usize = 0;
    assert(p@ =~= head + short_offsets(samples@.subrange(0, 0)));
    while i < samples.len()
        invariant
            i <= samples@.len(),
            p@ == head + short_offsets(samples@.subrange(0, i as int)),
        decreases samples@.len() - i,
    {
        push_low32(&mut p, samples[i].offset);
        i = i + 1;
        assert(samples@.subrange(0, i as int).drop_last() =~= samples@.subrange(0, i - 1));
        assert(p@ =~= head + short_offsets(samples@.subrange(0, i as int)));
    }
    assert(samples@.subrange(0, i as int) =~= samples@);
    create_atom(ATOM_STCO, p.as_slice())
}

/// The offset table with eight bytes for each offset.
fn co64_atom(samples: &Vec<SampleInfo>) -> (r: Vec<u8>)
    ensures
        r@ == crate::mov::atoms::atom(
            ATOM_CO64,
            flags(0) + crate::bytes::be32_bytes(samples@.len() as int) + long_offsets(samples@),
        ),
{
    let mut p: Vec<u8> = start_payload(0);
    push_low32(&mut p, samples.len() as u64);
    let ghost head = p@;
    let mut i: usize = 0;
    assert(p@ =~= head + long_offsets(samples@.subrange(0, 0)));
    while i < samples.len()
        invariant
            i <= samples@.len(),
            p@ == head + long_offsets(samples@.subrange(0, i as int)),
        decreases samples@.len() - i,
    {
        push_be64(&mut p, samples[i].offset);
        i = i + 1;
        assert(samples@.subrange(0, i as int).drop_last() =~= samples@.subrange(0, i - 1));
        assert(p@ =~= head + long_offsets(samples@.subrange(0, i as int)));
    }
    assert(samples@.subrange(0, i as int) =~= samples@);
    create_atom(ATOM_CO64, p.as_slice())
}

/// The sample table.
pub fn build_stbl_atom(config: VideoConfig, samples: &Vec<SampleInfo>, sample_duration: u32) -> (r:
    Vec<u8>)
    requires
        sample_duration == config.frame_units(),
    ensures
        r@ == crate::mov::atoms::atom(ATOM_STBL, stbl_payload(config, samples@)),
{
    proof {
        reveal(stbl_payload);
    }
    let mut p: Vec<u8> = stsd_atom(config);
    push_all(&mut p, stts_atom(config, samples.len(), sample_duration).as_slice());
    push_all(&mut p, stsc_atom().as_slice());
    push_all(&mut p, stsz_atom(samples).as_slice());
    let long: bool = samples.len() > 0 && samples[samples.len() - 1].offset > 0xFFFF_FFFF;
    let offsets = if long { co64_atom(samples) } else { stco_atom(samples) };
    push_all(&mut p, offsets.as_slice());
    create_atom(ATOM_STBL, p.as_slice())
}

/// The movie description.
pub fn build_moov_atom(config: VideoConfig, samples: &Vec<SampleInfo>) -> (r: Vec<u8>)
    requires
        config.fps.wf(),
    ensures
        r@ == crate::mov::atoms::atom(ATOM_MOOV, moov_payload(config, samples@)),
{
    proof {
        reveal(minf_payload);
        reveal(mdia_payload);
        reveal(trak_payload);
    }
    let units: u32 = config.sample_duration();
    let count: usize = samples.len();
    let mut minf: Vec<u8> = vmhd_atom();
    push_all(&mut minf, dinf_atom().as_slice());
    push_all(&mut minf, build_stbl_atom(config, samples, units).as_slice());
    let minf_atom = create_atom(ATOM_MINF, minf.as_slice());
    let mut mdia: Vec<u8> = mdhd_atom(config, count, units);
    push_all(&mut mdia, hdlr_atom().as_slice());
    push_all(&mut mdia, minf_atom.as_slice());
    let mdia_atom = create_atom(ATOM_MDIA, mdia.as_slice());
    let mut trak: Vec<u8> = tkhd_atom(config, count, units);
    push_all(&mut trak, mdia_atom.as_slice());
    let trak_atom = create_atom(ATOM_TRAK, trak.as_slice());
    let mut moov: Vec<u8> = mvhd_atom(config, count, units);
    push_all(&mut moov, trak_atom.as_slice());
    create_atom(ATOM_MOOV, moov.as_slice())
}

// ---------------------------------------------------------------------------------------------
// The writer.
// ---------------------------------------------------------------------------------------------

/// Keeps track of a movie that is being written.
pub struct QtHapWriter {
    config: VideoConfig,
    samples: Vec<SampleInfo>,
    mdat_header_offset: u64,
    total_data_bytes: u64,
    finalized: bool,
    frames: Ghost<Seq<Seq<u8>>>,
}

/// What finishing a movie adds to the file.
#[derive(Debug)]
pub struct MovieTail {
    /// Where the size of the media data goes.
    pub size_position: u64,
    /// The size of the media data, to be written over the bytes at that place.
    pub size_field: Vec<u8>,
    /// The movie description, to be appended.
    pub moov: Vec<u8>,
}

/// A file with the tail put in its places.
pub open spec fn finished(file: Seq<u8>, tail: MovieTail) -> Seq<u8> {
    let at = tail.size_position as int;
    file.subrange(0, at) + tail.size_field@ + file.subrange(
        at + tail.size_field@.len(),
        file.len() as int,
    ) + tail.moov@
}

/// The configuration describes a video; if not, why.
pub open spec fn config_fault(config: VideoConfig) -> Option<Seq<char>> {
    if config.width == 0 || config.height == 0 {
        Some("Dimensions must be > 0"@)
    } else if crate::single::less(config.fps, crate::single::whole_number(0))
        || crate::single::is_zero(config.fps) {
        Some("FPS must be > 0"@)
    } else {
        None
    }
}

impl QtHapWriter {
    /// The settings of the track.
    pub closed spec fn settings(self) -> VideoConfig {
        self.config
    }

    /// The frames written so far.
    pub closed spec fn written(self) -> Seq<Seq<u8>> {
        self.frames@
    }

    /// The movie is complete.
    pub closed spec fn complete(self) -> bool {
        self.finalized
    }

    /// The tables describe the frames.
    pub closed spec fn wf(self) -> bool {
        &&& self.config.fps.wf()
        &&& self.samples@ == sample_table(self.frames@)
        &&& self.mdat_header_offset == 20
        &&& self.total_data_bytes == crate::snappy::joined(self.frames@).len()
        &&& self.total_data_bytes + 36 <= u64::MAX
    }

    /// Starts a movie. The bytes begin the file.
    pub fn create(config: VideoConfig) -> (r: Result<(Self, Vec<u8>), MovWriterError>)
        requires
            config.fps.wf(),
        ensures
            match r {
                Ok((w, head)) => {
                    &&& config_fault(config) is None
                    &&& w.wf()
                    &&& w.settings() == config
                    &&& w.written() == Seq::<Seq<u8>>::empty()
                    &&& !w.complete()
                    &&& head@ == unfinished(Seq::empty())
                },
                Err(e) => config_fault(config) matches Some(m) && e@
                    == MovWriterFault::InvalidConfig(m),
            },
    {
        if config.width == 0 || config.height == 0 {
            return Err(MovWriterError::InvalidConfig("Dimensions must be > 0".to_owned()));
        }
        proof {
            if config.fps is Finite {
                crate::single::lemma_zero(config.fps);
            }
        }
        let none: bool = match config.fps {
            Single::Finite { mant, .. } => mant == 0,
            _ => false,
        };
        if none || config.fps.lt(Single::from_u32(0)) {
            return Err(MovWriterError::InvalidConfig("FPS must be > 0".to_owned()));
        }
        let mut ftyp: Vec<u8> = Vec::new();
        push_all(&mut ftyp, BRAND_QT.as_slice());
        assert(ftyp@ =~= BRAND_QT@);
        push_be32(&mut ftyp, 0);
        push_all(&mut ftyp, BRAND_QT.as_slice());
        let mut head: Vec<u8> = create_atom(ATOM_FTYP, ftyp.as_slice());
        write_atom_header(ATOM_MDAT, 1, &mut head);
        push_be64(&mut head, 0);
        let w = QtHapWriter {
            config,
            samples: Vec::new(),
            mdat_header_offset: 20,
            total_data_bytes: 0,
            finalized: false,
            frames: Ghost(Seq::empty()),
        };
        assert(w.samples@ =~= sample_table(w.frames@));
        assert(head@ =~= unfinished(Seq::empty()));
        Ok((w, head))
    }

    /// Adds a frame to the movie. Its bytes are to be appended to the file.
    pub fn write_frame(&mut self, frame_bytes: &[u8]) -> (r: Result<(), MovWriterError>)
        requires
            old(self).wf(),
            36 + crate::snappy::joined(old(self).written()).len() + frame_bytes@.len() <= u64::MAX,
        ensures
            final(self).wf(),
            final(self).settings() == old(self).settings(),
            final(self).complete() == old(self).complete(),
            match r {
                Ok(_) => {
                    &&& !old(self).complete()
                    &&& final(self).written() == old(self).written().push(frame_bytes@)
                    &&& unfinished(final(self).written()) == unfinished(old(self).written())
                        + frame_bytes@
                },
                Err(e) => {
                    &&& old(self).complete()
                    &&& final(self).written() == old(self).written()
                    &&& e@ == MovWriterFault::AlreadyFinalized
                },
            },
    {
        if self.finalized {
            return Err(MovWriterError::AlreadyFinalized);
        }
        assert(frame_bytes@.len() == frame_bytes.len());
        let offset: u64 = self.mdat_header_offset + 16 + self.total_data_bytes;
        let size: u32 = (frame_bytes.len() as u64 % 0x1_0000_0000) as u32;
        self.samples.push(SampleInfo { offset, size });
        self.total_data_bytes = self.total_data_bytes + frame_bytes.len() as u64;
        proof {
            let before = self.frames@;
            let after = before.push(frame_bytes@);
            self.frames@ = after;
            lemma_joined_push(before, frame_bytes@);
            assert forall|i: int| 0 <= i < before.len() implies #[trigger] sample_table(after)[i]
                == sample_table(before)[i] by {
                assert(after.subrange(0, i) =~= before.subrange(0, i));
            }
            assert(after.subrange(0, before.len() as int) =~= before);
            assert(self.samples@ =~= sample_table(after));
            assert(unfinished(after) =~= unfinished(before) + frame_bytes@);
        }
        Ok(())
    }

    /// Finishes the movie. With the tail in its places the file is the movie.
    pub fn finalize(self) -> (r: Result<MovieTail, MovWriterError>)
        requires
            self.wf(),
        ensures
            match r {
                Ok(tail) => {
                    &&& !self.complete()
                    &&& self.written().len() > 0
                    &&& finished(unfinished(self.written()), tail) == movie(
                        self.settings(),
                        self.written(),
                    )
                    &&& tail.size_position == 28
                    &&& tail.size_field@.len() == 8
                },
                Err(e) => e@ == if self.complete() {
                    MovWriterFault::AlreadyFinalized
                } else {
                    MovWriterFault::NoFramesWritten
                } && (self.complete() || self.written().len() == 0),
            },
    {
        if self.finalized {
            return Err(MovWriterError::AlreadyFinalized);
        }
        if self.samples.len() == 0 {
            return Err(MovWriterError::NoFramesWritten);
        }
        let mut size_field: Vec<u8> = Vec::new();
        push_be64(&mut size_field, 16 + self.total_data_bytes);
        let moov = build_moov_atom(self.config, &self.samples);
        let tail = MovieTail { size_position: self.mdat_header_offset + 8, size_field, moov };
        proof {
            lemma_patched(crate::snappy::joined(self.frames@), tail.moov@);
            assert(tail.size_field@ =~= crate::bytes::be64_bytes(
                16 + crate::snappy::joined(self.frames@).len() as int,
            ));
        }
        Ok(tail)
    }
}

/// Puts the tail of a movie in its places in the file.
pub fn put_tail(file: &[u8], tail: &MovieTail) -> (out: Vec<u8>)
    requires
        tail.size_position + tail.size_field@.len() <= file@.len(),
    ensures
        out@ == finished(file@, *tail),
{
    assert(file@.len() == file.len());
    let at: usize = tail.size_position as usize;
    let mut out: Vec<u8> = Vec::new();
    push_all(&mut out, slice_subrange(file, 0, at));
    assert(out@ =~= file@.subrange(0, at as int));
    push_all(&mut out, tail.size_field.as_slice());
    push_all(&mut out, slice_subrange(file, at + tail.size_field.len(), file.len()));
    push_all(&mut out, tail.moov.as_slice());
    out
}

/// Writing the size over its place in the head gives the head with that size.
proof fn lemma_patched(all: Seq<u8>, moov: Seq<u8>)
    ensures
        ({
            let file = movie_head(0) + all;
            let size = 16 + all.len() as int;
            &&& movie_head(0).len() == 36
            &&& crate::bytes::be64_bytes(size).len() == 8
            &&& file.subrange(0, 28) + crate::bytes::be64_bytes(size) + file.subrange(
                36,
                file.len() as int,
            ) + moov == movie_head(size) + all + moov
        }),
{
    let file = movie_head(0) + all;
    let size = 16 + all.len() as int;
    assert(file.subrange(0, 28) + crate::bytes::be64_bytes(size) =~= movie_head(size));
    assert(file.subrange(36, file.len() as int) =~= all);
}

/// Joining one more part appends it.
proof fn lemma_joined_push(parts: Seq<Seq<u8>>, part: Seq<u8>)
    ensures
        crate::snappy::joined(parts.push(part)) == crate::snappy::joined(parts) + part,
{
    assert(parts.push(part).drop_last() =~= parts);
}

/// A movie has pixels and a positive rate; nothing else is asked of its settings.
pub proof fn law_config_faults(config: VideoConfig)
    ensures
        ({
            let slow = crate::single::less(config.fps, crate::single::whole_number(0))
                || crate::single::is_zero(config.fps);
            &&& config_fault(config) is None <==> config.width > 0 && config.height > 0 && !slow
            &&& config.width == 0 || config.height == 0 ==> config_fault(config) == Some(
                "Dimensions must be > 0"@,
            )
            &&& config.width > 0 && config.height > 0 && slow ==> config_fault(config) == Some(
                "FPS must be > 0"@,
            )
        }),
{
}

/// A rate that is less than a hundredth from a broadcast rate has the time scale of the next whole
/// rate: 30000 at 29.97, 60000 at 59.94 and 24000 at 23.976, where none before it in this order is
/// as near. Any other rate has a thousand units for each frame, rounded.
pub proof fn law_timescales(fps: Single)
    ensures
        ({
            let near = |n: int, d: int|
                crate::single::less(
                    crate::single::magnitude(
                        crate::single::difference(fps, crate::single::ratio(n, d)),
                    ),
                    crate::single::ratio(1, 100),
                );
            let t = timescale_for(fps);
            &&& near(2997, 100) ==> t == 30 * 1000
            &&& near(5994, 100) && !near(2997, 100) ==> t == 60 * 1000
            &&& near(23976, 1000) && !near(2997, 100) && !near(5994, 100) ==> t == 24 * 1000
            &&& !near(2997, 100) && !near(5994, 100) && !near(23976, 1000) ==> t
                == crate::single::nearest_within(
                crate::single::product(fps, crate::single::whole_number(1000)),
                0,
                u32::MAX as int,
            )
        }),
{
}

/// Finishing a file writes the size over the bytes at its place, appends the description, and
/// changes nothing else.
pub proof fn law_finished(file: Seq<u8>, tail: MovieTail, i: int)
    requires
        tail.size_position + tail.size_field@.len() <= file.len(),
        0 <= i < finished(file, tail).len(),
    ensures
        ({
            let at = tail.size_position as int;
            let n = tail.size_field@.len() as int;
            let len = file.len() as int;
            &&& finished(file, tail).len() == len + tail.moov@.len()
            &&& finished(file, tail)[i] == if at <= i < at + n {
                tail.size_field@[i - at]
            } else if i < len {
                file[i]
            } else {
                tail.moov@[i - len]
            }
        }),
{
}

} // verus!
