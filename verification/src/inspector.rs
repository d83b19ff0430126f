//! Inspection of streams: what a movie holds, and what is wrong with it.

use crate::decoder::{decode_frame_to_texture, Texture};
use crate::format::HapFormat;
use crate::header::{ChunkInfo, DecodeInstructions, SectionHeader};
use crate::mov::reader::{FrameSample, QtHapReader};
use crate::single::Single;
use crate::text::push_decimal;
use vstd::prelude::*;
use vstd::slice::slice_subrange;

verus! {

// ---------------------------------------------------------------------------------------------
// The summary.
// ---------------------------------------------------------------------------------------------

/// The technical data of a stream.
#[derive(Debug, Clone)]
pub struct StreamSummary {
    pub format: HapFormat,
    pub fourcc: [u8; 4],
    pub width: u32,
    pub height: u32,
    pub frame_count: usize,
    pub file_size_bytes: u64,
    /// The bytes of all frames, `u64::MAX` if there are more.
    pub total_frame_bytes: u64,
    pub avg_frame_bytes: u64,
    pub min_frame_bytes: usize,
    pub max_frame_bytes: usize,
    /// The bytes of one frame as RGBA8 pixels.
    pub uncompressed_frame_bytes: u128,
    /// How much smaller than those the frames are on average.
    pub savings_percent: Single,
    pub chunk_count: usize,
    pub uses_snappy: bool,
    pub has_alpha: bool,
    pub texture_type_name: &'static str,
}

/// The name of the texture layout of a format.
pub open spec fn texture_type(format: HapFormat) -> Seq<char> {
    match format {
        HapFormat::Hap1 => "BC1 / DXT1 (RGB 24-bit)"@,
        HapFormat::Hap5 => "BC3 / DXT5 (RGBA 32-bit)"@,
        HapFormat::HapY => "Scaled YCoCg-DXT5 (Co/Cg/Scale/Luma)"@,
        HapFormat::HapM => "Dual-Stream YCoCg-DXT5 + BC4 Alpha"@,
        HapFormat::HapA => "BC4 / RGTC1 (Single Channel Matte)"@,
        HapFormat::Hap7 => "BC7 UNORM (Full 8-bit RGBA)"@,
        HapFormat::HapH => "BC6H (Half Float HDR)"@,
    }
}

/// The name of the texture layout of a format.
pub fn texture_type_name(format: HapFormat) -> (r: &'static str)
    ensures
        r@ == texture_type(format),
{
    match format {
        HapFormat::Hap1 => "BC1 / DXT1 (RGB 24-bit)",
        HapFormat::Hap5 => "BC3 / DXT5 (RGBA 32-bit)",
        HapFormat::HapY => "Scaled YCoCg-DXT5 (Co/Cg/Scale/Luma)",
        HapFormat::HapM => "Dual-Stream YCoCg-DXT5 + BC4 Alpha",
        HapFormat::HapA => "BC4 / RGTC1 (Single Channel Matte)",
        HapFormat::Hap7 => "BC7 UNORM (Full 8-bit RGBA)",
        HapFormat::HapH => "BC6H (Half Float HDR)",
    }
}

/// How a frame is stored.
pub struct Layout {
    /// The number of its chunks. A frame that is not cut into chunks counts as one.
    pub chunks: int,
    /// A chunk of it is compressed with Snappy.
    pub snappy: bool,
}

/// The chunks that a chunked payload lists in the decode instructions at its start.
pub open spec fn listed_chunks(payload: Seq<u8>) -> Option<Seq<ChunkInfo>> {
    match crate::decoder::framed(payload) {
        Err(_) => None,
        Ok(s) => if s.section_type != 0x01 {
            None
        } else {
            match crate::header::instructions_of(s.data) {
                Err(_) => None,
                Ok(chunks) => Some(chunks),
            }
        },
    }
}

/// A chunk of the list is compressed with Snappy.
pub open spec fn lists_snappy(chunks: Seq<ChunkInfo>) -> bool {
    exists|i: int| 0 <= i < chunks.len() && (#[trigger] chunks[i]).compressor == 0x0B
}

/// How a section is stored, by the compressor in the high half of its type; `None` if it is
/// chunked and its chunks cannot be told.
pub open spec fn section_layout(section_type: u8, payload: Seq<u8>) -> Option<Layout> {
    let compressor = section_type as int / 16;
    if compressor == 0x0C {
        match listed_chunks(payload) {
            None => None,
            Some(chunks) => Some(
                Layout { chunks: chunks.len() as int, snappy: lists_snappy(chunks) },
            ),
        }
    } else {
        Some(Layout { chunks: 1, snappy: compressor == 0x0B })
    }
}

/// What is left of a buffer after its header.
pub open spec fn after_header(buf: Seq<u8>) -> Seq<u8> {
    match crate::header::header_of(buf) {
        Ok(h) => buf.subrange(h.header_size as int, buf.len() as int),
        Err(_) => buf,
    }
}

/// How a frame is stored; `None` if that cannot be told. A Hap Q Alpha frame is judged by its
/// colour section.
pub open spec fn frame_layout(packet: Seq<u8>) -> Option<Layout> {
    let data = after_header(packet);
    match crate::header::header_of(packet) {
        Err(_) => None,
        Ok(h) => if h.section_type == 0x0D {
            match crate::header::header_of(data) {
                Err(_) => None,
                Ok(c) => section_layout(c.section_type, after_header(data)),
            }
        } else {
            section_layout(h.section_type, data)
        },
    }
}

/// The number of chunks of a frame, 1 if that cannot be told.
pub open spec fn chunks_in(packet: Seq<u8>) -> int {
    match frame_layout(packet) {
        Some(l) => l.chunks,
        None => 1,
    }
}

/// A chunk of the frame is known to be compressed with Snappy.
pub open spec fn snappy_in(packet: Seq<u8>) -> bool {
    match frame_layout(packet) {
        Some(l) => l.snappy,
        None => false,
    }
}

/// The layout found is the one wanted.
pub open spec fn is_layout(r: Option<(usize, bool)>, want: Option<Layout>) -> bool {
    match r {
        Some((chunks, snappy)) => want == Some(Layout { chunks: chunks as int, snappy }),
        None => want is None,
    }
}

/// Whether a chunk of the list is compressed with Snappy.
fn find_snappy(chunks: &[ChunkInfo]) -> (r: bool)
    ensures
        r == lists_snappy(chunks@),
{
    let mut i: usize = 0;
    while i < chunks.len()
        invariant
            i <= chunks@.len(),
            forall|j: int| 0 <= j < i ==> (#[trigger] chunks@[j]).compressor != 0x0B,
        decreases chunks@.len() - i,
    {
        if chunks[i].compressor == 0x0B {
            return true;
        }
        i = i + 1;
    }
    false
}

/// Finds how a section is stored.
fn inspect_section(section_type: u8, payload: &[u8]) -> (r: Option<(usize, bool)>)
    ensures
        is_layout(r, section_layout(section_type, payload@)),
{
    let compressor: u8 = section_type / 16;
    if compressor != 0x0C {
        return Some((1, compressor == 0x0B));
    }
    let hdr = match SectionHeader::parse(payload) {
        Ok(h) => h,
        Err(_) => return None,
    };
    if hdr.data_size > payload.len() - hdr.header_size || hdr.section_type != 0x01 {
        return None;
    }
    match DecodeInstructions::parse(
        slice_subrange(payload, hdr.header_size, hdr.header_size + hdr.data_size),
    ) {
        Ok(d) => Some((d.chunks.len(), find_snappy(d.chunks.as_slice()))),
        Err(_) => None,
    }
}

/// Finds how a frame is stored.
fn inspect_frame(packet: &[u8]) -> (r: Option<(usize, bool)>)
    ensures
        is_layout(r, frame_layout(packet@)),
{
    let hdr = match SectionHeader::parse(packet) {
        Ok(h) => h,
        Err(_) => return None,
    };
    let data = slice_subrange(packet, hdr.header_size, packet.len());
    if hdr.section_type != 0x0D {
        return inspect_section(hdr.section_type, data);
    }
    match SectionHeader::parse(data) {
        Ok(c) => inspect_section(c.section_type, slice_subrange(data, c.header_size, data.len())),
        Err(_) => None,
    }
}

/// The number of chunks of a frame, and whether one is compressed with Snappy.
pub fn inspect_packet(packet: &[u8]) -> (r: (usize, bool))
    ensures
        r.0 == chunks_in(packet@),
        r.1 == snappy_in(packet@),
{
    match inspect_frame(packet) {
        Some(l) => l,
        None => (1, false),
    }
}

/// An encoded frame tells how it was encoded: it has the chunks that were asked for, as far as
/// there are bytes for them, and says whether Snappy was used.
pub proof fn law_frame_tells_its_layout(t: Texture, chunk_count: int, use_snappy: bool)
    requires
        t.format == HapFormat::HapM <==> t.alpha is Some,
        t.blocks.len() > 0,
        crate::encoder::texture_payload(t, chunk_count, use_snappy).len() <= u32::MAX,
    ensures
        ({
            let frame = crate::encoder::texture_frame(t, chunk_count, use_snappy);
            &&& chunks_in(frame) == if chunk_count > 1 {
                crate::snappy::piece_count(t.blocks.len() as int, chunk_count)
            } else {
                1
            }
            &&& snappy_in(frame) == use_snappy
        }),
{
    let compressor = crate::encoder::frame_compressor(chunk_count, use_snappy);
    let payload = crate::encoder::texture_payload(t, chunk_count, use_snappy);
    let none = Seq::<u8>::empty();
    let frame = crate::encoder::texture_frame(t, chunk_count, use_snappy);
    assert(frame + none =~= frame);
    lemma_after_header(t.format.type_byte(compressor) as u8, payload, none);
    assert(payload + none =~= payload);
    match t.alpha {
        None => lemma_section_tells(t.format, t.blocks, chunk_count, use_snappy, none),
        Some(alpha) => {
            let inner = crate::encoder::frame_payload(t.blocks, chunk_count, use_snappy);
            let rest = crate::encoder::frame_of(
                alpha,
                HapFormat::HapA,
                chunk_count,
                use_snappy,
            );
            lemma_after_header(HapFormat::HapY.type_byte(compressor) as u8, inner, rest);
            lemma_section_tells(HapFormat::HapY, t.blocks, chunk_count, use_snappy, rest);
        },
    }
}

/// The header of a section is read, and its data and what follows it are left.
proof fn lemma_after_header(section_type: u8, data: Seq<u8>, rest: Seq<u8>)
    requires
        data.len() <= u32::MAX,
    ensures
        ({
            let buf = crate::header::section(section_type, data) + rest;
            &&& crate::header::header_of(buf) is Ok
            &&& crate::header::header_of(buf)->Ok_0.section_type == section_type
            &&& after_header(buf) == data + rest
        }),
{
    let head = crate::header::header_bytes(section_type, data.len() as int);
    let buf = crate::header::section(section_type, data) + rest;
    assert(buf =~= head + (data + rest));
    crate::header::law_header_round_trip(section_type, data.len() as int, data + rest);
    assert(after_header(buf) =~= data + rest);
}

/// The payload of an encoded texture tells how it was encoded, whatever follows it.
#[verifier::spinoff_prover]
#[verifier::rlimit(60)]
proof fn lemma_section_tells(
    format: HapFormat,
    texture: Seq<u8>,
    chunk_count: int,
    use_snappy: bool,
    rest: Seq<u8>,
)
    requires
        format != HapFormat::HapM,
        texture.len() > 0,
        crate::encoder::frame_payload(texture, chunk_count, use_snappy).len() <= u32::MAX,
    ensures
        section_layout(
            format.type_byte(crate::encoder::frame_compressor(chunk_count, use_snappy)) as u8,
            crate::encoder::frame_payload(texture, chunk_count, use_snappy) + rest,
        ) == Some(
            Layout {
                chunks: if chunk_count > 1 {
                    crate::snappy::piece_count(texture.len() as int, chunk_count)
                } else {
                    1
                },
                snappy: use_snappy,
            },
        ),
{
    if chunk_count > 1 {
        let chunks = crate::snappy::stored_chunks(texture, chunk_count, use_snappy);
        let table = crate::snappy::chunk_table(chunks, use_snappy);
        let all = crate::snappy::joined(chunks);
        let instructions = crate::header::instruction_bytes(table);
        let payload = crate::encoder::frame_payload(texture, chunk_count, use_snappy);
        crate::encoder::lemma_table_read(texture, chunk_count, use_snappy);
        assert(payload + rest =~= crate::header::section(0x01, instructions) + (all + rest));
        crate::encoder::lemma_framed(0x01, instructions, all + rest);
        assert(table[0].compressor == crate::snappy::compressor_byte(use_snappy));
    }
}

/// The bytes of the first `n` frames.
pub open spec fn total_size(samples: Seq<FrameSample>, n: int) -> int
    decreases n,
{
    if n <= 0 {
        0
    } else {
        total_size(samples, n - 1) + samples[n - 1].size
    }
}

/// At most what 64 bits hold.
pub open spec fn capped64(n: int) -> int {
    if n > u64::MAX {
        u64::MAX as int
    } else {
        n
    }
}

/// No frame has more bytes, and one has as many; 0 if there is none.
pub open spec fn is_largest(samples: Seq<FrameSample>, m: int) -> bool {
    &&& forall|i: int| 0 <= i < samples.len() ==> (#[trigger] samples[i]).size <= m
    &&& if samples.len() == 0 {
        m == 0
    } else {
        exists|i: int| 0 <= i < samples.len() && (#[trigger] samples[i]).size == m
    }
}

/// No frame has fewer bytes, and one has as many; 0 if there is none.
pub open spec fn is_smallest(samples: Seq<FrameSample>, m: int) -> bool {
    &&& forall|i: int| 0 <= i < samples.len() ==> m <= (#[trigger] samples[i]).size
    &&& if samples.len() == 0 {
        m == 0
    } else {
        exists|i: int| 0 <= i < samples.len() && (#[trigger] samples[i]).size == m
    }
}

/// The bytes of all frames, of the smallest and of the largest.
fn measure(samples: &[FrameSample]) -> (r: (u64, usize, usize))
    ensures
        r.0 == capped64(total_size(samples@, samples@.len() as int)),
        is_smallest(samples@, r.1 as int),
        is_largest(samples@, r.2 as int),
{
    if samples.len() == 0 {
        return (0, 0, 0);
    }
    let mut total: u64 = samples[0].size as u64;
    let mut least: usize = samples[0].size;
    let mut most: usize = samples[0].size;
    let ghost mut low: int = 0;
    let ghost mut high: int = 0;
    let mut i: usize = 1;
    assert(total_size(samples@, 0) == 0);
    while i < samples.len()
        invariant
            1 <= i <= samples@.len(),
            total == capped64(total_size(samples@, i as int)),
            total_size(samples@, i as int) >= 0,
            0 <= low < i,
            0 <= high < i,
            samples@[low].size == least,
            samples@[high].size == most,
            forall|j: int| 0 <= j < i ==> least <= (#[trigger] samples@[j]).size <= most,
        decreases samples@.len() - i,
    {
        let size: usize = samples[i].size;
        total = total.saturating_add(size as u64);
        if size < least {
            least = size;
            proof {
                low = i as int;
            }
        }
        if size > most {
            most = size;
            proof {
                high = i as int;
            }
        }
        i = i + 1;
    }
    (total, least, most)
}

/// How much smaller than `raw` bytes `packed` bytes are, in percent, as binary32 arithmetic has it.
pub open spec fn savings(packed: int, raw: int) -> Single {
    if raw > 0 {
        crate::single::product(
            crate::single::difference(
                crate::single::whole_number(1),
                crate::single::quotient(
                    crate::single::whole_number(packed),
                    crate::single::whole_number(raw),
                ),
            ),
            crate::single::whole_number(100),
        )
    } else {
        crate::single::whole_number(0)
    }
}

/// How much smaller than `raw` bytes `packed` bytes are, in percent.
pub fn savings_percent(packed: u64, raw: u64) -> (r: Single)
    ensures
        r == savings(packed as int, raw as int),
{
    if raw > 0 {
        let part = Single::from_u64(packed).over(Single::from_u64(raw));
        Single::from_u64(1).minus(part).times(Single::from_u64(100))
    } else {
        Single::from_u64(0)
    }
}

/// The summary is that of the stream.
pub open spec fn summarizes(
    s: StreamSummary,
    r: crate::mov::reader::Reading,
    first_packet: Option<Seq<u8>>,
    file_size: u64,
) -> bool {
    let n = r.samples.len() as int;
    &&& s.format == r.format
    &&& s.fourcc@ == r.format.code()
    &&& s.width == r.width
    &&& s.height == r.height
    &&& s.frame_count == n
    &&& s.file_size_bytes == file_size
    &&& s.total_frame_bytes == capped64(total_size(r.samples, n))
    &&& s.avg_frame_bytes == if n > 0 {
        s.total_frame_bytes as int / n
    } else {
        0
    }
    &&& is_smallest(r.samples, s.min_frame_bytes as int)
    &&& is_largest(r.samples, s.max_frame_bytes as int)
    &&& s.uncompressed_frame_bytes == r.width * r.height * 4
    &&& s.savings_percent == savings(
        s.avg_frame_bytes as int,
        capped64(r.width * r.height * 4),
    )
    &&& s.chunk_count == match first_packet {
        Some(p) => chunks_in(p),
        None => 1,
    }
    &&& s.uses_snappy == match first_packet {
        Some(p) => snappy_in(p),
        None => false,
    }
    &&& s.has_alpha == r.format.alpha()
    &&& s.texture_type_name@ == texture_type(r.format)
}

/// Sums up a stream. The chunks and the compression are those of its first frame, if it can be
/// read.
pub fn extract_stream_summary(
    reader: &QtHapReader,
    first_packet: Option<&[u8]>,
    file_size: u64,
) -> (s: StreamSummary)
    ensures
        summarizes(
            s,
            reader@,
            match first_packet {
                Some(p) => Some(p@),
                None => None,
            },
            file_size,
        ),
{
    let format = reader.format();
    let width: u32 = reader.width();
    let height: u32 = reader.height();
    let frame_count: usize = reader.frame_count();
    let (chunk_count, uses_snappy) = match first_packet {
        Some(p) => inspect_packet(p),
        None => (1, false),
    };
    let (total_frame_bytes, min_frame_bytes, max_frame_bytes) = measure(reader.samples());
    let avg_frame_bytes: u64 = if frame_count > 0 {
        total_frame_bytes / frame_count as u64
    } else {
        0
    };
    assert(width * height <= 0xFFFF_FFFF * 0xFFFF_FFFF) by (nonlinear_arith)
        requires
            width <= 0xFFFF_FFFF,
            height <= 0xFFFF_FFFF,
    ;
    let uncompressed: u128 = width as u128 * height as u128 * 4;
    let raw: u64 = if uncompressed <= u64::MAX as u128 { uncompressed as u64 } else { u64::MAX };
    StreamSummary {
        format,
        fourcc: format.fourcc(),
        width,
        height,
        frame_count,
        file_size_bytes: file_size,
        total_frame_bytes,
        avg_frame_bytes,
        min_frame_bytes,
        max_frame_bytes,
        uncompressed_frame_bytes: uncompressed,
        savings_percent: savings_percent(avg_frame_bytes, raw),
        chunk_count,
        uses_snappy,
        has_alpha: format.has_alpha(),
        texture_type_name: texture_type_name(format),
    }
}

// ---------------------------------------------------------------------------------------------
// The audit.
// ---------------------------------------------------------------------------------------------

/// How bad a finding is.
#[derive(Debug, Clone, Copy, PartialEq, Eq, Structural)]
pub enum FaultSeverity {
    Passed,
    Warning,
    Critical,
}

impl FaultSeverity {
    /// The short label.
    pub open spec fn label_text(self) -> Seq<char> {
        match self {
            FaultSeverity::Passed => "PASS"@,
            FaultSeverity::Warning => "WARN"@,
            FaultSeverity::Critical => "FAIL"@,
        }
    }

    /// The short label.
    pub fn label(&self) -> (r: &'static str)
        ensures
            r@ == self.label_text(),
    {
        match self {
            FaultSeverity::Passed => "PASS",
            FaultSeverity::Warning => "WARN",
            FaultSeverity::Critical => "FAIL",
        }
    }
}

/// A finding of the audit.
#[derive(Debug, Clone)]
pub struct StreamFault {
    pub check_name: &'static str,
    pub severity: FaultSeverity,
    pub message: String,
    pub recommendation: Option<String>,
}

/// A finding, with its texts as characters.
pub struct Finding {
    pub check_name: Seq<char>,
    pub severity: FaultSeverity,
    pub message: Seq<char>,
    pub recommendation: Option<Seq<char>>,
}

impl View for StreamFault {
    type V = Finding;

    open spec fn view(&self) -> Finding {
        Finding {
            check_name: self.check_name@,
            severity: self.severity,
            message: self.message@,
            recommendation: match self.recommendation {
                Some(m) => Some(m@),
                None => None,
            },
        }
    }
}

/// The findings of an audit.
#[derive(Debug, Clone)]
pub struct StreamAudit {
    /// Every check passed.
    pub is_clean: bool,
    pub frames_scanned: usize,
    pub checks: Vec<StreamFault>,
}

/// What the findings of a list say.
pub open spec fn findings(checks: Seq<StreamFault>) -> Seq<Finding> {
    Seq::new(checks.len(), |i: int| checks[i]@)
}

/// A finding of the given severity is among them.
pub open spec fn any_of(checks: Seq<Finding>, severity: FaultSeverity) -> bool {
    exists|i: int| 0 <= i < checks.len() && (#[trigger] checks[i]).severity == severity
}

/// Looks for a finding of the given severity.
fn find_severity(checks: &Vec<StreamFault>, severity: FaultSeverity) -> (r: bool)
    ensures
        r == any_of(findings(checks@), severity),
{
    let mut i: usize = 0;
    while i < checks.len()
        invariant
            i <= checks@.len(),
            forall|j: int| 0 <= j < i ==> (#[trigger] findings(checks@)[j]).severity != severity,
        decreases checks@.len() - i,
    {
        if checks[i].severity == severity {
            assert(findings(checks@)[i as int].severity == severity);
            return true;
        }
        i = i + 1;
    }
    false
}

impl StreamAudit {
    /// Whether a check failed.
    pub fn has_critical_errors(&self) -> (r: bool)
        ensures
            r == any_of(findings(self.checks@), FaultSeverity::Critical),
    {
        find_severity(&self.checks, FaultSeverity::Critical)
    }

    /// Whether a check gave a warning.
    pub fn has_warnings(&self) -> (r: bool)
        ensures
            r == any_of(findings(self.checks@), FaultSeverity::Warning),
    {
        find_severity(&self.checks, FaultSeverity::Warning)
    }
}

/// What scanning packets found.
pub struct Scan {
    /// A frame is not cut into chunks.
    pub whole: bool,
    /// The frames that cannot be decoded to a texture.
    pub undecodable: int,
    /// The frames whose header is missing or announces more than there is.
    pub misaligned: int,
}

/// A header announces more bytes than the packet has, or there is none.
pub open spec fn is_misaligned(packet: Seq<u8>) -> bool {
    match crate::header::header_of(packet) {
        Err(_) => true,
        Ok(h) => h.header_size + h.data_size > packet.len(),
    }
}

/// The frame is known to be in one chunk.
pub open spec fn is_whole(packet: Seq<u8>) -> bool {
    frame_layout(packet) is Some && chunks_in(packet) == 1
}

/// The frame has a header, but no texture comes out of it.
pub open spec fn is_undecodable(packet: Seq<u8>) -> bool {
    crate::header::header_of(packet) is Ok && crate::decoder::texture_of(packet) is Err
}

/// What scanning packets finds.
pub open spec fn scan_of(packets: Seq<Seq<u8>>) -> Scan
    decreases packets.len(),
{
    if packets.len() == 0 {
        Scan { whole: false, undecodable: 0, misaligned: 0 }
    } else {
        let before = scan_of(packets.drop_last());
        let p = packets.last();
        Scan {
            whole: before.whole || is_whole(p),
            undecodable: before.undecodable + (if is_undecodable(p) {
                1int
            } else {
                0
            }),
            misaligned: before.misaligned + (if is_misaligned(p) {
                1int
            } else {
                0
            }),
        }
    }
}

/// What the audit is about.
pub struct AuditSubject {
    pub width: int,
    pub height: int,
    pub format: HapFormat,
    pub frame_count: int,
    /// The frames to be scanned.
    pub limit: int,
    /// The packets that were scanned.
    pub packets: Seq<Seq<u8>>,
    /// The frame at which reading failed, and why.
    pub failure: Option<(int, Seq<char>)>,
}

/// The text of two dimensions.
pub open spec fn dimensions_text(width: int, height: int) -> Seq<char> {
    crate::text::decimal(width) + "x"@ + crate::text::decimal(height)
}

/// The check of the dimensions.
pub open spec fn resolution_finding(width: int, height: int) -> Finding {
    if width % 4 != 0 || height % 4 != 0 {
        Finding {
            check_name: "Resolution Divisibility (4x4 Blocks)"@,
            severity: FaultSeverity::Critical,
            message: "Resolution "@ + dimensions_text(width, height)
                + " is not divisible by 4. Hardware decoders and media servers will crash or show diagonal shear."@,
            recommendation: Some(
                "Re-encode with dimensions padded to multiples of 4 (e.g. 1920x1080)."@,
            ),
        }
    } else {
        Finding {
            check_name: "Resolution Divisibility (4x4 Blocks)"@,
            severity: FaultSeverity::Passed,
            message: "Resolution "@ + dimensions_text(width, height)
                + " perfectly aligns with standard 4x4 GPU texture blocks."@,
            recommendation: None,
        }
    }
}

/// The check of the four-character code. That of the HDR format is not standard.
pub open spec fn codec_finding(format: HapFormat) -> Finding {
    if format == HapFormat::HapH {
        Finding {
            check_name: "Codec FourCC Identification"@,
            severity: FaultSeverity::Warning,
            message: "Non-standard or experimental FourCC '"@ + format.code_chars() + "'."@,
            recommendation: Some("Verify media server compatibility."@),
        }
    } else {
        Finding {
            check_name: "Codec FourCC Identification"@,
            severity: FaultSeverity::Passed,
            message: "Standard compliant FourCC '"@ + format.code_chars() + "' ("@ + format.title()
                + ") recognized."@,
            recommendation: None,
        }
    }
}

/// The check that failed because a frame could not be read.
pub open spec fn read_finding(index: int, reason: Seq<char>) -> Finding {
    Finding {
        check_name: "Container Frame Read"@,
        severity: FaultSeverity::Critical,
        message: "Failed reading frame "@ + crate::text::decimal(index) + ": "@ + reason,
        recommendation: Some("File is truncated or QuickTime sample table is corrupt."@),
    }
}

/// The check of the compressed data.
pub open spec fn integrity_finding(undecodable: int, limit: int) -> Finding {
    if undecodable == 0 {
        Finding {
            check_name: "Snappy Stream Integrity"@,
            severity: FaultSeverity::Passed,
            message: "All scanned frames ("@ + crate::text::decimal(limit)
                + " total) decompressed with zero CRC or stream errors."@,
            recommendation: None,
        }
    } else {
        Finding {
            check_name: "Snappy Stream Integrity"@,
            severity: FaultSeverity::Critical,
            message: crate::text::decimal(undecodable) + " of "@ + crate::text::decimal(limit)
                + " scanned frames failed Snappy decompression."@,
            recommendation: Some(
                "The compressed data stream contains corrupted bytes or truncated blocks."@,
            ),
        }
    }
}

/// The check of the packet headers.
pub open spec fn alignment_finding(misaligned: int) -> Finding {
    if misaligned == 0 {
        Finding {
            check_name: "Packet Payload Alignment"@,
            severity: FaultSeverity::Passed,
            message: "All section headers match sample atom byte boundaries."@,
            recommendation: None,
        }
    } else {
        Finding {
            check_name: "Packet Payload Alignment"@,
            severity: FaultSeverity::Critical,
            message: crate::text::decimal(misaligned)
                + " frames had truncated or mismatched payload headers."@,
            recommendation: Some("File was partially written or terminated prematurely."@),
        }
    }
}

/// The video is of 4K or more, and some of it is not cut into chunks.
pub open spec fn is_sluggish(a: AuditSubject) -> bool {
    (a.width >= 3840 || a.height >= 2160) && (scan_of(a.packets).whole || a.frame_count == 0)
}

/// The check of the chunks.
pub open spec fn slices_finding(sluggish: bool) -> Finding {
    if sluggish {
        Finding {
            check_name: "Multi-Core Slice Distribution"@,
            severity: FaultSeverity::Warning,
            message: "High-resolution video (4K+) encoded with only 1 chunk. Media servers will only utilize 1 CPU thread."@,
            recommendation: Some(
                "Re-encode with 4 or 8 chunks for smooth 60/120 FPS multi-threaded playback."@,
            ),
        }
    } else {
        Finding {
            check_name: "Multi-Core Slice Distribution"@,
            severity: FaultSeverity::Passed,
            message: "Chunk distribution is appropriate for real-time parallel decoding."@,
            recommendation: None,
        }
    }
}

/// All findings of an audit, in their order.
pub open spec fn audit_findings(a: AuditSubject) -> Seq<Finding> {
    seq![resolution_finding(a.width, a.height), codec_finding(a.format)] + (match a.failure {
        Some((index, reason)) => seq![read_finding(index, reason)],
        None => Seq::empty(),
    }) + seq![
        integrity_finding(scan_of(a.packets).undecodable, a.limit),
        alignment_finding(scan_of(a.packets).misaligned),
        slices_finding(is_sluggish(a)),
    ]
}

/// Nothing is wrong with the stream.
pub open spec fn is_sound(a: AuditSubject) -> bool {
    &&& a.width % 4 == 0
    &&& a.height % 4 == 0
    &&& a.format != HapFormat::HapH
    &&& a.failure is None
    &&& forall|i: int|
        0 <= i < a.packets.len() ==> !is_undecodable(#[trigger] a.packets[i]) && !is_misaligned(
            a.packets[i],
        )
    &&& !is_sluggish(a)
}

/// Scans the frames of a stream one by one.
pub struct StreamAuditor {
    width: u32,
    height: u32,
    format: HapFormat,
    frame_count: usize,
    limit: usize,
    whole: bool,
    undecodable: usize,
    misaligned: usize,
    failure: Option<(usize, String)>,
    packets: Ghost<Seq<Seq<u8>>>,
}

impl View for StreamAuditor {
    type V = AuditSubject;

    closed spec fn view(&self) -> AuditSubject {
        AuditSubject {
            width: self.width as int,
            height: self.height as int,
            format: self.format,
            frame_count: self.frame_count as int,
            limit: self.limit as int,
            packets: self.packets@,
            failure: match self.failure {
                Some((index, reason)) => Some((index as int, reason@)),
                None => None,
            },
        }
    }
}

/// Scanning finds no more faults than packets, and none exactly if no packet has one.
#[verifier::spinoff_prover]
#[verifier::rlimit(40)]
proof fn lemma_scan(packets: Seq<Seq<u8>>)
    ensures
        0 <= scan_of(packets).undecodable <= packets.len(),
        0 <= scan_of(packets).misaligned <= packets.len(),
        scan_of(packets).undecodable == 0 && scan_of(packets).misaligned == 0 <==> forall|i: int|
            0 <= i < packets.len() ==> !is_undecodable(#[trigger] packets[i]) && !is_misaligned(
                packets[i],
            ),
    decreases packets.len(),
{
    if packets.len() > 0 {
        let front = packets.drop_last();
        lemma_scan(front);
        if scan_of(packets).undecodable == 0 && scan_of(packets).misaligned == 0 {
            assert forall|i: int| 0 <= i < packets.len() implies !is_undecodable(
                #[trigger] packets[i],
            ) && !is_misaligned(packets[i]) by {
                if i < front.len() {
                    assert(front[i] == packets[i]);
                }
            }
        }
        if forall|i: int|
            0 <= i < packets.len() ==> !is_undecodable(#[trigger] packets[i]) && !is_misaligned(
                packets[i],
            ) {
            assert(!is_undecodable(packets[packets.len() - 1]));
            assert forall|i: int| 0 <= i < front.len() implies !is_undecodable(
                #[trigger] front[i],
            ) && !is_misaligned(front[i]) by {
                assert(front[i] == packets[i]);
            }
        }
    }
}

/// Packets that are all cut into chunks are not taken for whole ones.
pub proof fn lemma_all_cut(packets: Seq<Seq<u8>>)
    requires
        forall|i: int| 0 <= i < packets.len() ==> !is_whole(#[trigger] packets[i]),
    ensures
        !scan_of(packets).whole,
    decreases packets.len(),
{
    if packets.len() > 0 {
        let front = packets.drop_last();
        assert forall|i: int| 0 <= i < front.len() implies !is_whole(#[trigger] front[i]) by {
            assert(front[i] == packets[i]);
        }
        lemma_all_cut(front);
        assert(!is_whole(packets[packets.len() - 1]));
    }
}

/// A finding without a recommendation.
fn passed(check_name: &'static str, message: String) -> (r: StreamFault)
    ensures
        r@ == (Finding {
            check_name: check_name@,
            severity: FaultSeverity::Passed,
            message: message@,
            recommendation: None,
        }),
{
    StreamFault { check_name, severity: FaultSeverity::Passed, message, recommendation: None }
}

/// A finding with a recommendation.
fn fault(
    check_name: &'static str,
    severity: FaultSeverity,
    message: String,
    recommendation: &str,
) -> (r: StreamFault)
    ensures
        r@ == (Finding {
            check_name: check_name@,
            severity,
            message: message@,
            recommendation: Some(recommendation@),
        }),
{
    StreamFault { check_name, severity, message, recommendation: Some(recommendation.to_owned()) }
}

/// Checks the dimensions.
fn check_resolution(width: u32, height: u32) -> (r: StreamFault)
    ensures
        r@ == resolution_finding(width as int, height as int),
{
    let mut m: String = "Resolution ".to_owned();
    push_decimal(&mut m, width as u64);
    m.append("x");
    push_decimal(&mut m, height as u64);
    assert(m@ =~= "Resolution "@ + dimensions_text(width as int, height as int));
    if width % 4 != 0 || height % 4 != 0 {
        m.append(
            " is not divisible by 4. Hardware decoders and media servers will crash or show diagonal shear.",
        );
        fault(
            "Resolution Divisibility (4x4 Blocks)",
            FaultSeverity::Critical,
            m,
            "Re-encode with dimensions padded to multiples of 4 (e.g. 1920x1080).",
        )
    } else {
        m.append(" perfectly aligns with standard 4x4 GPU texture blocks.");
        passed("Resolution Divisibility (4x4 Blocks)", m)
    }
}

/// Checks the four-character code.
fn check_codec(format: HapFormat) -> (r: StreamFault)
    ensures
        r@ == codec_finding(format),
{
    if format == HapFormat::HapH {
        let mut m: String = "Non-standard or experimental FourCC '".to_owned();
        m.append(format.fourcc_text());
        m.append("'.");
        fault(
            "Codec FourCC Identification",
            FaultSeverity::Warning,
            m,
            "Verify media server compatibility.",
        )
    } else {
        let mut m: String = "Standard compliant FourCC '".to_owned();
        m.append(format.fourcc_text());
        m.append("' (");
        m.append(format.name());
        m.append(") recognized.");
        passed("Codec FourCC Identification", m)
    }
}

/// Reports that a frame could not be read.
fn report_read(index: usize, reason: &str) -> (r: StreamFault)
    ensures
        r@ == read_finding(index as int, reason@),
{
    let mut m: String = "Failed reading frame ".to_owned();
    push_decimal(&mut m, index as u64);
    m.append(": ");
    m.append(reason);
    fault(
        "Container Frame Read",
        FaultSeverity::Critical,
        m,
        "File is truncated or QuickTime sample table is corrupt.",
    )
}

/// Checks the compressed data.
fn check_integrity(undecodable: usize, limit: usize) -> (r: StreamFault)
    ensures
        r@ == integrity_finding(undecodable as int, limit as int),
{
    if undecodable == 0 {
        let mut m: String = "All scanned frames (".to_owned();
        push_decimal(&mut m, limit as u64);
        m.append(" total) decompressed with zero CRC or stream errors.");
        passed("Snappy Stream Integrity", m)
    } else {
        let mut m: String = String::new();
        push_decimal(&mut m, undecodable as u64);
        assert(m@ =~= crate::text::decimal(undecodable as int));
        m.append(" of ");
        push_decimal(&mut m, limit as u64);
        m.append(" scanned frames failed Snappy decompression.");
        fault(
            "Snappy Stream Integrity",
            FaultSeverity::Critical,
            m,
            "The compressed data stream contains corrupted bytes or truncated blocks.",
        )
    }
}

/// Checks the packet headers.
fn check_alignment(misaligned: usize) -> (r: StreamFault)
    ensures
        r@ == alignment_finding(misaligned as int),
{
    if misaligned == 0 {
        passed(
            "Packet Payload Alignment",
            "All section headers match sample atom byte boundaries.".to_owned(),
        )
    } else {
        let mut m: String = String::new();
        push_decimal(&mut m, misaligned as u64);
        assert(m@ =~= crate::text::decimal(misaligned as int));
        m.append(" frames had truncated or mismatched payload headers.");
        fault(
            "Packet Payload Alignment",
            FaultSeverity::Critical,
            m,
            "File was partially written or terminated prematurely.",
        )
    }
}

/// Checks the chunks.
fn check_slices(sluggish: bool) -> (r: StreamFault)
    ensures
        r@ == slices_finding(sluggish),
{
    if sluggish {
        fault(
            "Multi-Core Slice Distribution",
            FaultSeverity::Warning,
            "High-resolution video (4K+) encoded with only 1 chunk. Media servers will only utilize 1 CPU thread.".to_owned(),
            "Re-encode with 4 or 8 chunks for smooth 60/120 FPS multi-threaded playback.",
        )
    } else {
        passed(
            "Multi-Core Slice Distribution",
            "Chunk distribution is appropriate for real-time parallel decoding.".to_owned(),
        )
    }
}

impl StreamAuditor {
    /// The counters are those of the packets scanned.
    pub closed spec fn wf(self) -> bool {
        &&& self.whole == scan_of(self.packets@).whole
        &&& self.undecodable == scan_of(self.packets@).undecodable
        &&& self.misaligned == scan_of(self.packets@).misaligned
        &&& self.packets@.len() <= self.limit
        &&& self.limit <= self.frame_count
    }

    /// Begins the audit of a stream, of which at most `max_frames_to_scan` frames are scanned.
    pub fn new(reader: &QtHapReader, max_frames_to_scan: usize) -> (r: Self)
        ensures
            r.wf(),
            r@ == (AuditSubject {
                width: reader@.width,
                height: reader@.height,
                format: reader@.format,
                frame_count: reader@.samples.len() as int,
                limit: if reader@.samples.len() <= max_frames_to_scan {
                    reader@.samples.len() as int
                } else {
                    max_frames_to_scan as int
                },
                packets: Seq::empty(),
                failure: None,
            }),
    {
        let frame_count: usize = reader.frame_count();
        let limit: usize = if frame_count <= max_frames_to_scan {
            frame_count
        } else {
            max_frames_to_scan
        };
        StreamAuditor {
            width: reader.width(),
            height: reader.height(),
            format: reader.format(),
            frame_count,
            limit,
            whole: false,
            undecodable: 0,
            misaligned: 0,
            failure: None,
            packets: Ghost(Seq::empty()),
        }
    }

    /// The number of frames to be scanned.
    pub fn scan_limit(&self) -> (r: usize)
        ensures
            r == self@.limit,
    {
        self.limit
    }

    /// Scans the packet of the next frame.
    pub fn scan_packet(&mut self, packet: &[u8])
        requires
            old(self).wf(),
            old(self)@.packets.len() < old(self)@.limit,
        ensures
            final(self).wf(),
            final(self)@ == (AuditSubject {
                packets: old(self)@.packets.push(packet@),
                ..old(self)@
            }),
    {
        proof {
            lemma_scan(self.packets@);
            assert(self.packets@.push(packet@).drop_last() =~= self.packets@);
            self.packets@ = self.packets@.push(packet@);
        }
        match SectionHeader::parse(packet) {
            Ok(hdr) => {
                if hdr.data_size > packet.len() - hdr.header_size {
                    self.misaligned = self.misaligned + 1;
                }
                if let Some((1, _)) = inspect_frame(packet) {
                    self.whole = true;
                }
                match decode_frame_to_texture(packet) {
                    Ok(_) => {},
                    Err(_) => {
                        self.undecodable = self.undecodable + 1;
                    },
                }
            },
            Err(_) => {
                self.misaligned = self.misaligned + 1;
            },
        }
    }

    /// Records that a frame could not be read, and why. Nothing more is scanned.
    pub fn read_failed(&mut self, index: usize, reason: &str)
        requires
            old(self).wf(),
        ensures
            final(self).wf(),
            final(self)@ == (AuditSubject {
                failure: Some((index as int, reason@)),
                ..old(self)@
            }),
    {
        self.failure = Some((index, reason.to_owned()));
    }

    /// Ends the audit. It is clean exactly if nothing is wrong with the stream.
    pub fn finish(self) -> (r: StreamAudit)
        requires
            self.wf(),
        ensures
            findings(r.checks@) == audit_findings(self@),
            r.frames_scanned == self@.limit,
            r.is_clean <==> is_sound(self@),
            r.is_clean <==> !any_of(findings(r.checks@), FaultSeverity::Warning) && !any_of(
                findings(r.checks@),
                FaultSeverity::Critical,
            ),
    {
        let mut checks: Vec<StreamFault> = Vec::new();
        checks.push(check_resolution(self.width, self.height));
        checks.push(check_codec(self.format));
        match &self.failure {
            Some((index, reason)) => {
                checks.push(report_read(*index, reason.as_str()));
            },
            None => {},
        }
        checks.push(check_integrity(self.undecodable, self.limit));
        checks.push(check_alignment(self.misaligned));
        let sluggish: bool = (self.width >= 3840 || self.height >= 2160) && (self.whole
            || self.frame_count == 0);
        checks.push(check_slices(sluggish));
        let ghost all = findings(checks@);
        assert(all =~= audit_findings(self@));
        let is_clean: bool = !find_severity(&checks, FaultSeverity::Warning) && !find_severity(
            &checks,
            FaultSeverity::Critical,
        );
        proof {
            lemma_scan(self.packets@);
            lemma_sound(self@);
        }
        StreamAudit { is_clean, frames_scanned: self.limit, checks }
    }
}

/// Every check passes exactly if nothing is wrong with the stream.
proof fn lemma_sound(a: AuditSubject)
    ensures
        is_sound(a) <==> !any_of(audit_findings(a), FaultSeverity::Warning) && !any_of(
            audit_findings(a),
            FaultSeverity::Critical,
        ),
{
    lemma_scan(a.packets);
    let all = audit_findings(a);
    assert(all[0] == resolution_finding(a.width, a.height));
    assert(all[1] == codec_finding(a.format));
    let n = all.len() as int;
    assert(all[n - 3] == integrity_finding(scan_of(a.packets).undecodable, a.limit));
    assert(all[n - 2] == alignment_finding(scan_of(a.packets).misaligned));
    assert(all[n - 1] == slices_finding(is_sluggish(a)));
    if a.failure is Some {
        assert(all[2].severity == FaultSeverity::Critical);
    }
}

/// The packets of the first `n` frames, up to the first that cannot be read.
pub open spec fn readable(
    r: crate::mov::reader::Reading,
    file: Seq<u8>,
    n: int,
) -> Seq<Seq<u8>>
    decreases n,
{
    if n <= 0 {
        Seq::empty()
    } else {
        let before = readable(r, file, n - 1);
        match crate::mov::reader::packet_of(r, file, n - 1) {
            Ok(p) => if before.len() == n - 1 {
                before.push(p)
            } else {
                before
            },
            Err(_) => before,
        }
    }
}

/// Audits a movie that is in memory. At most `max_frames_to_scan` frames are scanned, up to the
/// first that the file does not hold.
pub fn audit_hap_stream(reader: &QtHapReader, file: &[u8], max_frames_to_scan: usize) -> (r:
    StreamAudit)
    ensures
        ({
            let n = reader@.samples.len() as int;
            let limit = if n <= max_frames_to_scan {
                n
            } else {
                max_frames_to_scan as int
            };
            let packets = readable(reader@, file@, limit);
            let a = AuditSubject {
                width: reader@.width,
                height: reader@.height,
                format: reader@.format,
                frame_count: n,
                limit,
                packets,
                failure: if packets.len() < limit {
                    Some(
                        (packets.len() as int, "IO error: failed to fill whole buffer"@),
                    )
                } else {
                    None
                },
            };
            &&& findings(r.checks@) == audit_findings(a)
            &&& r.frames_scanned == limit
            &&& r.is_clean <==> is_sound(a)
        }),
        r.is_clean <==> !any_of(findings(r.checks@), FaultSeverity::Warning) && !any_of(
            findings(r.checks@),
            FaultSeverity::Critical,
        ),
{
    let mut auditor = StreamAuditor::new(reader, max_frames_to_scan);
    let limit: usize = auditor.scan_limit();
    let ghost blank = auditor@;
    let mut i: usize = 0;
    while i < limit
        invariant_except_break
            auditor@ == (AuditSubject { packets: readable(reader@, file@, i as int), ..blank }),
            readable(reader@, file@, i as int).len() == i,
        invariant
            auditor.wf(),
            i <= limit,
            limit == blank.limit,
            limit <= reader@.samples.len(),
            blank.packets == Seq::<Seq<u8>>::empty(),
            blank.failure is None,
        ensures
            ({
                let packets = readable(reader@, file@, limit as int);
                auditor@ == (AuditSubject {
                    packets,
                    failure: if packets.len() < limit {
                        Some((packets.len() as int, "IO error: failed to fill whole buffer"@))
                    } else {
                        None
                    },
                    ..blank
                })
            }),
        decreases limit - i,
    {
        match reader.read_frame_packet(file, i) {
            Ok(p) => {
                auditor.scan_packet(p.as_slice());
            },
            Err(_) => {
                auditor.read_failed(i, "IO error: failed to fill whole buffer");
                proof {
                    lemma_readable_stops(reader@, file@, i + 1, limit as int);
                }
                break;
            },
        }
        i = i + 1;
    }
    auditor.finish()
}

/// Nothing is read after a frame that cannot be.
proof fn lemma_readable_stops(r: crate::mov::reader::Reading, file: Seq<u8>, m: int, n: int)
    requires
        0 <= m <= n,
        readable(r, file, m).len() < m,
    ensures
        readable(r, file, n) == readable(r, file, m),
    decreases n - m,
{
    if m < n {
        lemma_readable_stops(r, file, m, n - 1);
    }
}

/// The packets that the scan counts: those with a header that no texture comes out of, and those
/// without a header or with one that announces more than the packet holds. A frame that is known to
/// be in one chunk is noticed wherever it comes.
pub proof fn law_scan_counts(packets: Seq<Seq<u8>>)
    ensures
        ({
            let s = scan_of(packets);
            &&& s.undecodable == packets.filter(
                |p: Seq<u8>|
                    crate::header::header_of(p) is Ok && crate::decoder::texture_of(p) is Err,
            ).len()
            &&& s.misaligned == packets.filter(
                |p: Seq<u8>|
                    match crate::header::header_of(p) {
                        Ok(h) => p.len() < h.header_size + h.data_size,
                        Err(_) => true,
                    },
            ).len()
            &&& s.whole <==> exists|i: int|
                0 <= i < packets.len() && (#[trigger] frame_layout(packets[i]) matches Some(l)
                    && l.chunks == 1)
        }),
    decreases packets.len(),
{
    reveal(Seq::filter);
    if packets.len() > 0 {
        let front = packets.drop_last();
        law_scan_counts(front);
        assert forall|i: int| 0 <= i < front.len() implies front[i] == packets[i] by {}
        if scan_of(front).whole {
            let i = choose|i: int|
                0 <= i < front.len() && (#[trigger] frame_layout(front[i]) matches Some(l)
                    && l.chunks == 1);
            assert(frame_layout(packets[i]) is Some);
        }
        if scan_of(packets).whole && !scan_of(front).whole {
            assert(frame_layout(packets[packets.len() - 1]) is Some);
        }
        if exists|i: int|
            0 <= i < packets.len() && (#[trigger] frame_layout(packets[i]) matches Some(l)
                && l.chunks == 1) {
            let i = choose|i: int|
                0 <= i < packets.len() && (#[trigger] frame_layout(packets[i]) matches Some(l)
                    && l.chunks == 1);
            if i < front.len() {
                assert(frame_layout(front[i]) is Some);
            }
        }
    }
}

/// How bad each finding is: dimensions that are no multiples of 4 are critical, and so is a frame
/// that cannot be read, one that cannot be decoded and one whose header does not fit; the HDR format
/// is worth a warning, and so is a video of 3840 by 2160 or more in one direction where a frame is
/// in one chunk or there is none. Whatever is not passed has a recommendation, and nothing else.
pub proof fn law_severities(a: AuditSubject, i: int)
    requires
        0 <= i < audit_findings(a).len(),
    ensures
        ({
            let f = audit_findings(a);
            let n = f.len() as int;
            let s = scan_of(a.packets);
            &&& n == if a.failure is Some {
                6int
            } else {
                5
            }
            &&& f[0].severity == FaultSeverity::Critical <==> a.width % 4 != 0 || a.height % 4 != 0
            &&& f[0].severity != FaultSeverity::Warning
            &&& f[1].severity == FaultSeverity::Warning <==> a.format == HapFormat::HapH
            &&& f[1].severity != FaultSeverity::Critical
            &&& a.failure is Some ==> f[2].severity == FaultSeverity::Critical
            &&& f[n - 3].severity == FaultSeverity::Critical <==> s.undecodable != 0
            &&& f[n - 3].severity != FaultSeverity::Warning
            &&& f[n - 2].severity == FaultSeverity::Critical <==> s.misaligned != 0
            &&& f[n - 2].severity != FaultSeverity::Warning
            &&& f[n - 1].severity == FaultSeverity::Warning <==> (3840 <= a.width || 2160
                <= a.height) && (s.whole || a.frame_count == 0)
            &&& f[n - 1].severity != FaultSeverity::Critical
            &&& f[i].recommendation is None <==> f[i].severity == FaultSeverity::Passed
        }),
{
}

/// The sizes of frames add up, one list after the other.
pub proof fn law_sizes_add_up(a: Seq<FrameSample>, b: Seq<FrameSample>, s: FrameSample)
    ensures
        total_size(a + b, (a + b).len() as int) == total_size(a, a.len() as int) + total_size(
            b,
            b.len() as int,
        ),
        total_size(seq![s], 1) == s.size,
        total_size(Seq::empty(), 0) == 0,
    decreases b.len(),
{
    reveal_with_fuel(total_size, 2);
    if b.len() > 0 {
        law_sizes_add_up(a, b.drop_last(), s);
        lemma_size_prefix(a + b, a + b.drop_last(), (a + b).len() - 1);
        lemma_size_prefix(b, b.drop_last(), b.len() - 1);
    } else {
        assert(a + b =~= a);
    }
}

proof fn lemma_size_prefix(a: Seq<FrameSample>, b: Seq<FrameSample>, n: int)
    requires
        0 <= n <= a.len(),
        n <= b.len(),
        forall|i: int| 0 <= i < n ==> a[i] == b[i],
    ensures
        total_size(a, n) == total_size(b, n),
    decreases n,
{
    if n > 0 {
        lemma_size_prefix(a, b, n - 1);
    }
}

/// How a frame of one section is stored, by its type: 0xA and 0xB in the high half are one chunk,
/// 0xB with Snappy; 0xC are the chunks that the instructions list. In a Hap Q Alpha frame the type
/// of the section inside counts.
pub proof fn law_layout_by_type(section_type: u8, payload: Seq<u8>)
    ensures
        ({
            let l = section_layout(section_type, payload);
            &&& section_type < 0xB0 || section_type > 0xCF ==> l == Some(
                Layout { chunks: 1, snappy: false },
            )
            &&& 0xB0 <= section_type <= 0xBF ==> l == Some(Layout { chunks: 1, snappy: true })
            &&& 0xC0 <= section_type <= 0xCF ==> match listed_chunks(payload) {
                Some(chunks) => {
                    &&& l is Some && l->0.chunks == chunks.len()
                    &&& l->0.snappy <==> exists|i: int|
                        0 <= i < chunks.len() && (#[trigger] chunks[i]).compressor == 0x0B
                },
                None => l is None,
            }
        }),
{
}

/// Nothing is saved where the packed bytes are as many as the raw ones, all where there are none,
/// and without raw bytes the savings are 0.
pub proof fn law_savings(raw: int, packed: int)
    requires
        1 <= raw < 0x100_0000,
    ensures
        crate::single::is_zero(savings(raw, raw)),
        crate::single::is_exactly(savings(0, raw), 100, 0),
        savings(packed, 0) == crate::single::whole_number(0),
{
    vstd::arithmetic::power2::lemma2_to64();
    let zero = crate::single::whole_number(0);
    let one = crate::single::whole_number(1);
    let hundred = crate::single::whole_number(100);
    let all = crate::single::whole_number(raw);
    assert(1 * raw == raw);
    assert(raw * crate::single::pow2(0) == raw) by (nonlinear_arith)
        requires
            crate::single::pow2(0) == 1,
    ;
    assert(1 * crate::single::pow2(0) == 1 && 100 * crate::single::pow2(0) == 100);
    crate::single::lemma_whole_number(0, 0);
    crate::single::lemma_whole_number(1, 0);
    crate::single::lemma_whole_number(100, 0);
    crate::single::lemma_whole_number(raw, 0);
    crate::single::lemma_exact_quotient(1, raw);
    crate::single::lemma_difference_exact(one, 1, one, 1, 0);
    let none = crate::single::difference(one, one);
    assert(crate::single::is_zero(none));
    crate::single::lemma_zero_arithmetic(none, hundred);
    crate::single::lemma_less_units(zero, 0, all, raw, 0);
    crate::single::lemma_zero(all);
    crate::single::lemma_zero_arithmetic(zero, all);
    let q = crate::single::quotient(zero, all);
    crate::single::lemma_difference_exact(one, 1, q, 0, 0);
    let d = crate::single::difference(one, q);
    crate::single::lemma_product_units(d, 1, 0, hundred, 100, 0);
}

} // verus!
