//! Section headers and chunk tables of HAP frames.

use crate::bytes::{push_all, push_le32, read_le32};
use crate::text::push_decimal;
use vstd::prelude::*;
use vstd::slice::slice_subrange;

verus! {

/// Errors of reading section headers and chunk tables.
#[derive(Debug, PartialEq, Eq)]
pub enum HeaderError {
    /// The buffer is too small for a header.
    BufferTooSmall { expected: usize, actual: usize },
    /// A section extends past the buffer.
    Truncated { need: usize, have: usize },
    /// A section type that is unknown or out of place.
    UnknownSectionType(u8),
    /// Malformed decode instructions.
    InvalidDecodeInstructions(String),
    /// A malformed multi-image section.
    InvalidMultiImage(String),
}

/// A header error, with its text as characters.
pub enum HeaderFault {
    BufferTooSmall { expected: int, actual: int },
    Truncated { need: int, have: int },
    UnknownSectionType(u8),
    InvalidDecodeInstructions(Seq<char>),
    InvalidMultiImage(Seq<char>),
}

impl View for HeaderError {
    type V = HeaderFault;

    open spec fn view(&self) -> HeaderFault {
        match *self {
            HeaderError::BufferTooSmall { expected, actual } => HeaderFault::BufferTooSmall {
                expected: expected as int,
                actual: actual as int,
            },
            HeaderError::Truncated { need, have } => HeaderFault::Truncated {
                need: need as int,
                have: have as int,
            },
            HeaderError::UnknownSectionType(t) => HeaderFault::UnknownSectionType(t),
            HeaderError::InvalidDecodeInstructions(m) => {
                HeaderFault::InvalidDecodeInstructions(m@)
            },
            HeaderError::InvalidMultiImage(m) => HeaderFault::InvalidMultiImage(m@),
        }
    }
}

/// A parsed section header.
#[derive(Debug, Clone, Copy, PartialEq, Eq)]
pub struct SectionHeader {
    /// Bytes in the header itself: 4 or 8.
    pub header_size: usize,
    /// Bytes of section data after the header.
    pub data_size: usize,
    /// The type of the section.
    pub section_type: u8,
}

/// The header at the start of a buffer. Three zero bytes announce the long form, with the size
/// in four bytes after the type; otherwise the size stands in the first three bytes.
pub open spec fn header_of(buf: Seq<u8>) -> Result<SectionHeader, HeaderFault> {
    if buf.len() < 4 {
        Err(HeaderFault::BufferTooSmall { expected: 4, actual: buf.len() as int })
    } else if crate::bytes::le24(buf, 0) != 0 {
        Ok(
            SectionHeader {
                header_size: 4usize,
                data_size: crate::bytes::le24(buf, 0) as usize,
                section_type: buf[3],
            },
        )
    } else if buf.len() < 8 {
        Err(HeaderFault::BufferTooSmall { expected: 8, actual: buf.len() as int })
    } else {
        Ok(
            SectionHeader {
                header_size: 8usize,
                data_size: crate::bytes::le32(buf, 4) as usize,
                section_type: buf[3],
            },
        )
    }
}

/// The header of a section of `size` bytes.
pub open spec fn header_bytes(section_type: u8, size: int) -> Seq<u8> {
    if 0 < size <= 0xFF_FFFF {
        seq![
            (size % 0x100) as u8,
            (size / 0x100 % 0x100) as u8,
            (size / 0x1_0000 % 0x100) as u8,
            section_type,
        ]
    } else {
        seq![0u8, 0u8, 0u8, section_type] + crate::bytes::le32_bytes(size)
    }
}

/// A section: its header and its data.
pub open spec fn section(section_type: u8, data: Seq<u8>) -> Seq<u8> {
    header_bytes(section_type, data.len() as int) + data
}

impl SectionHeader {
    /// Reads the section header at the start of a buffer.
    pub fn parse(buf: &[u8]) -> (r: Result<Self, HeaderError>)
        ensures
            match r {
                Ok(h) => header_of(buf@) == Ok::<SectionHeader, HeaderFault>(h),
                Err(e) => header_of(buf@) == Err::<SectionHeader, HeaderFault>(e@),
            },
    {
        if buf.len() < 4 {
            return Err(HeaderError::BufferTooSmall { expected: 4, actual: buf.len() });
        }
        if buf[0] == 0 && buf[1] == 0 && buf[2] == 0 {
            if buf.len() < 8 {
                return Err(HeaderError::BufferTooSmall { expected: 8, actual: buf.len() });
            }
            Ok(
                SectionHeader {
                    header_size: 8,
                    data_size: read_le32(buf, 4) as usize,
                    section_type: buf[3],
                },
            )
        } else {
            let data_size: usize = buf[0] as usize + buf[1] as usize * 0x100 + buf[2] as usize
                * 0x1_0000;
            Ok(SectionHeader { header_size: 4, data_size, section_type: buf[3] })
        }
    }

    /// Appends the header of a section of `data_size` bytes. The long form keeps the low four
    /// bytes of the size.
    pub fn write_header(section_type: u8, data_size: usize, out: &mut Vec<u8>)
        ensures
            final(out)@ == old(out)@ + header_bytes(section_type, data_size as int),
    {
        let ghost before = out@;
        if data_size <= 0xFF_FFFF && data_size > 0 {
            out.push((data_size % 0x100) as u8);
            out.push((data_size / 0x100 % 0x100) as u8);
            out.push((data_size / 0x1_0000 % 0x100) as u8);
            out.push(section_type);
        } else {
            out.push(0);
            out.push(0);
            out.push(0);
            out.push(section_type);
            push_le32(out, low_half(data_size));
        }
        assert(out@ =~= before + header_bytes(section_type, data_size as int));
    }
}

/// The low 32 bits of a size.
fn low_half(size: usize) -> (r: u32)
    ensures
        r == size as int % 0x1_0000_0000,
        crate::bytes::le32_bytes(r as int) == crate::bytes::le32_bytes(size as int),
{
    let r: u32 = (size as u64 % 0x1_0000_0000) as u32;
    proof {
        crate::bytes::lemma_low_bytes(size as int);
    }
    assert(crate::bytes::le32_bytes(r as int) =~= crate::bytes::le32_bytes(size as int));
    r
}

/// A header is read back as it was written, whatever follows it.
pub proof fn law_header_round_trip(section_type: u8, size: int, rest: Seq<u8>)
    requires
        0 <= size <= u32::MAX,
    ensures
        header_of(header_bytes(section_type, size) + rest) == Ok::<SectionHeader, HeaderFault>(
            SectionHeader {
                header_size: header_bytes(section_type, size).len() as usize,
                data_size: size as usize,
                section_type,
            },
        ),
{
    let h = header_bytes(section_type, size);
    let b = h + rest;
    assert(forall|i: int| 0 <= i < h.len() ==> b[i] == h[i]);
    if !(0 < size <= 0xFF_FFFF) {
        let tail = crate::bytes::le32_bytes(size);
        crate::bytes::law_bytes_round_trip(size);
        assert(b.subrange(4, 8) =~= tail);
        crate::bytes::lemma_read_at(b, 4, tail);
    }
}

/// Where a chunk of a chunked frame lies and how it is compressed.
#[derive(Debug, Clone, Copy, PartialEq, Eq)]
pub struct ChunkInfo {
    /// Byte offset of the chunk from the start of the frame data.
    pub offset: usize,
    /// Byte size of the chunk.
    pub size: usize,
    /// 0x0A (uncompressed) or 0x0B (Snappy).
    pub compressor: u8,
}

/// The chunk table of a frame.
#[derive(Debug, Clone, PartialEq, Eq)]
pub struct DecodeInstructions {
    pub chunks: Vec<ChunkInfo>,
}

/// The three tables that decode instructions are made of.
pub struct ChunkTables {
    pub compressors: Seq<u8>,
    pub sizes: Seq<int>,
    pub offsets: Seq<int>,
}

/// A table of four-byte integers.
pub open spec fn le32_table(data: Seq<u8>) -> Seq<int> {
    Seq::new(data.len() / 4, |i: int| crate::bytes::le32(data, 4 * i))
}

/// The largest value that a size can have.
pub open spec fn capped(n: int) -> int {
    if n > usize::MAX {
        usize::MAX as int
    } else {
        n
    }
}

/// The tables found from position `at` on, added to those found before. A section of an unknown
/// type is passed over.
#[verifier::opaque]
pub open spec fn read_tables(p: Seq<u8>, at: int, t: ChunkTables) -> Result<
    ChunkTables,
    HeaderFault,
>
    decreases p.len() - at,
{
    if at < 0 || at >= p.len() {
        Ok(t)
    } else {
        match header_of(p.subrange(at, p.len() as int)) {
            Err(e) => Err(e),
            Ok(h) => {
                let start = at + h.header_size;
                let end = start + h.data_size;
                if end > p.len() {
                    Err(HeaderFault::Truncated { need: capped(end), have: p.len() as int })
                } else {
                    let data = p.subrange(start, end);
                    if h.section_type == 0x02 {
                        read_tables(
                            p,
                            end,
                            ChunkTables { compressors: t.compressors + data, ..t },
                        )
                    } else if h.section_type == 0x03 {
                        if data.len() % 4 != 0 {
                            Err(
                                HeaderFault::InvalidDecodeInstructions(
                                    "Chunk size table length is not a multiple of 4"@,
                                ),
                            )
                        } else {
                            read_tables(
                                p,
                                end,
                                ChunkTables { sizes: t.sizes + le32_table(data), ..t },
                            )
                        }
                    } else if h.section_type == 0x04 {
                        if data.len() % 4 != 0 {
                            Err(
                                HeaderFault::InvalidDecodeInstructions(
                                    "Chunk offset table length is not a multiple of 4"@,
                                ),
                            )
                        } else {
                            read_tables(
                                p,
                                end,
                                ChunkTables { offsets: t.offsets + le32_table(data), ..t },
                            )
                        }
                    } else {
                        read_tables(p, end, t)
                    }
                }
            },
        }
    }
}

pub open spec fn no_tables() -> ChunkTables {
    ChunkTables { compressors: Seq::empty(), sizes: Seq::empty(), offsets: Seq::empty() }
}

/// The sum of the first `n` sizes.
pub open spec fn total(sizes: Seq<int>, n: int) -> int
    decreases n,
{
    if n <= 0 {
        0
    } else {
        total(sizes, n - 1) + sizes[n - 1]
    }
}

/// The chunk table: each chunk lies at its offset, or where the chunks before it end if the
/// table of offsets is shorter.
pub open spec fn chunk_list(t: ChunkTables) -> Seq<ChunkInfo> {
    Seq::new(
        t.sizes.len(),
        |i: int|
            ChunkInfo {
                offset: (if i < t.offsets.len() {
                    t.offsets[i]
                } else {
                    capped(total(t.sizes, i))
                }) as usize,
                size: t.sizes[i] as usize,
                compressor: t.compressors[i],
            },
    )
}

/// What a decode instructions payload says.
pub open spec fn instructions_of(p: Seq<u8>) -> Result<Seq<ChunkInfo>, HeaderFault> {
    match read_tables(p, 0, no_tables()) {
        Err(e) => Err(e),
        Ok(t) => if t.compressors.len() != t.sizes.len() {
            Err(
                HeaderFault::InvalidDecodeInstructions(
                    "Compressor count ("@ + crate::text::decimal(t.compressors.len() as int)
                        + ") does not match chunk count ("@ + crate::text::decimal(
                        t.sizes.len() as int,
                    ) + ")"@,
                ),
            )
        } else {
            Ok(chunk_list(t))
        },
    }
}

/// The table of compressors as bytes.
pub open spec fn compressor_bytes(chunks: Seq<ChunkInfo>) -> Seq<u8> {
    Seq::new(chunks.len(), |i: int| chunks[i].compressor)
}

/// The table of sizes as bytes.
pub open spec fn size_bytes(chunks: Seq<ChunkInfo>) -> Seq<u8>
    decreases chunks.len(),
{
    if chunks.len() == 0 {
        Seq::empty()
    } else {
        size_bytes(chunks.drop_last()) + crate::bytes::le32_bytes(chunks.last().size as int)
    }
}

/// The table of offsets as bytes.
pub open spec fn offset_bytes(chunks: Seq<ChunkInfo>) -> Seq<u8>
    decreases chunks.len(),
{
    if chunks.len() == 0 {
        Seq::empty()
    } else {
        offset_bytes(chunks.drop_last()) + crate::bytes::le32_bytes(chunks.last().offset as int)
    }
}

/// The decode instructions payload for a chunk table.
pub open spec fn instruction_bytes(chunks: Seq<ChunkInfo>) -> Seq<u8> {
    section(0x02, compressor_bytes(chunks)) + section(0x03, size_bytes(chunks)) + section(
        0x04,
        offset_bytes(chunks),
    )
}

/// Appends the integers of a table to those read before.
fn append_table(out: &mut Vec<usize>, data: &[u8])
    requires
        data@.len() % 4 == 0,
    ensures
        final(out)@.map_values(|v: usize| v as int) == old(out)@.map_values(|v: usize| v as int)
            + le32_table(data@),
        forall|i: int| 0 <= i < le32_table(data@).len() ==> 0 <= #[trigger] le32_table(data@)[i]
            <= u32::MAX,
{
    let mut i: usize = 0;
    let count: usize = data.len() / 4;
    while i < count
        invariant
            i <= count,
            count == data@.len() / 4,
            data@.len() <= usize::MAX,
            out@.map_values(|v: usize| v as int) == old(out)@.map_values(|v: usize| v as int)
                + le32_table(data@).subrange(0, i as int),
        decreases count - i,
    {
        let ghost before = out@;
        out.push(read_le32(data, 4 * i) as usize);
        i = i + 1;
        assert(out@.map_values(|v: usize| v as int) =~= before.map_values(|v: usize| v as int).push(
            le32_table(data@)[i - 1],
        ));
        assert(le32_table(data@).subrange(0, i as int) =~= le32_table(data@).subrange(
            0,
            i - 1,
        ).push(le32_table(data@)[i - 1]));
    }
    assert(le32_table(data@).subrange(0, i as int) =~= le32_table(data@));
}

impl DecodeInstructions {
    /// Reads the decode instructions from the payload of a 0x01 section.
    pub fn parse(payload: &[u8]) -> (r: Result<Self, HeaderError>)
        ensures
            match r {
                Ok(d) => instructions_of(payload@) == Ok::<Seq<ChunkInfo>, HeaderFault>(d.chunks@),
                Err(e) => instructions_of(payload@) == Err::<Seq<ChunkInfo>, HeaderFault>(e@),
            },
    {
        let mut offset: usize = 0;
        let mut compressors: Vec<u8> = Vec::new();
        let mut sizes: Vec<usize> = Vec::new();
        let mut offsets: Vec<usize> = Vec::new();
        proof {
            assert(compressors@ =~= Seq::<u8>::empty());
            assert(sizes@.map_values(|v: usize| v as int) =~= Seq::<int>::empty());
            assert(offsets@.map_values(|v: usize| v as int) =~= Seq::<int>::empty());
        }
        while offset < payload.len()
            invariant
                offset <= payload@.len(),
                read_tables(payload@, 0, no_tables()) == read_tables(
                    payload@,
                    offset as int,
                    ChunkTables {
                        compressors: compressors@,
                        sizes: sizes@.map_values(|v: usize| v as int),
                        offsets: offsets@.map_values(|v: usize| v as int),
                    },
                ),
            decreases payload@.len() - offset,
        {
            proof {
                reveal(read_tables);
            }
            let hdr = match SectionHeader::parse(slice_subrange(payload, offset, payload.len())) {
                Ok(h) => h,
                Err(e) => return Err(e),
            };
            let sec_start: usize = offset + hdr.header_size;
            if hdr.data_size > payload.len() - sec_start {
                return Err(
                    HeaderError::Truncated {
                        need: sec_start.saturating_add(hdr.data_size),
                        have: payload.len(),
                    },
                );
            }
            let sec_end: usize = sec_start + hdr.data_size;
            let data = slice_subrange(payload, sec_start, sec_end);
            match hdr.section_type {
                0x02 => push_all(&mut compressors, data),
                0x03 => {
                    if data.len() % 4 != 0 {
                        return Err(
                            HeaderError::InvalidDecodeInstructions(
                                "Chunk size table length is not a multiple of 4".to_owned(),
                            ),
                        );
                    }
                    append_table(&mut sizes, data);
                },
                0x04 => {
                    if data.len() % 4 != 0 {
                        return Err(
                            HeaderError::InvalidDecodeInstructions(
                                "Chunk offset table length is not a multiple of 4".to_owned(),
                            ),
                        );
                    }
                    append_table(&mut offsets, data);
                },
                _ => {},
            }
            offset = sec_end;
        }
        let ghost t = ChunkTables {
            compressors: compressors@,
            sizes: sizes@.map_values(|v: usize| v as int),
            offsets: offsets@.map_values(|v: usize| v as int),
        };
        assert(read_tables(payload@, 0, no_tables()) == Ok::<ChunkTables, HeaderFault>(t)) by {
            reveal(read_tables);
        }
        if compressors.len() != sizes.len() {
            let mut m: String = String::new();
            m.append("Compressor count (");
            push_decimal(&mut m, compressors.len() as u64);
            m.append(") does not match chunk count (");
            push_decimal(&mut m, sizes.len() as u64);
            m.append(")");
            assert(m@ =~= "Compressor count ("@ + crate::text::decimal(compressors@.len() as int)
                + ") does not match chunk count ("@ + crate::text::decimal(sizes@.len() as int)
                + ")"@);
            return Err(HeaderError::InvalidDecodeInstructions(m));
        }
        let mut chunks: Vec<ChunkInfo> = Vec::new();
        let mut running: usize = 0;
        let mut i: usize = 0;
        while i < sizes.len()
            invariant
                i <= sizes@.len(),
                sizes@.len() == compressors@.len(),
                t == (ChunkTables {
                    compressors: compressors@,
                    sizes: sizes@.map_values(|v: usize| v as int),
                    offsets: offsets@.map_values(|v: usize| v as int),
                }),
                running == capped(total(t.sizes, i as int)),
                total(t.sizes, i as int) >= 0,
                chunks@ == chunk_list(t).subrange(0, i as int),
            decreases sizes@.len() - i,
        {
            let offset: usize = if i < offsets.len() { offsets[i] } else { running };
            chunks.push(ChunkInfo { offset, size: sizes[i], compressor: compressors[i] });
            running = running.saturating_add(sizes[i]);
            i = i + 1;
            assert(chunk_list(t).subrange(0, i as int) =~= chunk_list(t).subrange(0, i - 1).push(
                chunk_list(t)[i - 1],
            ));
        }
        assert(chunk_list(t).subrange(0, i as int) =~= chunk_list(t));
        Ok(DecodeInstructions { chunks })
    }

    /// Builds the decode instructions payload for a chunk table.
    pub fn build(chunks: &[ChunkInfo]) -> (out: Vec<u8>)
        ensures
            out@ == instruction_bytes(chunks@),
    {
        let mut compressors: Vec<u8> = Vec::new();
        let mut sizes: Vec<u8> = Vec::new();
        let mut offsets: Vec<u8> = Vec::new();
        let mut i: usize = 0;
        while i < chunks.len()
            invariant
                i <= chunks@.len(),
                compressors@ == compressor_bytes(chunks@.subrange(0, i as int)),
                sizes@ == size_bytes(chunks@.subrange(0, i as int)),
                offsets@ == offset_bytes(chunks@.subrange(0, i as int)),
            decreases chunks@.len() - i,
        {
            compressors.push(chunks[i].compressor);
            push_le32(&mut sizes, low_half(chunks[i].size));
            push_le32(&mut offsets, low_half(chunks[i].offset));
            i = i + 1;
            assert(chunks@.subrange(0, i as int).drop_last() =~= chunks@.subrange(0, i - 1));
            assert(compressor_bytes(chunks@.subrange(0, i as int)) =~= compressor_bytes(
                chunks@.subrange(0, i - 1),
            ).push(chunks@[i - 1].compressor));
        }
        assert(chunks@.subrange(0, i as int) =~= chunks@);
        let mut out: Vec<u8> = Vec::new();
        SectionHeader::write_header(0x02, compressors.len(), &mut out);
        push_all(&mut out, compressors.as_slice());
        SectionHeader::write_header(0x03, sizes.len(), &mut out);
        push_all(&mut out, sizes.as_slice());
        SectionHeader::write_header(0x04, offsets.len(), &mut out);
        push_all(&mut out, offsets.as_slice());
        assert(out@ =~= instruction_bytes(chunks@));
        out
    }
}

proof fn lemma_tables(chunks: Seq<ChunkInfo>)
    requires
        forall|i: int|
            0 <= i < chunks.len() ==> (#[trigger] chunks[i]).size <= u32::MAX && chunks[i].offset
                <= u32::MAX,
    ensures
        size_bytes(chunks).len() == 4 * chunks.len(),
        offset_bytes(chunks).len() == 4 * chunks.len(),
        le32_table(size_bytes(chunks)) == Seq::new(chunks.len(), |i: int| chunks[i].size as int),
        le32_table(offset_bytes(chunks)) == Seq::new(
            chunks.len(),
            |i: int| chunks[i].offset as int,
        ),
    decreases chunks.len(),
{
    if chunks.len() > 0 {
        let front = chunks.drop_last();
        lemma_tables(front);
        let n = front.len() as int;
        let sizes = size_bytes(chunks);
        let offsets = offset_bytes(chunks);
        let last = chunks.last();
        crate::bytes::law_bytes_round_trip(last.size as int);
        crate::bytes::law_bytes_round_trip(last.offset as int);
        assert(sizes.subrange(4 * n, 4 * n + 4) =~= crate::bytes::le32_bytes(last.size as int));
        crate::bytes::lemma_read_at(sizes, 4 * n, crate::bytes::le32_bytes(last.size as int));
        assert(offsets.subrange(4 * n, 4 * n + 4) =~= crate::bytes::le32_bytes(
            last.offset as int,
        ));
        crate::bytes::lemma_read_at(offsets, 4 * n, crate::bytes::le32_bytes(last.offset as int));
        assert forall|i: int| 0 <= i < chunks.len() implies #[trigger] le32_table(sizes)[i]
            == chunks[i].size by {
            if i < n {
                assert(le32_table(size_bytes(front))[i] == front[i].size);
                assert(forall|j: int| 0 <= j < 4 * n ==> sizes[j] == size_bytes(front)[j]);
            }
        }
        assert forall|i: int| 0 <= i < chunks.len() implies #[trigger] le32_table(offsets)[i]
            == chunks[i].offset by {
            if i < n {
                assert(le32_table(offset_bytes(front))[i] == front[i].offset);
                assert(forall|j: int| 0 <= j < 4 * n ==> offsets[j] == offset_bytes(front)[j]);
            }
        }
        assert(le32_table(sizes) =~= Seq::new(chunks.len(), |i: int| chunks[i].size as int));
        assert(le32_table(offsets) =~= Seq::new(chunks.len(), |i: int| chunks[i].offset as int));
    } else {
        assert(le32_table(size_bytes(chunks)) =~= Seq::new(
            chunks.len(),
            |i: int| chunks[i].size as int,
        ));
        assert(le32_table(offset_bytes(chunks)) =~= Seq::new(
            chunks.len(),
            |i: int| chunks[i].offset as int,
        ));
    }
}

/// A section that stands at `at` is found there.
pub proof fn lemma_section_at(p: Seq<u8>, at: int, section_type: u8, data: Seq<u8>, rest: Seq<u8>)
    requires
        0 <= at <= p.len(),
        data.len() <= u32::MAX,
        p.subrange(at, p.len() as int) == section(section_type, data) + rest,
    ensures
        ({
            let n = header_bytes(section_type, data.len() as int).len() as int;
            &&& 4 <= n <= 8
            &&& header_of(p.subrange(at, p.len() as int)) == Ok::<SectionHeader, HeaderFault>(
                SectionHeader {
                    header_size: n as usize,
                    data_size: data.len() as usize,
                    section_type,
                },
            )
            &&& at + n + data.len() <= p.len()
            &&& p.subrange(at + n, at + n + data.len()) == data
            &&& p.subrange(at + n + data.len(), p.len() as int) == rest
        }),
{
    let h = header_bytes(section_type, data.len() as int);
    let n = h.len() as int;
    let q = p.subrange(at, p.len() as int);
    assert(q =~= h + (data + rest));
    law_header_round_trip(section_type, data.len() as int, data + rest);
    assert(p.subrange(at + n, at + n + data.len()) =~= q.subrange(n, n + data.len()));
    assert(q.subrange(n, n + data.len()) =~= data);
    assert(p.subrange(at + n + data.len(), p.len() as int) =~= q.subrange(
        n + data.len(),
        q.len() as int,
    ));
    assert(q.subrange(n + data.len(), q.len() as int) =~= rest);
}

/// What the reader makes of one more section.
proof fn lemma_read_section(
    p: Seq<u8>,
    at: int,
    section_type: u8,
    data: Seq<u8>,
    rest: Seq<u8>,
    t: ChunkTables,
)
    requires
        0 <= at < p.len(),
        data.len() <= u32::MAX,
        p.subrange(at, p.len() as int) == section(section_type, data) + rest,
        section_type == 0x02 || data.len() % 4 == 0,
    ensures
        ({
            let end = at + section(section_type, data).len();
            &&& p.subrange(end, p.len() as int) == rest
            &&& end <= p.len()
            &&& section_type == 0x02 ==> read_tables(p, at, t) == read_tables(
                p,
                end,
                ChunkTables { compressors: t.compressors + data, ..t },
            )
            &&& section_type == 0x03 ==> read_tables(p, at, t) == read_tables(
                p,
                end,
                ChunkTables { sizes: t.sizes + le32_table(data), ..t },
            )
            &&& section_type == 0x04 ==> read_tables(p, at, t) == read_tables(
                p,
                end,
                ChunkTables { offsets: t.offsets + le32_table(data), ..t },
            )
        }),
{
    reveal(read_tables);
    lemma_section_at(p, at, section_type, data, rest);
}

/// A chunk table is read back as it was built.
pub proof fn law_instructions_round_trip(chunks: Seq<ChunkInfo>)
    requires
        4 * chunks.len() <= u32::MAX,
        forall|i: int|
            0 <= i < chunks.len() ==> (#[trigger] chunks[i]).size <= u32::MAX && chunks[i].offset
                <= u32::MAX,
    ensures
        instructions_of(instruction_bytes(chunks)) == Ok::<Seq<ChunkInfo>, HeaderFault>(chunks),
{
    lemma_tables(chunks);
    let a = compressor_bytes(chunks);
    let b = size_bytes(chunks);
    let c = offset_bytes(chunks);
    let p = instruction_bytes(chunks);
    let len = p.len() as int;
    let rest1 = section(0x03, b) + section(0x04, c);
    let rest2 = section(0x04, c);
    let rest3 = Seq::<u8>::empty();
    let t0 = no_tables();
    let t1 = ChunkTables { compressors: t0.compressors + a, ..t0 };
    let t2 = ChunkTables { sizes: t1.sizes + le32_table(b), ..t1 };
    let t3 = ChunkTables { offsets: t2.offsets + le32_table(c), ..t2 };
    assert(p.subrange(0, len) =~= section(0x02, a) + rest1);
    lemma_read_section(p, 0, 0x02, a, rest1, t0);
    let at1 = section(0x02, a).len() as int;
    lemma_read_section(p, at1, 0x03, b, rest2, t1);
    let at2 = at1 + section(0x03, b).len();
    assert(rest2 =~= rest2 + rest3);
    lemma_read_section(p, at2, 0x04, c, rest3, t2);
    let at3 = at2 + section(0x04, c).len();
    assert(at3 == len);
    assert(read_tables(p, len, t3) == Ok::<ChunkTables, HeaderFault>(t3)) by {
        reveal(read_tables);
    }
    assert(t3.sizes =~= le32_table(b));
    assert(t3.offsets =~= le32_table(c));
    assert(t3.compressors =~= a);
    assert(chunk_list(t3) =~= chunks);
}

/// What the data of a sub-section adds to the tables found before it.
spec fn with_table(section_type: u8, data: Seq<u8>, t: ChunkTables) -> Result<
    ChunkTables,
    HeaderFault,
> {
    if section_type == 0x02 {
        Ok(ChunkTables { compressors: t.compressors + data, ..t })
    } else if section_type == 0x03 && data.len() % 4 == 0 {
        Ok(ChunkTables { sizes: t.sizes + le32_table(data), ..t })
    } else if section_type == 0x03 {
        Err(
            HeaderFault::InvalidDecodeInstructions(
                "Chunk size table length is not a multiple of 4"@,
            ),
        )
    } else if section_type == 0x04 && data.len() % 4 == 0 {
        Ok(ChunkTables { offsets: t.offsets + le32_table(data), ..t })
    } else if section_type == 0x04 {
        Err(
            HeaderFault::InvalidDecodeInstructions(
                "Chunk offset table length is not a multiple of 4"@,
            ),
        )
    } else {
        Ok(t)
    }
}

/// A sub-section is read, and what follows it after that.
proof fn lemma_read_step(p: Seq<u8>, at: int, h: SectionHeader, t: ChunkTables)
    requires
        0 <= at < p.len(),
        header_of(p.subrange(at, p.len() as int)) == Ok::<SectionHeader, HeaderFault>(h),
        at + h.header_size + h.data_size <= p.len(),
    ensures
        ({
            let start = at + h.header_size;
            let end = start + h.data_size;
            read_tables(p, at, t) == match with_table(h.section_type, p.subrange(start, end), t) {
                Err(e) => Err(e),
                Ok(more) => read_tables(p, end, more),
            }
        }),
{
    reveal(read_tables);
}

/// The header at the start of a buffer is the same whatever is appended to the buffer.
proof fn lemma_header_extended(buf: Seq<u8>, rest: Seq<u8>)
    requires
        header_of(buf) is Ok,
    ensures
        header_of(buf + rest) == header_of(buf),
{
    assert(forall|i: int| 0 <= i < buf.len() ==> (buf + rest)[i] == buf[i]);
}

/// The readings are the same, or both fail.
spec fn same_tables(
    a: Result<ChunkTables, HeaderFault>,
    b: Result<ChunkTables, HeaderFault>,
) -> bool {
    a == b || a is Err && b is Err
}

/// What is read of a common end does not depend on what stands before it.
proof fn lemma_same_end(x: Seq<u8>, y: Seq<u8>, end: Seq<u8>, k: int, t: ChunkTables)
    requires
        0 <= k <= end.len(),
    ensures
        same_tables(
            read_tables(x + end, x.len() + k, t),
            read_tables(y + end, y.len() + k, t),
        ),
    decreases end.len() - k,
{
    let p = x + end;
    let q = y + end;
    let at = x.len() + k;
    let to = y.len() + k;
    if k == end.len() {
        reveal(read_tables);
    } else {
        let left = end.subrange(k, end.len() as int);
        assert(p.subrange(at, p.len() as int) =~= left);
        assert(q.subrange(to, q.len() as int) =~= left);
        match header_of(left) {
            Err(_) => {
                reveal(read_tables);
            },
            Ok(h) => {
                let size = h.header_size + h.data_size;
                if k + size > end.len() {
                    reveal(read_tables);
                } else {
                    lemma_read_step(p, at, h, t);
                    lemma_read_step(q, to, h, t);
                    assert(p.subrange(at + h.header_size, at + size) =~= q.subrange(
                        to + h.header_size,
                        to + size,
                    ));
                    let data = p.subrange(at + h.header_size, at + size);
                    if let Ok(more) = with_table(h.section_type, data, t) {
                        lemma_same_end(x, y, end, k + size, more);
                    }
                }
            },
        }
    }
}

/// The bytes from position `at` on are whole sections, one after the other.
pub open spec fn whole_sections(p: Seq<u8>, at: int) -> bool
    decreases p.len() - at,
{
    ||| at == p.len()
    ||| 0 <= at < p.len() && match header_of(p.subrange(at, p.len() as int)) {
        Err(_) => false,
        Ok(h) => at + h.header_size + h.data_size <= p.len() && whole_sections(
            p,
            at + h.header_size + h.data_size,
        ),
    }
}

/// The bytes are one whole section that is none of the three tables.
pub open spec fn unknown_section(u: Seq<u8>) -> bool {
    header_of(u) matches Ok(h) && h.header_size + h.data_size == u.len() && h.section_type != 0x02
        && h.section_type != 0x03 && h.section_type != 0x04
}

/// The sections of `a` from position `k` on, and what stands after them, are read alike with and
/// without the unknown section between.
proof fn lemma_passed_over(a: Seq<u8>, u: Seq<u8>, b: Seq<u8>, k: int, t: ChunkTables)
    requires
        0 <= k <= a.len(),
        whole_sections(a, k),
        unknown_section(u),
    ensures
        same_tables(read_tables(a + u + b, k, t), read_tables(a + b, k, t)),
    decreases a.len() - k,
{
    let p = a + u + b;
    let q = a + b;
    if k == a.len() {
        let h = header_of(u)->Ok_0;
        assert(p.subrange(k, p.len() as int) =~= u + b);
        lemma_header_extended(u, b);
        lemma_read_step(p, k, h, t);
        assert(p =~= (a + u) + b);
        lemma_same_end(a + u, a, b, 0, t);
    } else {
        let left = a.subrange(k, a.len() as int);
        let h = header_of(left)->Ok_0;
        assert(p.subrange(k, p.len() as int) =~= left + (u + b));
        assert(q.subrange(k, q.len() as int) =~= left + b);
        lemma_header_extended(left, u + b);
        lemma_header_extended(left, b);
        lemma_read_step(p, k, h, t);
        lemma_read_step(q, k, h, t);
        let start = k + h.header_size;
        let end = start + h.data_size;
        assert(p.subrange(start, end) =~= q.subrange(start, end));
        if let Ok(more) = with_table(h.section_type, p.subrange(start, end), t) {
            lemma_passed_over(a, u, b, end, more);
        }
    }
}

/// A section of an unknown type may stand anywhere among decode instructions, before, between and
/// after the tables: the same chunks are read, or reading fails as it does without it.
pub proof fn law_unknown_section_passed_over(a: Seq<u8>, u: Seq<u8>, b: Seq<u8>)
    requires
        whole_sections(a, 0),
        unknown_section(u),
    ensures
        instructions_of(a + b) is Ok ==> instructions_of(a + u + b) == instructions_of(a + b),
        instructions_of(a + b) is Err ==> instructions_of(a + u + b) is Err,
{
    lemma_passed_over(a, u, b, 0, no_tables());
}

/// A section header holds the size of the data in its first three bytes, the lowest first, and the
/// type in the fourth. Three zero bytes announce that the size stands in the four bytes after the
/// type, the lowest first. A buffer that ends before its header does is refused.
pub proof fn law_header_layout(buf: Seq<u8>)
    ensures
        match header_of(buf) {
            Ok(h) => {
                &&& buf.len() >= h.header_size
                &&& h.section_type == buf[3]
                &&& if buf[0] == 0 && buf[1] == 0 && buf[2] == 0 {
                    &&& h.header_size == 8
                    &&& h.data_size == buf[4] + 256 * (buf[5] + 256 * (buf[6] + 256 * buf[7]))
                } else {
                    &&& h.header_size == 4
                    &&& h.data_size == buf[0] + 256 * (buf[1] + 256 * buf[2])
                }
            },
            Err(HeaderFault::BufferTooSmall { expected, actual }) => {
                &&& actual == buf.len()
                &&& buf.len() < expected
                &&& expected == if buf.len() < 4 {
                    4
                } else {
                    8int
                }
                &&& expected == 8 ==> buf[0] == 0 && buf[1] == 0 && buf[2] == 0
            },
            Err(_) => false,
        },
{
}

/// A header is written in the shortest form: in four bytes for the sizes that fit in three, but
/// for an empty section, and in eight for the others.
pub proof fn law_header_written(section_type: u8, size: int)
    requires
        0 <= size <= u32::MAX,
    ensures
        ({
            let h = header_bytes(section_type, size);
            &&& h.len() == if 0 < size < 0x100_0000 {
                4
            } else {
                8int
            }
            &&& h[3] == section_type
            &&& h.len() == 4 ==> h[0] + 256 * (h[1] + 256 * h[2]) == size
            &&& h.len() == 8 ==> h[0] == 0 && h[1] == 0 && h[2] == 0 && h[4] + 256 * (h[5] + 256
                * (h[6] + 256 * h[7])) == size
        }),
{
    law_header_round_trip(section_type, size, Seq::empty());
    let h = header_bytes(section_type, size);
    assert(h + Seq::empty() =~= h);
    law_header_layout(h);
}

/// Four bytes for each entry, the lowest first.
pub open spec fn is_table(bytes: Seq<u8>, values: Seq<int>) -> bool {
    &&& bytes.len() == 4 * values.len()
    &&& forall|i: int|
        0 <= i < values.len() ==> #[trigger] values[i] == bytes[4 * i] + 256 * (bytes[4 * i + 1]
            + 256 * (bytes[4 * i + 2] + 256 * bytes[4 * i + 3]))
}

proof fn lemma_is_table(bytes: Seq<u8>, values: Seq<int>)
    requires
        is_table(bytes, values),
    ensures
        le32_table(bytes) == values,
        forall|i: int| 0 <= i < values.len() ==> 0 <= #[trigger] values[i] <= u32::MAX,
{
    assert(le32_table(bytes) =~= values);
}

proof fn lemma_total(sizes: Seq<int>, n: int)
    requires
        0 <= n <= sizes.len(),
        forall|i: int| 0 <= i < sizes.len() ==> 0 <= #[trigger] sizes[i],
    ensures
        0 <= total(sizes, n) <= total(sizes, sizes.len() as int),
    decreases sizes.len() - n,
{
    if n < sizes.len() {
        lemma_total(sizes, n + 1);
    }
    lemma_total_positive(sizes, n);
}

proof fn lemma_total_positive(sizes: Seq<int>, n: int)
    requires
        0 <= n <= sizes.len(),
        forall|i: int| 0 <= i < sizes.len() ==> 0 <= #[trigger] sizes[i],
    ensures
        0 <= total(sizes, n),
    decreases n,
{
    if n > 0 {
        lemma_total_positive(sizes, n - 1);
    }
}

/// The list has a chunk for each entry of the tables. Without a table of offsets the first chunk
/// lies at the start, and each of the others where the one before it ends.
pub open spec fn lies_end_to_end(
    chunks: Seq<ChunkInfo>,
    compressors: Seq<u8>,
    sizes: Seq<int>,
) -> bool {
    &&& chunks.len() == sizes.len()
    &&& forall|i: int|
        0 <= i < chunks.len() ==> {
            &&& (#[trigger] chunks[i]).size == sizes[i]
            &&& chunks[i].compressor == compressors[i]
            &&& i == 0 ==> chunks[i].offset == 0
            &&& i > 0 ==> chunks[i].offset == chunks[i - 1].offset + chunks[i - 1].size
        }
}

/// Decode instructions of a compressor table and a size table alone list chunks that lie end to
/// end, as far as a machine can address them.
#[verifier::spinoff_prover]
#[verifier::rlimit(40)]
pub proof fn law_offsets_run_on(compressors: Seq<u8>, size_bytes: Seq<u8>, sizes: Seq<int>)
    requires
        is_table(size_bytes, sizes),
        compressors.len() == sizes.len(),
        size_bytes.len() <= u32::MAX,
        total(sizes, sizes.len() as int) <= usize::MAX,
    ensures
        ({
            let p = section(0x02, compressors) + section(0x03, size_bytes);
            &&& instructions_of(p) is Ok
            &&& lies_end_to_end(instructions_of(p)->Ok_0, compressors, sizes)
        }),
{
    let p = section(0x02, compressors) + section(0x03, size_bytes);
    let len = p.len() as int;
    let none = Seq::<u8>::empty();
    let rest = section(0x03, size_bytes);
    lemma_is_table(size_bytes, sizes);
    let t0 = no_tables();
    let t1 = ChunkTables { compressors: t0.compressors + compressors, ..t0 };
    let t2 = ChunkTables { sizes: t1.sizes + le32_table(size_bytes), ..t1 };
    assert(p.subrange(0, len) =~= section(0x02, compressors) + rest);
    lemma_read_section(p, 0, 0x02, compressors, rest, t0);
    let at = section(0x02, compressors).len() as int;
    assert(rest =~= rest + none);
    lemma_read_section(p, at, 0x03, size_bytes, none, t1);
    assert(read_tables(p, len, t2) == Ok::<ChunkTables, HeaderFault>(t2)) by {
        reveal(read_tables);
    }
    assert(t2.sizes =~= sizes);
    assert(t2.compressors =~= compressors);
    let chunks = chunk_list(t2);
    assert forall|i: int| 0 <= i < chunks.len() implies {
        &&& (#[trigger] chunks[i]).size == sizes[i]
        &&& chunks[i].compressor == compressors[i]
        &&& i == 0 ==> chunks[i].offset == 0
        &&& i > 0 ==> chunks[i].offset == chunks[i - 1].offset + chunks[i - 1].size
    } by {
        lemma_total(sizes, i);
        if i > 0 {
            lemma_total(sizes, i - 1);
        }
    }
}

/// Decode instructions of all three tables list each chunk with the size, the offset and the
/// compressor that stand for it in the tables, in whatever order the chunks lie.
#[verifier::spinoff_prover]
#[verifier::rlimit(40)]
pub proof fn law_tables_list_chunks(
    compressors: Seq<u8>,
    size_bytes: Seq<u8>,
    sizes: Seq<int>,
    offset_bytes: Seq<u8>,
    offsets: Seq<int>,
)
    requires
        is_table(size_bytes, sizes),
        is_table(offset_bytes, offsets),
        compressors.len() == sizes.len(),
        offsets.len() == sizes.len(),
        size_bytes.len() <= u32::MAX,
    ensures
        ({
            let p = section(0x02, compressors) + section(0x03, size_bytes) + section(
                0x04,
                offset_bytes,
            );
            &&& instructions_of(p) is Ok
            &&& instructions_of(p)->Ok_0.len() == sizes.len()
            &&& forall|i: int|
                0 <= i < sizes.len() ==> {
                    &&& (#[trigger] instructions_of(p)->Ok_0[i]).size == sizes[i]
                    &&& instructions_of(p)->Ok_0[i].offset == offsets[i]
                    &&& instructions_of(p)->Ok_0[i].compressor == compressors[i]
                }
        }),
{
    let p = section(0x02, compressors) + section(0x03, size_bytes) + section(0x04, offset_bytes);
    let len = p.len() as int;
    let none = Seq::<u8>::empty();
    let rest2 = section(0x04, offset_bytes);
    let rest1 = section(0x03, size_bytes) + rest2;
    lemma_is_table(size_bytes, sizes);
    lemma_is_table(offset_bytes, offsets);
    let t0 = no_tables();
    let t1 = ChunkTables { compressors: t0.compressors + compressors, ..t0 };
    let t2 = ChunkTables { sizes: t1.sizes + le32_table(size_bytes), ..t1 };
    let t3 = ChunkTables { offsets: t2.offsets + le32_table(offset_bytes), ..t2 };
    assert(p.subrange(0, len) =~= section(0x02, compressors) + rest1);
    lemma_read_section(p, 0, 0x02, compressors, rest1, t0);
    let at1 = section(0x02, compressors).len() as int;
    lemma_read_section(p, at1, 0x03, size_bytes, rest2, t1);
    let at2 = at1 + section(0x03, size_bytes).len();
    assert(rest2 =~= rest2 + none);
    lemma_read_section(p, at2, 0x04, offset_bytes, none, t2);
    assert(read_tables(p, len, t3) == Ok::<ChunkTables, HeaderFault>(t3)) by {
        reveal(read_tables);
    }
    assert(t3.sizes =~= sizes);
    assert(t3.offsets =~= offsets);
    assert(t3.compressors =~= compressors);
}

/// Decode instructions are refused where they cannot be right: a table of sizes or offsets with a
/// part of an entry, more or fewer compressors than sizes, and a table that is cut short.
pub proof fn law_bad_instructions(compressors: Seq<u8>, data: Seq<u8>, kind: u8, cut: int)
    requires
        compressors.len() <= u32::MAX,
        0 < data.len() <= u32::MAX,
        kind == 0x03 || kind == 0x04,
        0 < cut <= data.len(),
    ensures
        data.len() % 4 != 0 ==> instructions_of(section(kind, data)) is Err,
        data.len() % 4 == 0 && 4 * compressors.len() != data.len() ==> instructions_of(
            section(0x02, compressors) + section(0x03, data),
        ) is Err,
        instructions_of(section(kind, data).subrange(0, section(kind, data).len() - cut)) is Err,
{
    lemma_part_of_entry(kind, data);
    if data.len() % 4 == 0 {
        lemma_counts_differ(compressors, data);
    }
    lemma_cut_table(kind, data, cut);
}

proof fn lemma_part_of_entry(kind: u8, data: Seq<u8>)
    requires
        0 < data.len() <= u32::MAX,
        kind == 0x03 || kind == 0x04,
    ensures
        data.len() % 4 != 0 ==> instructions_of(section(kind, data)) is Err,
{
    let none = Seq::<u8>::empty();
    let p = section(kind, data);
    assert(p.subrange(0, p.len() as int) =~= p + none);
    lemma_section_at(p, 0, kind, data, none);
    reveal(read_tables);
}

proof fn lemma_counts_differ(compressors: Seq<u8>, data: Seq<u8>)
    requires
        compressors.len() <= u32::MAX,
        data.len() <= u32::MAX,
        data.len() % 4 == 0,
    ensures
        4 * compressors.len() != data.len() ==> instructions_of(
            section(0x02, compressors) + section(0x03, data),
        ) is Err,
{
    let none = Seq::<u8>::empty();
    let second = section(0x03, data);
    let p = section(0x02, compressors) + second;
    let len = p.len() as int;
    let t0 = no_tables();
    let t1 = ChunkTables { compressors: t0.compressors + compressors, ..t0 };
    let t2 = ChunkTables { sizes: t1.sizes + le32_table(data), ..t1 };
    assert(p.subrange(0, len) =~= section(0x02, compressors) + second);
    lemma_read_section(p, 0, 0x02, compressors, second, t0);
    assert(second =~= second + none);
    lemma_read_section(p, section(0x02, compressors).len() as int, 0x03, data, none, t1);
    assert(read_tables(p, len, t2) == Ok::<ChunkTables, HeaderFault>(t2)) by {
        reveal(read_tables);
    }
}

proof fn lemma_cut_table(kind: u8, data: Seq<u8>, cut: int)
    requires
        data.len() <= u32::MAX,
        0 < cut <= data.len(),
    ensures
        instructions_of(section(kind, data).subrange(0, section(kind, data).len() - cut)) is Err,
{
    let h = header_bytes(kind, data.len() as int);
    let p = section(kind, data).subrange(0, section(kind, data).len() - cut);
    let rest = data.subrange(0, data.len() - cut);
    assert(p =~= h + rest);
    law_header_round_trip(kind, data.len() as int, rest);
    assert(p.subrange(0, p.len() as int) =~= p);
    reveal(read_tables);
}

} // verus!
