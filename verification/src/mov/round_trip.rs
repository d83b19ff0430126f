//! A movie that was written is read back.

use crate::format::HapFormat;
use crate::mov::atoms::{
    Atom, ATOM_CO64, ATOM_DINF, ATOM_FTYP, ATOM_HDLR, ATOM_MDAT, ATOM_MDHD, ATOM_MDIA, ATOM_MINF,
    ATOM_MOOV, ATOM_MVHD, ATOM_STBL, ATOM_STCO, ATOM_STSC, ATOM_STSD, ATOM_STSZ, ATOM_STTS,
    ATOM_TKHD, ATOM_TRAK, ATOM_VMHD, BRAND_QT,
};
use crate::mov::reader::{
    ChunkRun, FrameSample, MovReaderFault, Reading, SampleTables, ScanStep, Track,
};
use crate::mov::writer::{SampleInfo, VideoConfig};
use vstd::prelude::*;

verus! {

/// The frames as the reader finds them.
pub open spec fn frame_places(frames: Seq<Seq<u8>>) -> Seq<FrameSample> {
    Seq::new(
        frames.len(),
        |i: int|
            FrameSample {
                offset: crate::mov::writer::frame_offset(frames, i) as u64,
                size: frames[i].len() as usize,
            },
    )
}

/// What the reader knows of a movie that was written: the dimensions to 16 bits, the duration to
/// 32 bits, the rate that the time units of a frame amount to, and all else as it was.
pub open spec fn written_reading(config: VideoConfig, frames: Seq<Seq<u8>>) -> Reading {
    Reading {
        width: config.width as int % 0x1_0000,
        height: config.height as int % 0x1_0000,
        fps: if config.frame_units() > 0 && config.timescale > 0 {
            crate::mov::reader::table_rate(config.timescale as int, config.frame_units())
        } else {
            crate::single::whole_number(0)
        },
        timescale: config.timescale as int,
        duration_units: frames.len() * config.frame_units() % 0x1_0000_0000,
        format: config.format,
        samples: frame_places(frames),
    }
}

proof fn lemma_tags()
    ensures
        crate::mov::atoms::tag(ATOM_FTYP) == 0x6674_7970,
        crate::mov::atoms::tag(ATOM_MDAT) == 0x6D64_6174,
        crate::mov::atoms::tag(ATOM_MOOV) == 0x6D6F_6F76,
        crate::mov::atoms::tag(ATOM_MVHD) == 0x6D76_6864,
        crate::mov::atoms::tag(ATOM_TRAK) == 0x7472_616B,
        crate::mov::atoms::tag(ATOM_TKHD) == 0x746B_6864,
        crate::mov::atoms::tag(ATOM_MDIA) == 0x6D64_6961,
        crate::mov::atoms::tag(ATOM_MDHD) == 0x6D64_6864,
        crate::mov::atoms::tag(ATOM_HDLR) == 0x6864_6C72,
        crate::mov::atoms::tag(ATOM_MINF) == 0x6D69_6E66,
        crate::mov::atoms::tag(ATOM_VMHD) == 0x766D_6864,
        crate::mov::atoms::tag(ATOM_DINF) == 0x6469_6E66,
        crate::mov::atoms::tag(ATOM_STBL) == 0x7374_626C,
        crate::mov::atoms::tag(ATOM_STSD) == 0x7374_7364,
        crate::mov::atoms::tag(ATOM_STTS) == 0x7374_7473,
        crate::mov::atoms::tag(ATOM_STSC) == 0x7374_7363,
        crate::mov::atoms::tag(ATOM_STSZ) == 0x7374_737A,
        crate::mov::atoms::tag(ATOM_STCO) == 0x7374_636F,
        crate::mov::atoms::tag(ATOM_CO64) == 0x636F_3634,
{
}

// ---------------------------------------------------------------------------------------------
// Lists of atoms.
// ---------------------------------------------------------------------------------------------

proof fn lemma_one_atom(kind: [u8; 4], p: Seq<u8>)
    requires
        p.len() + 8 <= u32::MAX,
    ensures
        crate::mov::atoms::atoms_of(crate::mov::atoms::atom(kind, p)) == seq![
            Atom { tag: crate::mov::atoms::tag(kind), payload: p },
        ],
{
    let none = Seq::<u8>::empty();
    let a = crate::mov::atoms::atom(kind, p);
    assert(a + none =~= a);
    crate::mov::atoms::law_atom_found(kind, p, none);
    assert(crate::mov::atoms::atoms_of(none) =~= Seq::<Atom>::empty()) by {
        reveal(crate::mov::atoms::atoms_of);
    }
    assert(crate::mov::atoms::atoms_of(a) =~= seq![
        Atom { tag: crate::mov::atoms::tag(kind), payload: p },
    ]);
}

proof fn lemma_two_atoms(k1: [u8; 4], p1: Seq<u8>, k2: [u8; 4], p2: Seq<u8>)
    requires
        p1.len() + 8 <= u32::MAX,
        p2.len() + 8 <= u32::MAX,
    ensures
        crate::mov::atoms::atoms_of(
            crate::mov::atoms::atom(k1, p1) + crate::mov::atoms::atom(k2, p2),
        ) == seq![
            Atom { tag: crate::mov::atoms::tag(k1), payload: p1 },
            Atom { tag: crate::mov::atoms::tag(k2), payload: p2 },
        ],
{
    lemma_one_atom(k2, p2);
    crate::mov::atoms::law_atom_found(k1, p1, crate::mov::atoms::atom(k2, p2));
    assert(crate::mov::atoms::atoms_of(
        crate::mov::atoms::atom(k1, p1) + crate::mov::atoms::atom(k2, p2),
    ) =~= seq![
        Atom { tag: crate::mov::atoms::tag(k1), payload: p1 },
        Atom { tag: crate::mov::atoms::tag(k2), payload: p2 },
    ]);
}

proof fn lemma_three_atoms(
    k1: [u8; 4],
    p1: Seq<u8>,
    k2: [u8; 4],
    p2: Seq<u8>,
    k3: [u8; 4],
    p3: Seq<u8>,
)
    requires
        p1.len() + 8 <= u32::MAX,
        p2.len() + 8 <= u32::MAX,
        p3.len() + 8 <= u32::MAX,
    ensures
        crate::mov::atoms::atoms_of(
            crate::mov::atoms::atom(k1, p1) + crate::mov::atoms::atom(k2, p2)
                + crate::mov::atoms::atom(k3, p3),
        ) == seq![
            Atom { tag: crate::mov::atoms::tag(k1), payload: p1 },
            Atom { tag: crate::mov::atoms::tag(k2), payload: p2 },
            Atom { tag: crate::mov::atoms::tag(k3), payload: p3 },
        ],
{
    let a1 = crate::mov::atoms::atom(k1, p1);
    let a2 = crate::mov::atoms::atom(k2, p2);
    let a3 = crate::mov::atoms::atom(k3, p3);
    lemma_two_atoms(k2, p2, k3, p3);
    crate::mov::atoms::law_atom_found(k1, p1, a2 + a3);
    assert(a1 + a2 + a3 =~= a1 + (a2 + a3));
    assert(crate::mov::atoms::atoms_of(a1 + a2 + a3) =~= seq![
        Atom { tag: crate::mov::atoms::tag(k1), payload: p1 },
        Atom { tag: crate::mov::atoms::tag(k2), payload: p2 },
        Atom { tag: crate::mov::atoms::tag(k3), payload: p3 },
    ]);
}

// ---------------------------------------------------------------------------------------------
// The sample table.
// ---------------------------------------------------------------------------------------------

proof fn lemma_sample_sizes(samples: Seq<SampleInfo>, i: int)
    requires
        0 <= i < samples.len(),
    ensures
        crate::mov::writer::sample_sizes(samples).len() == 4 * samples.len(),
        crate::mov::writer::sample_sizes(samples).subrange(4 * i, 4 * i + 4)
            == crate::bytes::be32_bytes(samples[i].size as int),
    decreases samples.len(),
{
    let front = samples.drop_last();
    let all = crate::mov::writer::sample_sizes(samples);
    let before = crate::mov::writer::sample_sizes(front);
    if front.len() > 0 {
        lemma_sample_sizes(front, if i < front.len() {
            i
        } else {
            0
        });
    }
    if i < front.len() {
        assert(all.subrange(4 * i, 4 * i + 4) =~= before.subrange(4 * i, 4 * i + 4));
    } else {
        assert(all.subrange(4 * i, 4 * i + 4) =~= crate::bytes::be32_bytes(
            samples[i].size as int,
        ));
    }
}

proof fn lemma_short_offsets(samples: Seq<SampleInfo>, i: int)
    requires
        0 <= i < samples.len(),
    ensures
        crate::mov::writer::short_offsets(samples).len() == 4 * samples.len(),
        crate::mov::writer::short_offsets(samples).subrange(4 * i, 4 * i + 4)
            == crate::bytes::be32_bytes(samples[i].offset as int),
    decreases samples.len(),
{
    let front = samples.drop_last();
    let all = crate::mov::writer::short_offsets(samples);
    let before = crate::mov::writer::short_offsets(front);
    if front.len() > 0 {
        lemma_short_offsets(front, if i < front.len() {
            i
        } else {
            0
        });
    }
    if i < front.len() {
        assert(all.subrange(4 * i, 4 * i + 4) =~= before.subrange(4 * i, 4 * i + 4));
    } else {
        assert(all.subrange(4 * i, 4 * i + 4) =~= crate::bytes::be32_bytes(
            samples[i].offset as int,
        ));
    }
}

proof fn lemma_long_offsets(samples: Seq<SampleInfo>, i: int)
    requires
        0 <= i < samples.len(),
    ensures
        crate::mov::writer::long_offsets(samples).len() == 8 * samples.len(),
        crate::mov::writer::long_offsets(samples).subrange(8 * i, 8 * i + 8)
            == crate::bytes::be64_bytes(samples[i].offset as int),
    decreases samples.len(),
{
    let front = samples.drop_last();
    let all = crate::mov::writer::long_offsets(samples);
    let before = crate::mov::writer::long_offsets(front);
    if front.len() > 0 {
        lemma_long_offsets(front, if i < front.len() {
            i
        } else {
            0
        });
    }
    if i < front.len() {
        assert(all.subrange(8 * i, 8 * i + 8) =~= before.subrange(8 * i, 8 * i + 8));
    } else {
        assert(all.subrange(8 * i, 8 * i + 8) =~= crate::bytes::be64_bytes(
            samples[i].offset as int,
        ));
    }
}

/// An integer that stands in a buffer is read there.
proof fn lemma_be32_in(p: Seq<u8>, at: int, v: int)
    requires
        0 <= at,
        at + 4 <= p.len(),
        p.subrange(at, at + 4) == crate::bytes::be32_bytes(v),
    ensures
        crate::bytes::be32(p, at) == v % 0x1_0000_0000,
{
    let r = v % 0x1_0000_0000;
    crate::bytes::lemma_low_bytes(v);
    assert(crate::bytes::be32_bytes(r) =~= crate::bytes::be32_bytes(v));
    crate::bytes::law_bytes_round_trip(r);
    crate::bytes::lemma_read_at(p, at, crate::bytes::be32_bytes(v));
}

/// The sizes are read back.
proof fn lemma_sizes_read(samples: Seq<SampleInfo>)
    requires
        samples.len() <= u32::MAX,
    ensures
        ({
            let p = crate::mov::writer::stsz_payload(samples);
            &&& p.len() == 12 + 4 * samples.len()
            &&& crate::bytes::be32(p, 4) == 0
            &&& crate::mov::reader::size_entries(p) == Seq::new(
                samples.len(),
                |i: int| samples[i].size as usize,
            )
        }),
{
    reveal(crate::mov::writer::stsz_payload);
    let p = crate::mov::writer::stsz_payload(samples);
    let table = crate::mov::writer::sample_sizes(samples);
    let n = samples.len() as int;
    if n > 0 {
        lemma_sample_sizes(samples, 0);
    }
    assert(p.subrange(4, 8) =~= crate::bytes::be32_bytes(0));
    lemma_be32_in(p, 4, 0);
    assert(p.subrange(8, 12) =~= crate::bytes::be32_bytes(n));
    lemma_be32_in(p, 8, n);
    assert forall|i: int| 0 <= i < n implies crate::mov::reader::size_entries(p)[i]
        == samples[i].size as usize by {
        lemma_sample_sizes(samples, i);
        assert(p.subrange(12 + 4 * i, 12 + 4 * i + 4) =~= table.subrange(4 * i, 4 * i + 4));
        lemma_be32_in(p, 12 + 4 * i, samples[i].size as int);
    }
    assert(crate::mov::reader::size_entries(p) =~= Seq::new(
        samples.len(),
        |i: int| samples[i].size as usize,
    ));
}

/// A table behind its head of eight bytes: the head holds the number of entries.
spec fn is_table(p: Seq<u8>, table: Seq<u8>, n: int) -> bool {
    &&& p.len() == 8 + table.len()
    &&& p.subrange(4, 8) == crate::bytes::be32_bytes(n)
    &&& p.subrange(8, p.len() as int) == table
}

proof fn lemma_is_table(table: Seq<u8>, n: int)
    ensures
        is_table(crate::mov::writer::flags(0) + crate::bytes::be32_bytes(n) + table, table, n),
{
    let p = crate::mov::writer::flags(0) + crate::bytes::be32_bytes(n) + table;
    assert(p.subrange(4, 8) =~= crate::bytes::be32_bytes(n));
    assert(p.subrange(8, p.len() as int) =~= table);
}

/// A part of a table is a part of the whole.
proof fn lemma_table_part(p: Seq<u8>, table: Seq<u8>, n: int, from: int, to: int)
    requires
        is_table(p, table, n),
        0 <= from <= to <= table.len(),
    ensures
        p.subrange(8 + from, 8 + to) == table.subrange(from, to),
{
    assert(p.subrange(8, p.len() as int).subrange(from, to) =~= p.subrange(8 + from, 8 + to));
}

/// Four-byte offsets are read back.
#[verifier::spinoff_prover]
proof fn lemma_short_entries(p: Seq<u8>, table: Seq<u8>, samples: Seq<SampleInfo>)
    requires
        samples.len() <= u32::MAX,
        forall|i: int| 0 <= i < samples.len() ==> (#[trigger] samples[i]).offset <= 0xFFFF_FFFF,
        table == crate::mov::writer::short_offsets(samples),
        is_table(p, table, samples.len() as int),
    ensures
        p.len() == 8 + 4 * samples.len(),
        crate::mov::reader::short_entries(p) == Seq::new(samples.len(), |i: int| samples[i].offset),
{
    let n = samples.len() as int;
    if n > 0 {
        lemma_short_offsets(samples, 0);
    }
    lemma_be32_in(p, 4, n);
    assert forall|i: int| 0 <= i < n implies crate::mov::reader::short_entries(p)[i]
        == samples[i].offset by {
        lemma_short_offsets(samples, i);
        lemma_table_part(p, table, n, 4 * i, 4 * i + 4);
        lemma_be32_in(p, 8 + 4 * i, samples[i].offset as int);
    }
    assert(crate::mov::reader::short_entries(p) =~= Seq::new(
        samples.len(),
        |i: int| samples[i].offset,
    ));
}

/// Four-byte offsets are read back.
proof fn lemma_short_read(samples: Seq<SampleInfo>)
    requires
        samples.len() <= u32::MAX,
        forall|i: int| 0 <= i < samples.len() ==> (#[trigger] samples[i]).offset <= 0xFFFF_FFFF,
    ensures
        ({
            let p = crate::mov::writer::flags(0) + crate::bytes::be32_bytes(samples.len() as int)
                + crate::mov::writer::short_offsets(samples);
            &&& p.len() == 8 + 4 * samples.len()
            &&& crate::mov::reader::short_entries(p) == Seq::new(
                samples.len(),
                |i: int| samples[i].offset,
            )
        }),
{
    let table = crate::mov::writer::short_offsets(samples);
    lemma_is_table(table, samples.len() as int);
    lemma_short_entries(
        crate::mov::writer::flags(0) + crate::bytes::be32_bytes(samples.len() as int) + table,
        table,
        samples,
    );
}

/// Eight-byte offsets are read back.
#[verifier::spinoff_prover]
proof fn lemma_long_entries(p: Seq<u8>, table: Seq<u8>, samples: Seq<SampleInfo>)
    requires
        samples.len() <= u32::MAX,
        table == crate::mov::writer::long_offsets(samples),
        is_table(p, table, samples.len() as int),
    ensures
        p.len() == 8 + 8 * samples.len(),
        crate::mov::reader::long_entries(p) == Seq::new(samples.len(), |i: int| samples[i].offset),
{
    let n = samples.len() as int;
    if n > 0 {
        lemma_long_offsets(samples, 0);
    }
    lemma_be32_in(p, 4, n);
    assert forall|i: int| 0 <= i < n implies crate::mov::reader::long_entries(p)[i]
        == samples[i].offset by {
        let v = samples[i].offset as int;
        lemma_long_offsets(samples, i);
        lemma_table_part(p, table, n, 8 * i, 8 * i + 8);
        crate::bytes::law_bytes_round_trip(v);
        crate::bytes::lemma_read_at(p, 8 + 8 * i, crate::bytes::be64_bytes(v));
    }
    assert(crate::mov::reader::long_entries(p) =~= Seq::new(
        samples.len(),
        |i: int| samples[i].offset,
    ));
}

/// Eight-byte offsets are read back.
proof fn lemma_long_read(samples: Seq<SampleInfo>)
    requires
        samples.len() <= u32::MAX,
    ensures
        ({
            let p = crate::mov::writer::flags(0) + crate::bytes::be32_bytes(samples.len() as int)
                + crate::mov::writer::long_offsets(samples);
            &&& p.len() == 8 + 8 * samples.len()
            &&& crate::mov::reader::long_entries(p) == Seq::new(
                samples.len(),
                |i: int| samples[i].offset,
            )
        }),
{
    let table = crate::mov::writer::long_offsets(samples);
    lemma_is_table(table, samples.len() as int);
    lemma_long_entries(
        crate::mov::writer::flags(0) + crate::bytes::be32_bytes(samples.len() as int) + table,
        table,
        samples,
    );
}

/// The chunk table is read back: one sample in each chunk.
proof fn lemma_runs_read()
    ensures
        ({
            let p = crate::mov::writer::stsc_payload();
            &&& p.len() == 20
            &&& crate::mov::reader::run_entries(p) == seq![
                ChunkRun { first_chunk: 1, samples_per_chunk: 1 },
            ]
        }),
{
    reveal(crate::mov::writer::stsc_payload);
    let p = crate::mov::writer::stsc_payload();
    assert(p.subrange(4, 8) =~= crate::bytes::be32_bytes(1));
    lemma_be32_in(p, 4, 1);
    assert(p.subrange(8, 12) =~= crate::bytes::be32_bytes(1));
    lemma_be32_in(p, 8, 1);
    assert(p.subrange(12, 16) =~= crate::bytes::be32_bytes(1));
    lemma_be32_in(p, 12, 1);
    assert(crate::mov::reader::run_entries(p) =~= seq![
        ChunkRun { first_chunk: 1, samples_per_chunk: 1 },
    ]);
}

/// The time table is read back.
proof fn lemma_times_read(config: VideoConfig, count: int)
    ensures
        ({
            let p = crate::mov::writer::stts_payload(config, count);
            &&& p.len() == 16
            &&& crate::bytes::be32(p, 4) == 1
            &&& crate::bytes::be32(p, 12) == config.frame_units() % 0x1_0000_0000
        }),
{
    reveal(crate::mov::writer::stts_payload);
    let p = crate::mov::writer::stts_payload(config, count);
    assert(p.subrange(4, 8) =~= crate::bytes::be32_bytes(1));
    lemma_be32_in(p, 4, 1);
    assert(p.subrange(12, 16) =~= crate::bytes::be32_bytes(config.frame_units()));
    lemma_be32_in(p, 12, config.frame_units());
}

/// The format is read back.
proof fn lemma_format_read(config: VideoConfig)
    ensures
        ({
            let p = crate::mov::writer::stsd_payload(config);
            &&& p.len() >= 16
            &&& crate::bytes::be32(p, 4) == 1
            &&& HapFormat::of_code(p.subrange(12, 16)) == Some(config.format)
        }),
{
    reveal(crate::mov::writer::stsd_payload);
    let p = crate::mov::writer::stsd_payload(config);
    assert(p.subrange(4, 8) =~= crate::bytes::be32_bytes(1));
    lemma_be32_in(p, 4, 1);
    assert(p.subrange(12, 16) =~= config.format.code());
    crate::format::law_fourcc_round_trip(config.format);
}

/// The time units of a frame fit in 32 bits.
proof fn lemma_frame_units(config: VideoConfig)
    ensures
        0 <= config.frame_units() <= u32::MAX,
{
    reveal(crate::single::nearest_within);
}

/// Offsets that four bytes cannot hold are known by the last.
pub open spec fn ascending(samples: Seq<SampleInfo>) -> bool {
    forall|i: int|
        0 <= i < samples.len() ==> (#[trigger] samples[i]).offset <= samples.last().offset
}

/// The samples as the reader finds them.
pub open spec fn places(samples: Seq<SampleInfo>) -> Seq<FrameSample> {
    Seq::new(
        samples.len(),
        |i: int| FrameSample { offset: samples[i].offset, size: samples[i].size as usize },
    )
}

/// The rate that the reader finds.
pub open spec fn found_rate(config: VideoConfig, timescale: int, before: Track) -> crate::single::Single {
    if config.frame_units() > 0 && timescale > 0 {
        crate::mov::reader::table_rate(timescale, config.frame_units())
    } else {
        before.fps
    }
}

proof fn lemma_tables_step(
    atoms: Seq<Atom>,
    a: Atom,
    t: SampleTables,
    timescale: int,
)
    ensures
        crate::mov::reader::tables_of(atoms.push(a), t, timescale) == crate::mov::reader::with_table(
            crate::mov::reader::tables_of(atoms, t, timescale),
            a,
            timescale,
        ),
{
    assert(atoms.push(a).drop_last() =~= atoms);
}

/// The atoms of a sample table.
proof fn lemma_table_atoms(config: VideoConfig, samples: Seq<SampleInfo>, last_kind: [u8; 4], last: Seq<u8>)
    requires
        crate::mov::writer::stbl_payload(config, samples).len() + 8 <= u32::MAX,
        crate::mov::writer::offset_atom(samples) == crate::mov::atoms::atom(last_kind, last),
    ensures
        crate::mov::atoms::atoms_of(crate::mov::writer::stbl_payload(config, samples)) == Seq::<
            Atom,
        >::empty().push(
            Atom {
                tag: crate::mov::atoms::tag(ATOM_STSD),
                payload: crate::mov::writer::stsd_payload(config),
            },
        ).push(
            Atom {
                tag: crate::mov::atoms::tag(ATOM_STTS),
                payload: crate::mov::writer::stts_payload(config, samples.len() as int),
            },
        ).push(
            Atom {
                tag: crate::mov::atoms::tag(ATOM_STSC),
                payload: crate::mov::writer::stsc_payload(),
            },
        ).push(
            Atom {
                tag: crate::mov::atoms::tag(ATOM_STSZ),
                payload: crate::mov::writer::stsz_payload(samples),
            },
        ).push(Atom { tag: crate::mov::atoms::tag(last_kind), payload: last }),
{
    reveal(crate::mov::writer::stbl_payload);
    let p1 = crate::mov::writer::stsd_payload(config);
    let p2 = crate::mov::writer::stts_payload(config, samples.len() as int);
    let p3 = crate::mov::writer::stsc_payload();
    let p4 = crate::mov::writer::stsz_payload(samples);
    lemma_five_atoms(ATOM_STSD, p1, ATOM_STTS, p2, ATOM_STSC, p3, ATOM_STSZ, p4, last_kind, last);
}

proof fn lemma_five_atoms(
    k1: [u8; 4],
    p1: Seq<u8>,
    k2: [u8; 4],
    p2: Seq<u8>,
    k3: [u8; 4],
    p3: Seq<u8>,
    k4: [u8; 4],
    p4: Seq<u8>,
    k5: [u8; 4],
    p5: Seq<u8>,
)
    requires
        p1.len() + 8 <= u32::MAX,
        p2.len() + 8 <= u32::MAX,
        p3.len() + 8 <= u32::MAX,
        p4.len() + 8 <= u32::MAX,
        p5.len() + 8 <= u32::MAX,
    ensures
        crate::mov::atoms::atoms_of(
            crate::mov::atoms::atom(k1, p1) + crate::mov::atoms::atom(k2, p2)
                + crate::mov::atoms::atom(k3, p3) + crate::mov::atoms::atom(k4, p4)
                + crate::mov::atoms::atom(k5, p5),
        ) == Seq::<Atom>::empty().push(
            Atom { tag: crate::mov::atoms::tag(k1), payload: p1 },
        ).push(Atom { tag: crate::mov::atoms::tag(k2), payload: p2 }).push(
            Atom { tag: crate::mov::atoms::tag(k3), payload: p3 },
        ).push(Atom { tag: crate::mov::atoms::tag(k4), payload: p4 }).push(
            Atom { tag: crate::mov::atoms::tag(k5), payload: p5 },
        ),
{
    let a1 = crate::mov::atoms::atom(k1, p1);
    let a2 = crate::mov::atoms::atom(k2, p2);
    let a3 = crate::mov::atoms::atom(k3, p3);
    let a4 = crate::mov::atoms::atom(k4, p4);
    let a5 = crate::mov::atoms::atom(k5, p5);
    lemma_three_atoms(k3, p3, k4, p4, k5, p5);
    crate::mov::atoms::law_atom_found(k2, p2, a3 + a4 + a5);
    crate::mov::atoms::law_atom_found(k1, p1, a2 + (a3 + a4 + a5));
    lemma_regrouped(a1, a2, a3, a4, a5);
    lemma_listed(
        Atom { tag: crate::mov::atoms::tag(k1), payload: p1 },
        Atom { tag: crate::mov::atoms::tag(k2), payload: p2 },
        Atom { tag: crate::mov::atoms::tag(k3), payload: p3 },
        Atom { tag: crate::mov::atoms::tag(k4), payload: p4 },
        Atom { tag: crate::mov::atoms::tag(k5), payload: p5 },
    );
}

proof fn lemma_regrouped(a1: Seq<u8>, a2: Seq<u8>, a3: Seq<u8>, a4: Seq<u8>, a5: Seq<u8>)
    ensures
        a1 + a2 + a3 + a4 + a5 == a1 + (a2 + (a3 + a4 + a5)),
{
    assert(a1 + a2 + a3 + a4 + a5 =~= a1 + (a2 + (a3 + a4 + a5)));
}

proof fn lemma_listed(b1: Atom, b2: Atom, b3: Atom, b4: Atom, b5: Atom)
    ensures
        seq![b1] + (seq![b2] + seq![b3, b4, b5]) == Seq::<Atom>::empty().push(b1).push(b2).push(
            b3,
        ).push(b4).push(b5),
{
    assert(seq![b1] + (seq![b2] + seq![b3, b4, b5]) =~= Seq::<Atom>::empty().push(b1).push(b2).push(
        b3,
    ).push(b4).push(b5));
}

/// What the tables come to, from what the atoms hold.
proof fn lemma_tables_read(
    format: HapFormat,
    units: int,
    runs: Seq<ChunkRun>,
    sizes: Seq<usize>,
    offsets: Seq<u64>,
    p1: Seq<u8>,
    p2: Seq<u8>,
    p3: Seq<u8>,
    p4: Seq<u8>,
    k5: [u8; 4],
    p5: Seq<u8>,
    t: SampleTables,
    timescale: int,
)
    requires
        p1.len() >= 16 && crate::bytes::be32(p1, 4) == 1 && HapFormat::of_code(p1.subrange(12, 16))
            == Some(format),
        p2.len() == 16 && crate::bytes::be32(p2, 4) == 1 && crate::bytes::be32(p2, 12) == units,
        p3.len() >= 8 && crate::mov::reader::run_entries(p3) == runs,
        p4.len() >= 12 && crate::bytes::be32(p4, 4) == 0 && crate::mov::reader::size_entries(p4)
            == sizes,
        p5.len() >= 8,
        (k5 == ATOM_CO64 && crate::mov::reader::long_entries(p5) == offsets) || (k5 == ATOM_STCO
            && crate::mov::reader::short_entries(p5) == offsets),
        t.runs == Seq::<ChunkRun>::empty(),
        t.sizes == Seq::<usize>::empty(),
        t.offsets == Seq::<u64>::empty(),
    ensures
        crate::mov::reader::tables_of(
            Seq::<Atom>::empty().push(
                Atom { tag: crate::mov::atoms::tag(ATOM_STSD), payload: p1 },
            ).push(Atom { tag: crate::mov::atoms::tag(ATOM_STTS), payload: p2 }).push(
                Atom { tag: crate::mov::atoms::tag(ATOM_STSC), payload: p3 },
            ).push(Atom { tag: crate::mov::atoms::tag(ATOM_STSZ), payload: p4 }).push(
                Atom { tag: crate::mov::atoms::tag(k5), payload: p5 },
            ),
            t,
            timescale,
        ) == (SampleTables {
            format: Some(format),
            fps: if units > 0 && timescale > 0 {
                crate::mov::reader::table_rate(timescale, units)
            } else {
                t.fps
            },
            sizes,
            offsets,
            runs,
        }),
{
    let a1 = Atom { tag: crate::mov::atoms::tag(ATOM_STSD), payload: p1 };
    let a2 = Atom { tag: crate::mov::atoms::tag(ATOM_STTS), payload: p2 };
    let a3 = Atom { tag: crate::mov::atoms::tag(ATOM_STSC), payload: p3 };
    let a4 = Atom { tag: crate::mov::atoms::tag(ATOM_STSZ), payload: p4 };
    let a5 = Atom { tag: crate::mov::atoms::tag(k5), payload: p5 };
    lemma_fold_tables(a1, a2, a3, a4, a5, t, timescale);
    lemma_tags();
    assert(t.runs + runs =~= runs);
    assert(t.sizes + sizes =~= sizes);
    assert(t.offsets + offsets =~= offsets);
}

/// A sample table that fits has no more samples than 32 bits count.
proof fn lemma_few_samples(config: VideoConfig, samples: Seq<SampleInfo>)
    requires
        crate::mov::writer::stbl_payload(config, samples).len() + 8 <= u32::MAX,
    ensures
        samples.len() <= u32::MAX,
{
    reveal(crate::mov::writer::stbl_payload);
    reveal(crate::mov::writer::stsz_payload);
    if samples.len() > 0 {
        lemma_sample_sizes(samples, 0);
    }
}

/// A sample table is read back, with either table of offsets.
proof fn lemma_table_with(
    config: VideoConfig,
    samples: Seq<SampleInfo>,
    kind: [u8; 4],
    last: Seq<u8>,
    t: SampleTables,
    timescale: int,
)
    requires
        crate::mov::writer::stbl_payload(config, samples).len() + 8 <= u32::MAX,
        crate::mov::writer::offset_atom(samples) == crate::mov::atoms::atom(kind, last),
        last.len() >= 8,
        ({
            let offsets = Seq::new(samples.len(), |i: int| samples[i].offset);
            (kind == ATOM_CO64 && crate::mov::reader::long_entries(last) == offsets) || (kind
                == ATOM_STCO && crate::mov::reader::short_entries(last) == offsets)
        }),
        t.runs == Seq::<ChunkRun>::empty(),
        t.sizes == Seq::<usize>::empty(),
        t.offsets == Seq::<u64>::empty(),
    ensures
        crate::mov::reader::tables_of(
            crate::mov::atoms::atoms_of(crate::mov::writer::stbl_payload(config, samples)),
            t,
            timescale,
        ) == (SampleTables {
            format: Some(config.format),
            fps: if config.frame_units() > 0 && timescale > 0 {
                crate::mov::reader::table_rate(timescale, config.frame_units())
            } else {
                t.fps
            },
            sizes: Seq::new(samples.len(), |i: int| samples[i].size as usize),
            offsets: Seq::new(samples.len(), |i: int| samples[i].offset),
            runs: seq![ChunkRun { first_chunk: 1, samples_per_chunk: 1 }],
        }),
{
    lemma_few_samples(config, samples);
    lemma_table_atoms(config, samples, kind, last);
    lemma_sizes_read(samples);
    lemma_runs_read();
    lemma_times_read(config, samples.len() as int);
    lemma_format_read(config);
    lemma_frame_units(config);
    lemma_tables_read(
        config.format,
        config.frame_units(),
        seq![ChunkRun { first_chunk: 1, samples_per_chunk: 1 }],
        Seq::new(samples.len(), |i: int| samples[i].size as usize),
        Seq::new(samples.len(), |i: int| samples[i].offset),
        crate::mov::writer::stsd_payload(config),
        crate::mov::writer::stts_payload(config, samples.len() as int),
        crate::mov::writer::stsc_payload(),
        crate::mov::writer::stsz_payload(samples),
        kind,
        last,
        t,
        timescale,
    );
}

/// A sample table is read back.
proof fn lemma_sample_table_read(
    config: VideoConfig,
    samples: Seq<SampleInfo>,
    tr: Track,
    timescale: int,
)
    requires
        crate::mov::writer::stbl_payload(config, samples).len() + 8 <= u32::MAX,
        ascending(samples),
    ensures
        crate::mov::reader::with_sample_table(
            tr,
            crate::mov::writer::stbl_payload(config, samples),
            timescale,
        ) == (Track {
            format: Some(config.format),
            fps: found_rate(config, timescale, tr),
            samples: tr.samples + places(samples),
            ..tr
        }),
{
    let head = crate::mov::writer::flags(0) + crate::bytes::be32_bytes(samples.len() as int);
    let blank = SampleTables {
        format: tr.format,
        fps: tr.fps,
        sizes: Seq::empty(),
        offsets: Seq::empty(),
        runs: Seq::empty(),
    };
    lemma_few_samples(config, samples);
    if crate::mov::writer::needs_long_offsets(samples) {
        lemma_long_read(samples);
        let last = head + crate::mov::writer::long_offsets(samples);
        lemma_table_with(config, samples, ATOM_CO64, last, blank, timescale);
    } else {
        lemma_short_read(samples);
        let last = head + crate::mov::writer::short_offsets(samples);
        lemma_table_with(config, samples, ATOM_STCO, last, blank, timescale);
    }
    let t = crate::mov::reader::tables_of(
        crate::mov::atoms::atoms_of(crate::mov::writer::stbl_payload(config, samples)),
        blank,
        timescale,
    );
    assert(crate::mov::reader::samples_of(t) =~= places(samples));
}

proof fn lemma_fold_tables(
    a1: Atom,
    a2: Atom,
    a3: Atom,
    a4: Atom,
    a5: Atom,
    t: SampleTables,
    timescale: int,
)
    ensures
        crate::mov::reader::tables_of(
            Seq::<Atom>::empty().push(a1).push(a2).push(a3).push(a4).push(a5),
            t,
            timescale,
        ) == crate::mov::reader::with_table(
            crate::mov::reader::with_table(
                crate::mov::reader::with_table(
                    crate::mov::reader::with_table(
                        crate::mov::reader::with_table(t, a1, timescale),
                        a2,
                        timescale,
                    ),
                    a3,
                    timescale,
                ),
                a4,
                timescale,
            ),
            a5,
            timescale,
        ),
{
    let s = Seq::<Atom>::empty();
    lemma_tables_step(s, a1, t, timescale);
    lemma_tables_step(s.push(a1), a2, t, timescale);
    lemma_tables_step(s.push(a1).push(a2), a3, t, timescale);
    lemma_tables_step(s.push(a1).push(a2).push(a3), a4, t, timescale);
    lemma_tables_step(s.push(a1).push(a2).push(a3).push(a4), a5, t, timescale);
}

// ---------------------------------------------------------------------------------------------
// Tracks and movies.
// ---------------------------------------------------------------------------------------------

proof fn lemma_media_info_read(p1: Seq<u8>, p2: Seq<u8>, p3: Seq<u8>, tr: Track, timescale: int)
    ensures
        crate::mov::reader::with_media_info(
            tr,
            seq![
                Atom { tag: crate::mov::atoms::tag(ATOM_VMHD), payload: p1 },
                Atom { tag: crate::mov::atoms::tag(ATOM_DINF), payload: p2 },
                Atom { tag: crate::mov::atoms::tag(ATOM_STBL), payload: p3 },
            ],
            timescale,
        ) == crate::mov::reader::with_sample_table(tr, p3, timescale),
{
    lemma_tags();
    let a1 = Atom { tag: crate::mov::atoms::tag(ATOM_VMHD), payload: p1 };
    let a2 = Atom { tag: crate::mov::atoms::tag(ATOM_DINF), payload: p2 };
    let a3 = Atom { tag: crate::mov::atoms::tag(ATOM_STBL), payload: p3 };
    assert(seq![a1, a2, a3].drop_last() =~= seq![a1, a2]);
    assert(seq![a1, a2].drop_last() =~= seq![a1]);
    assert(seq![a1].drop_last() =~= Seq::<Atom>::empty());
    reveal_with_fuel(crate::mov::reader::with_media_info, 4);
}

proof fn lemma_media_read(p1: Seq<u8>, p2: Seq<u8>, p3: Seq<u8>, tr: Track)
    ensures
        crate::mov::reader::with_media(
            tr,
            seq![
                Atom { tag: crate::mov::atoms::tag(ATOM_MDHD), payload: p1 },
                Atom { tag: crate::mov::atoms::tag(ATOM_HDLR), payload: p2 },
                Atom { tag: crate::mov::atoms::tag(ATOM_MINF), payload: p3 },
            ],
        ).0 == crate::mov::reader::with_media_info(
            tr,
            crate::mov::atoms::atoms_of(p3),
            crate::mov::reader::media_timescale(p1, 0),
        ),
{
    lemma_tags();
    let a1 = Atom { tag: crate::mov::atoms::tag(ATOM_MDHD), payload: p1 };
    let a2 = Atom { tag: crate::mov::atoms::tag(ATOM_HDLR), payload: p2 };
    let a3 = Atom { tag: crate::mov::atoms::tag(ATOM_MINF), payload: p3 };
    assert(seq![a1, a2, a3].drop_last() =~= seq![a1, a2]);
    assert(seq![a1, a2].drop_last() =~= seq![a1]);
    assert(seq![a1].drop_last() =~= Seq::<Atom>::empty());
    reveal_with_fuel(crate::mov::reader::with_media, 4);
}

proof fn lemma_track_read(p1: Seq<u8>, p2: Seq<u8>)
    requires
        p1.len() >= 80,
    ensures
        crate::mov::reader::track_of(
            seq![
                Atom { tag: crate::mov::atoms::tag(ATOM_TKHD), payload: p1 },
                Atom { tag: crate::mov::atoms::tag(ATOM_MDIA), payload: p2 },
            ],
        ) == crate::mov::reader::with_media(
            Track {
                width: crate::bytes::be32(p1, p1.len() - 8) / 0x1_0000,
                height: crate::bytes::be32(p1, p1.len() - 4) / 0x1_0000,
                ..crate::mov::reader::blank_track()
            },
            crate::mov::atoms::atoms_of(p2),
        ).0,
{
    lemma_tags();
    let a1 = Atom { tag: crate::mov::atoms::tag(ATOM_TKHD), payload: p1 };
    let a2 = Atom { tag: crate::mov::atoms::tag(ATOM_MDIA), payload: p2 };
    assert(seq![a1, a2].drop_last() =~= seq![a1]);
    assert(seq![a1].drop_last() =~= Seq::<Atom>::empty());
    reveal_with_fuel(crate::mov::reader::track_of, 3);
}

proof fn lemma_movie_read(p1: Seq<u8>, p2: Seq<u8>)
    requires
        p1.len() >= 20,
        p1[0] == 0,
        crate::mov::reader::track_of(crate::mov::atoms::atoms_of(p2)).format is Some,
    ensures
        ({
            let m = crate::mov::reader::movie_of(
                seq![
                    Atom { tag: crate::mov::atoms::tag(ATOM_MVHD), payload: p1 },
                    Atom { tag: crate::mov::atoms::tag(ATOM_TRAK), payload: p2 },
                ],
                0,
                0,
            );
            &&& m.timescale == crate::bytes::be32(p1, 12)
            &&& m.duration == crate::bytes::be32(p1, 16)
            &&& m.track == Some(
                crate::mov::reader::track_of(crate::mov::atoms::atoms_of(p2)),
            )
        }),
{
    lemma_tags();
    let a1 = Atom { tag: crate::mov::atoms::tag(ATOM_MVHD), payload: p1 };
    let a2 = Atom { tag: crate::mov::atoms::tag(ATOM_TRAK), payload: p2 };
    assert(seq![a1, a2].subrange(1, 2) =~= seq![a2]);
    reveal_with_fuel(crate::mov::reader::movie_of, 3);
}

/// The headers are read back.
proof fn lemma_headers_read(config: VideoConfig, count: int)
    ensures
        ({
            let mvhd = crate::mov::writer::mvhd_payload(config, count);
            let mdhd = crate::mov::writer::mdhd_payload(config, count);
            let tkhd = crate::mov::writer::tkhd_payload(config, count);
            &&& mvhd.len() == 100
            &&& mvhd[0] == 0
            &&& crate::bytes::be32(mvhd, 12) == config.timescale
            &&& crate::bytes::be32(mvhd, 16) == count * config.frame_units() % 0x1_0000_0000
            &&& mdhd.len() == 24
            &&& crate::mov::reader::media_timescale(mdhd, 0) == config.timescale
            &&& tkhd.len() == 84
            &&& crate::bytes::be32(tkhd, 76) / 0x1_0000 == config.width as int % 0x1_0000
            &&& crate::bytes::be32(tkhd, 80) / 0x1_0000 == config.height as int % 0x1_0000
        }),
{
    reveal(crate::mov::writer::mvhd_payload);
    reveal(crate::mov::writer::mdhd_payload);
    reveal(crate::mov::writer::tkhd_payload);
    let total = count * config.frame_units();
    let mvhd = crate::mov::writer::mvhd_payload(config, count);
    assert(mvhd.subrange(12, 16) =~= crate::bytes::be32_bytes(config.timescale as int));
    lemma_be32_in(mvhd, 12, config.timescale as int);
    assert(mvhd.subrange(16, 20) =~= crate::bytes::be32_bytes(total));
    lemma_be32_in(mvhd, 16, total);
    let mdhd = crate::mov::writer::mdhd_payload(config, count);
    assert(mdhd.subrange(12, 16) =~= crate::bytes::be32_bytes(config.timescale as int));
    lemma_be32_in(mdhd, 12, config.timescale as int);
    let tkhd = crate::mov::writer::tkhd_payload(config, count);
    assert(tkhd.subrange(76, 80) =~= crate::bytes::be32_bytes(config.width * 0x1_0000));
    lemma_be32_in(tkhd, 76, config.width * 0x1_0000);
    assert(tkhd.subrange(80, 84) =~= crate::bytes::be32_bytes(config.height * 0x1_0000));
    lemma_be32_in(tkhd, 80, config.height * 0x1_0000);
    lemma_fixed(config.width as int);
    lemma_fixed(config.height as int);
}

proof fn lemma_fixed(v: int)
    requires
        v >= 0,
    ensures
        (v * 0x1_0000) % 0x1_0000_0000 / 0x1_0000 == v % 0x1_0000,
{
    let high = v / 0x1_0000;
    let low = v % 0x1_0000;
    assert(v * 0x1_0000 == high * 0x1_0000_0000 + low * 0x1_0000);
    assert((v * 0x1_0000) % 0x1_0000_0000 == low * 0x1_0000);
}

/// A track is read back.
proof fn lemma_written_track(config: VideoConfig, samples: Seq<SampleInfo>)
    requires
        crate::mov::writer::trak_payload(config, samples).len() + 8 <= u32::MAX,
        ascending(samples),
    ensures
        crate::mov::reader::track_of(
            crate::mov::atoms::atoms_of(crate::mov::writer::trak_payload(config, samples)),
        ) == (Track {
            width: config.width as int % 0x1_0000,
            height: config.height as int % 0x1_0000,
            format: Some(config.format),
            fps: found_rate(
                config,
                config.timescale as int,
                crate::mov::reader::blank_track(),
            ),
            samples: places(samples),
        }),
{
    reveal(crate::mov::writer::trak_payload);
    reveal(crate::mov::writer::mdia_payload);
    reveal(crate::mov::writer::minf_payload);
    let count = samples.len() as int;
    let tkhd = crate::mov::writer::tkhd_payload(config, count);
    let mdhd = crate::mov::writer::mdhd_payload(config, count);
    let mdia = crate::mov::writer::mdia_payload(config, samples);
    let minf = crate::mov::writer::minf_payload(config, samples);
    let stbl = crate::mov::writer::stbl_payload(config, samples);
    let hdlr = crate::mov::writer::hdlr_payload();
    let vmhd = crate::mov::writer::vmhd_payload();
    let dinf = crate::mov::writer::dinf_payload();
    lemma_nested_sizes(config, samples);
    lemma_headers_read(config, count);
    lemma_two_atoms(ATOM_TKHD, tkhd, ATOM_MDIA, mdia);
    lemma_track_read(tkhd, mdia);
    let tr = Track {
        width: config.width as int % 0x1_0000,
        height: config.height as int % 0x1_0000,
        ..crate::mov::reader::blank_track()
    };
    lemma_three_atoms(ATOM_MDHD, mdhd, ATOM_HDLR, hdlr, ATOM_MINF, minf);
    lemma_media_read(mdhd, hdlr, minf, tr);
    lemma_three_atoms(ATOM_VMHD, vmhd, ATOM_DINF, dinf, ATOM_STBL, stbl);
    lemma_media_info_read(vmhd, dinf, stbl, tr, config.timescale as int);
    lemma_sample_table_read(config, samples, tr, config.timescale as int);
    assert(tr.samples + places(samples) =~= places(samples));
}

proof fn lemma_small_payloads()
    ensures
        crate::mov::writer::hdlr_payload().len() == 42,
        crate::mov::writer::vmhd_payload().len() == 12,
        crate::mov::writer::dinf_payload().len() == 28,
{
    reveal(crate::mov::writer::hdlr_payload);
    reveal(crate::mov::writer::vmhd_payload);
    reveal(crate::mov::writer::dinf_payload);
}

/// The parts of a track fit where the track does.
proof fn lemma_nested_sizes(config: VideoConfig, samples: Seq<SampleInfo>)
    requires
        crate::mov::writer::trak_payload(config, samples).len() + 8 <= u32::MAX,
    ensures
        crate::mov::writer::tkhd_payload(config, samples.len() as int).len() + 8 <= u32::MAX,
        crate::mov::writer::mdia_payload(config, samples).len() + 8 <= u32::MAX,
        crate::mov::writer::mdhd_payload(config, samples.len() as int).len() + 8 <= u32::MAX,
        crate::mov::writer::hdlr_payload().len() + 8 <= u32::MAX,
        crate::mov::writer::minf_payload(config, samples).len() + 8 <= u32::MAX,
        crate::mov::writer::vmhd_payload().len() + 8 <= u32::MAX,
        crate::mov::writer::dinf_payload().len() + 8 <= u32::MAX,
        crate::mov::writer::stbl_payload(config, samples).len() + 8 <= u32::MAX,
{
    reveal(crate::mov::writer::trak_payload);
    reveal(crate::mov::writer::mdia_payload);
    reveal(crate::mov::writer::minf_payload);
    lemma_small_payloads();
    lemma_headers_read(config, samples.len() as int);
    let tkhd = crate::mov::writer::tkhd_payload(config, samples.len() as int);
    let mdhd = crate::mov::writer::mdhd_payload(config, samples.len() as int);
    let mdia = crate::mov::writer::mdia_payload(config, samples);
    let minf = crate::mov::writer::minf_payload(config, samples);
    let stbl = crate::mov::writer::stbl_payload(config, samples);
    assert(crate::mov::atoms::atom(ATOM_MDIA, mdia).len() == mdia.len() + 8);
    assert(crate::mov::atoms::atom(ATOM_TKHD, tkhd).len() == tkhd.len() + 8);
    assert(crate::mov::atoms::atom(ATOM_MINF, minf).len() == minf.len() + 8);
    assert(crate::mov::atoms::atom(ATOM_MDHD, mdhd).len() == mdhd.len() + 8);
    assert(crate::mov::atoms::atom(ATOM_STBL, stbl).len() == stbl.len() + 8);
}

/// Frames end no later than the frames after them.
proof fn lemma_offsets(frames: Seq<Seq<u8>>, i: int, j: int)
    requires
        0 <= i <= j <= frames.len(),
    ensures
        crate::mov::writer::frame_offset(frames, i) <= crate::mov::writer::frame_offset(frames, j),
        36 <= crate::mov::writer::frame_offset(frames, i),
    decreases j - i,
{
    if i < j {
        lemma_offsets(frames, i, j - 1);
        assert(frames.subrange(0, j).drop_last() =~= frames.subrange(0, j - 1));
    }
}

/// The movie can be described: the description, the sizes of the frames and the offsets fit in
/// their fields.
pub open spec fn describable(config: VideoConfig, frames: Seq<Seq<u8>>) -> bool {
    &&& frames.len() > 0
    &&& forall|i: int| 0 <= i < frames.len() ==> (#[trigger] frames[i]).len() <= u32::MAX
    &&& crate::mov::writer::movie(config, frames).len() <= u64::MAX
    &&& crate::mov::writer::moov_payload(
        config,
        crate::mov::writer::sample_table(frames),
    ).len() + 8 <= u32::MAX
}

/// The movie is longer than its head and its frames.
proof fn lemma_movie_len(config: VideoConfig, frames: Seq<Seq<u8>>)
    ensures
        ({
            let all = crate::snappy::joined(frames);
            let moov = crate::mov::writer::moov_payload(
                config,
                crate::mov::writer::sample_table(frames),
            );
            &&& crate::mov::writer::movie_head(16 + all.len() as int).len() == 36
            &&& crate::mov::writer::movie(config, frames).len() == 36 + all.len() + 8 + moov.len()
        }),
{
    let all = crate::snappy::joined(frames);
    let moov = crate::mov::writer::moov_payload(config, crate::mov::writer::sample_table(frames));
    let head = crate::mov::writer::movie_head(16 + all.len() as int);
    assert(head.len() == 36);
    assert(crate::mov::atoms::atom(ATOM_MOOV, moov).len() == 8 + moov.len());
}

/// The table of frames that lie in a file holds their places.
proof fn lemma_table_places(frames: Seq<Seq<u8>>)
    requires
        forall|i: int| 0 <= i < frames.len() ==> (#[trigger] frames[i]).len() <= u32::MAX,
        36 + crate::snappy::joined(frames).len() <= u64::MAX,
    ensures
        ascending(crate::mov::writer::sample_table(frames)),
        places(crate::mov::writer::sample_table(frames)) == frame_places(frames),
{
    let samples = crate::mov::writer::sample_table(frames);
    let n = frames.len() as int;
    assert(frames.subrange(0, n) =~= frames);
    assert forall|i: int| 0 <= i < n implies (#[trigger] samples[i]).offset
        == crate::mov::writer::frame_offset(frames, i) && samples[i].offset
        <= samples.last().offset by {
        lemma_offsets(frames, i, n - 1);
        lemma_offsets(frames, n - 1, n);
    }
    assert(places(samples) =~= frame_places(frames));
}

/// What a movie description with the given parts is read as.
proof fn lemma_parts_read(mvhd: Seq<u8>, trak: Seq<u8>, tr: Track)
    requires
        mvhd.len() == 100,
        mvhd[0] == 0,
        trak.len() + 8 <= u32::MAX,
        crate::mov::reader::track_of(crate::mov::atoms::atoms_of(trak)) == tr,
        tr.format is Some,
        tr.samples.len() > 0,
    ensures
        crate::mov::reader::reading_of(
            crate::mov::atoms::atom(ATOM_MVHD, mvhd) + crate::mov::atoms::atom(ATOM_TRAK, trak),
        ) == Ok::<Reading, MovReaderFault>(
            Reading {
                width: tr.width,
                height: tr.height,
                fps: tr.fps,
                timescale: crate::bytes::be32(mvhd, 12),
                duration_units: crate::bytes::be32(mvhd, 16),
                format: tr.format->0,
                samples: tr.samples,
            },
        ),
{
    lemma_two_atoms(ATOM_MVHD, mvhd, ATOM_TRAK, trak);
    lemma_movie_read(mvhd, trak);
}

proof fn lemma_track_fits(config: VideoConfig, samples: Seq<SampleInfo>)
    requires
        crate::mov::writer::moov_payload(config, samples).len() + 8 <= u32::MAX,
    ensures
        crate::mov::writer::trak_payload(config, samples).len() + 8 <= u32::MAX,
{
    let trak = crate::mov::writer::trak_payload(config, samples);
    assert(crate::mov::atoms::atom(ATOM_TRAK, trak).len() == trak.len() + 8);
}

/// A movie description is read back.
proof fn lemma_description_read(config: VideoConfig, frames: Seq<Seq<u8>>)
    requires
        describable(config, frames),
    ensures
        crate::mov::reader::reading_of(
            crate::mov::writer::moov_payload(config, crate::mov::writer::sample_table(frames)),
        ) == Ok::<Reading, MovReaderFault>(written_reading(config, frames)),
{
    let samples = crate::mov::writer::sample_table(frames);
    lemma_movie_len(config, frames);
    lemma_table_places(frames);
    lemma_track_fits(config, samples);
    lemma_headers_read(config, samples.len() as int);
    lemma_written_track(config, samples);
    lemma_parts_read(
        crate::mov::writer::mvhd_payload(config, samples.len() as int),
        crate::mov::writer::trak_payload(config, samples),
        Track {
            width: config.width as int % 0x1_0000,
            height: config.height as int % 0x1_0000,
            format: Some(config.format),
            fps: found_rate(
                config,
                config.timescale as int,
                crate::mov::reader::blank_track(),
            ),
            samples: places(samples),
        },
    );
}

/// The header of an atom of a file is read from its first bytes.
proof fn lemma_short_head(file: Seq<u8>, pos: int, size: int, kind: [u8; 4])
    requires
        0 <= pos,
        pos + 8 <= file.len(),
        file.subrange(pos, pos + 4) == crate::bytes::be32_bytes(size),
        file.subrange(pos + 4, pos + 8) == kind@,
        1 < size <= u32::MAX,
    ensures
        crate::mov::reader::head_of(
            file.subrange(pos, file.len() as int),
            file.len() - pos,
        ) == Some(
            crate::mov::reader::AtomHead {
                tag: crate::mov::atoms::tag(kind),
                size,
                header_len: 8,
            },
        ),
{
    let head = file.subrange(pos, file.len() as int);
    assert(head.subrange(0, 4) =~= crate::bytes::be32_bytes(size));
    lemma_be32_in(head, 0, size);
    assert(head.subrange(4, 8) =~= kind@);
    crate::bytes::lemma_read_at(head, 4, kind@);
}

/// The header of an atom with its size in eight bytes is read from its first bytes.
proof fn lemma_long_head(file: Seq<u8>, pos: int, size: int, kind: [u8; 4])
    requires
        0 <= pos,
        pos + 16 <= file.len(),
        file.subrange(pos, pos + 4) == crate::bytes::be32_bytes(1),
        file.subrange(pos + 4, pos + 8) == kind@,
        file.subrange(pos + 8, pos + 16) == crate::bytes::be64_bytes(size),
        0 <= size <= u64::MAX,
    ensures
        crate::mov::reader::head_of(
            file.subrange(pos, file.len() as int),
            file.len() - pos,
        ) == Some(
            crate::mov::reader::AtomHead {
                tag: crate::mov::atoms::tag(kind),
                size,
                header_len: 16,
            },
        ),
{
    let head = file.subrange(pos, file.len() as int);
    assert(head.subrange(0, 4) =~= crate::bytes::be32_bytes(1));
    lemma_be32_in(head, 0, 1);
    assert(head.subrange(4, 8) =~= kind@);
    crate::bytes::lemma_read_at(head, 4, kind@);
    assert(head.subrange(8, 16) =~= crate::bytes::be64_bytes(size));
    crate::bytes::law_bytes_round_trip(size);
    crate::bytes::lemma_read_at(head, 8, crate::bytes::be64_bytes(size));
}

/// The description is found behind the file type and the media data.
proof fn lemma_description_place(file: Seq<u8>, at: int, len: int)
    requires
        file.len() <= u64::MAX,
        file.len() == at + 8 + len,
        at >= 36,
        0 <= len,
        len + 8 <= u32::MAX,
        file.subrange(0, 4) == crate::bytes::be32_bytes(20),
        file.subrange(4, 8) == ATOM_FTYP@,
        file.subrange(20, 24) == crate::bytes::be32_bytes(1),
        file.subrange(24, 28) == ATOM_MDAT@,
        file.subrange(28, 36) == crate::bytes::be64_bytes(at - 20),
        file.subrange(at, at + 4) == crate::bytes::be32_bytes(len + 8),
        file.subrange(at + 4, at + 8) == ATOM_MOOV@,
    ensures
        crate::mov::reader::moov_place(file, 0) == Some((at + 8, len)),
{
    let n = file.len() as int;
    lemma_tags();
    lemma_short_head(file, 0, 20, ATOM_FTYP);
    lemma_long_head(file, 20, at - 20, ATOM_MDAT);
    lemma_short_head(file, at, len + 8, ATOM_MOOV);
    assert(crate::mov::reader::step_of(file.subrange(0, n), 0, n) == ScanStep::Next(20u64));
    assert(crate::mov::reader::step_of(file.subrange(20, n), 20, n) == ScanStep::Next(at as u64));
    assert(crate::mov::reader::step_of(file.subrange(at, n), at, n) == ScanStep::Moov {
        start: (at + 8) as u64,
        len: len as u64,
    });
    assert(crate::mov::reader::moov_place(file, at) == Some((at + 8, len)));
    assert(crate::mov::reader::moov_place(file, 20) == crate::mov::reader::moov_place(file, at));
}

/// Where the parts of a movie file lie.
proof fn lemma_file_parts(x: Seq<u8>, size: int, all: Seq<u8>, moov: Seq<u8>)
    requires
        x.len() == 12,
    ensures
        ({
            let file = crate::mov::atoms::atom(ATOM_FTYP, x) + crate::bytes::be32_bytes(1)
                + ATOM_MDAT@ + crate::bytes::be64_bytes(size) + all + crate::mov::atoms::atom(
                ATOM_MOOV,
                moov,
            );
            let at = 36 + all.len() as int;
            &&& file.len() == at + 8 + moov.len()
            &&& file.subrange(0, 4) == crate::bytes::be32_bytes(20)
            &&& file.subrange(4, 8) == ATOM_FTYP@
            &&& file.subrange(20, 24) == crate::bytes::be32_bytes(1)
            &&& file.subrange(24, 28) == ATOM_MDAT@
            &&& file.subrange(28, 36) == crate::bytes::be64_bytes(size)
            &&& file.subrange(at, at + 4) == crate::bytes::be32_bytes(moov.len() as int + 8)
            &&& file.subrange(at + 4, at + 8) == ATOM_MOOV@
            &&& file.subrange(at + 8, at + 8 + moov.len()) == moov
        }),
{
    let file = crate::mov::atoms::atom(ATOM_FTYP, x) + crate::bytes::be32_bytes(1) + ATOM_MDAT@
        + crate::bytes::be64_bytes(size) + all + crate::mov::atoms::atom(ATOM_MOOV, moov);
    let at = 36 + all.len() as int;
    assert(file.subrange(0, 4) =~= crate::bytes::be32_bytes(20));
    assert(file.subrange(4, 8) =~= ATOM_FTYP@);
    assert(file.subrange(20, 24) =~= crate::bytes::be32_bytes(1));
    assert(file.subrange(24, 28) =~= ATOM_MDAT@);
    assert(file.subrange(28, 36) =~= crate::bytes::be64_bytes(size));
    assert(file.subrange(at, at + 4) =~= crate::bytes::be32_bytes(moov.len() as int + 8));
    assert(file.subrange(at + 4, at + 8) =~= ATOM_MOOV@);
    assert(file.subrange(at + 8, at + 8 + moov.len()) =~= moov);
}

/// A movie that was written is read back: its dimensions, format, rate, and where its frames lie.
pub proof fn law_movie_round_trip(config: VideoConfig, frames: Seq<Seq<u8>>)
    requires
        describable(config, frames),
    ensures
        crate::mov::reader::file_reading(crate::mov::writer::movie(config, frames)) == Ok::<
            Reading,
            MovReaderFault,
        >(written_reading(config, frames)),
{
    let all = crate::snappy::joined(frames);
    let moov = crate::mov::writer::moov_payload(config, crate::mov::writer::sample_table(frames));
    let x = BRAND_QT@ + crate::bytes::be32_bytes(0) + BRAND_QT@;
    lemma_movie_len(config, frames);
    lemma_file_parts(x, 16 + all.len() as int, all, moov);
    lemma_description_place(
        crate::mov::writer::movie(config, frames),
        36 + all.len() as int,
        moov.len() as int,
    );
    lemma_description_read(config, frames);
}

/// Every frame of a movie that was written comes out as it went in.
pub proof fn law_frames_round_trip(config: VideoConfig, frames: Seq<Seq<u8>>, i: int)
    requires
        describable(config, frames),
        0 <= i < frames.len(),
    ensures
        crate::mov::reader::packet_of(
            written_reading(config, frames),
            crate::mov::writer::movie(config, frames),
            i,
        ) == Ok::<Seq<u8>, MovReaderFault>(frames[i]),
{
    let all = crate::snappy::joined(frames);
    let file = crate::mov::writer::movie(config, frames);
    let n = frames.len() as int;
    lemma_movie_len(config, frames);
    lemma_offsets(frames, i, n);
    assert(frames.subrange(0, n) =~= frames);
    crate::snappy::lemma_joined(frames, i);
    let start = crate::snappy::joined(frames.subrange(0, i)).len() as int;
    assert(file.subrange(36 + start, 36 + start + frames[i].len()) =~= all.subrange(
        start,
        start + frames[i].len(),
    ));
    if frames[i].len() == 0 {
        assert(frames[i] =~= Seq::<u8>::empty());
    }
}

/// A whole frame rate is read back as it was written: each frame is shown for a thousand units,
/// and the duration is that of all frames.
pub proof fn law_whole_rate_round_trip(config: VideoConfig, frames: Seq<Seq<u8>>, rate: int)
    requires
        1 <= rate <= 16777,
        config.fps == crate::single::whole_number(rate),
        config.timescale == crate::mov::writer::timescale_for(config.fps),
    ensures
        config.timescale == 1000 * rate,
        config.frame_units() == 1000,
        written_reading(config, frames).fps == config.fps,
        1000 * frames.len() < 0x1_0000_0000 ==> written_reading(config, frames).duration_units
            == 1000 * frames.len(),
{
    vstd::arithmetic::power2::lemma2_to64();
    crate::single::lemma_broadcast_rates();
    crate::single::lemma_apart(rate, crate::single::ratio(2997, 100), 15712911, -19, 29);
    crate::single::lemma_apart(rate, crate::single::ratio(5994, 100), 15712911, -18, 59);
    crate::single::lemma_apart(rate, crate::single::ratio(23976, 1000), 12570329, -19, 23);
    crate::single::lemma_whole_product(rate, 1000);
    let scale = rate * 1000;
    let one = crate::single::pow2(0);
    assert(scale * one == scale) by (nonlinear_arith)
        requires
            one == 1,
    ;
    crate::single::lemma_whole_number(scale, 0);
    crate::single::lemma_nearest_exact(
        crate::single::whole_number(scale),
        scale,
        0,
        u32::MAX as int,
    );
    assert(config.timescale == scale);
    crate::single::lemma_exact_quotient(1000, rate);
    assert(1000 * crate::single::pow2(0) == 1000);
    crate::single::lemma_whole_number(1000, 0);
    crate::single::lemma_nearest_exact(
        crate::single::whole_number(1000),
        1000,
        0,
        u32::MAX as int,
    );
    crate::single::lemma_exact_quotient(rate, 1000);
    let units = config.frame_units();
    assert(frames.len() * units == 1000 * frames.len()) by (nonlinear_arith)
        requires
            units == 1000,
    ;
}

} // verus!
