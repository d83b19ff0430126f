//! Where things stand in a movie file, byte by byte.

use crate::format::HapFormat;
use crate::mov::atoms::Atom;
use crate::mov::reader::{FrameSample, MovReaderFault, Reading, SampleTables, ScanStep, Track};
use crate::mov::writer::{SampleInfo, VideoConfig};
use vstd::prelude::*;

verus! {

/// The two bytes at `i` as a number, the highest first.
pub open spec fn number2(p: Seq<u8>, i: int) -> int {
    256 * p[i] + p[i + 1]
}

/// The four bytes at `i` as a number, the highest first.
pub open spec fn number4(p: Seq<u8>, i: int) -> int {
    256 * (256 * (256 * p[i] + p[i + 1]) + p[i + 2]) + p[i + 3]
}

/// The eight bytes at `i` as a number, the highest first.
pub open spec fn number8(p: Seq<u8>, i: int) -> int {
    number4(p, i) * 0x1_0000_0000 + number4(p, i + 4)
}

proof fn lemma_number2(p: Seq<u8>, i: int, v: int)
    requires
        0 <= i,
        i + 2 <= p.len(),
        0 <= v,
        p.subrange(i, i + 2) == crate::bytes::be16_bytes(v),
    ensures
        number2(p, i) == v % 0x1_0000,
{
    crate::bytes::law_integer_bytes(v);
    let b = p.subrange(i, i + 2);
    assert(b[0] == p[i] && b[1] == p[i + 1]);
}

proof fn lemma_number4(p: Seq<u8>, i: int, v: int)
    requires
        0 <= i,
        i + 4 <= p.len(),
        0 <= v,
        p.subrange(i, i + 4) == crate::bytes::be32_bytes(v),
    ensures
        number4(p, i) == v % 0x1_0000_0000,
{
    crate::bytes::law_integer_bytes(v);
    let b = p.subrange(i, i + 4);
    assert(b[0] == p[i] && b[1] == p[i + 1] && b[2] == p[i + 2] && b[3] == p[i + 3]);
}

/// The sample description of a movie: one entry, as long as it says, under the code of the format.
/// After its size and its code the entry holds the reference to the data, which is 1, at 6; the
/// width at 24 and the height at 26; 72 dots to the inch both ways; one frame in each sample; the
/// name of the format, its length first, as far as 31 bytes hold it; the bits of a pixel at 74; and
/// no colour table.
#[verifier::spinoff_prover]
#[verifier::rlimit(40)]
pub proof fn law_sample_description(config: VideoConfig)
    ensures
        ({
            let p = crate::mov::writer::stsd_payload(config);
            let e = p.subrange(16, p.len() as int);
            let name = vstd::utf8::encode_utf8(config.format.title());
            let n = if name.len() > 31 {
                31
            } else {
                name.len() as int
            };
            &&& p.len() == 94
            &&& number4(p, 0) == 0
            &&& number4(p, 4) == 1
            &&& number4(p, 8) == p.len() - 8
            &&& p.subrange(12, 16) == config.format.code()
            &&& number2(e, 6) == 1
            &&& number2(e, 24) == config.width as int % 0x1_0000
            &&& number2(e, 26) == config.height as int % 0x1_0000
            &&& config.width < 0x1_0000 ==> number2(e, 24) == config.width
            &&& config.height < 0x1_0000 ==> number2(e, 26) == config.height
            &&& number4(e, 28) == 72 * 0x1_0000
            &&& number4(e, 32) == 72 * 0x1_0000
            &&& number4(e, 36) == 0
            &&& number2(e, 40) == 1
            &&& e[42] == n
            &&& e.subrange(43, 43 + n) == name.subrange(0, n)
            &&& number2(e, 74) == if config.format.alpha() {
                32int
            } else {
                24
            }
            &&& number2(e, 76) == 0xFFFF
        }),
{
    reveal(crate::mov::writer::stsd_payload);
    reveal(crate::mov::writer::sample_entry);
    let p = crate::mov::writer::stsd_payload(config);
    let e = crate::mov::writer::sample_entry(config);
    let w = config.width as int;
    let h = config.height as int;
    let depth = if config.format.alpha() {
        32int
    } else {
        24
    };
    let name = vstd::utf8::encode_utf8(config.format.title());
    let n = if name.len() > 31 {
        31
    } else {
        name.len() as int
    };
    assert(e.len() == 78);
    assert(p.subrange(16, p.len() as int) =~= e);
    assert(p.subrange(4, 8) =~= crate::bytes::be32_bytes(1));
    assert(p.subrange(8, 12) =~= crate::bytes::be32_bytes(86));
    lemma_number4(p, 4, 1);
    lemma_number4(p, 8, 86);
    assert(p.subrange(12, 16) =~= config.format.code());
    assert(e.subrange(6, 8) =~= crate::bytes::be16_bytes(1));
    assert(e.subrange(24, 26) =~= crate::bytes::be16_bytes(w));
    assert(e.subrange(26, 28) =~= crate::bytes::be16_bytes(h));
    assert(e.subrange(28, 32) =~= crate::bytes::be32_bytes(0x48_0000));
    assert(e.subrange(32, 36) =~= crate::bytes::be32_bytes(0x48_0000));
    assert(e.subrange(40, 42) =~= crate::bytes::be16_bytes(1));
    assert(e.subrange(43, 43 + n) =~= name.subrange(0, n));
    assert(e.subrange(74, 76) =~= crate::bytes::be16_bytes(depth));
    assert(e.subrange(76, 78) =~= crate::bytes::be16_bytes(0xFFFF));
    lemma_number2(e, 6, 1);
    lemma_number2(e, 24, w);
    lemma_number2(e, 26, h);
    lemma_number4(e, 28, 0x48_0000);
    lemma_number4(e, 32, 0x48_0000);
    lemma_number2(e, 40, 1);
    lemma_number2(e, 74, depth);
    lemma_number2(e, 76, 0xFFFF);
}

/// The display matrix at `i` changes nothing.
pub open spec fn unity_at(p: Seq<u8>, i: int) -> bool {
    &&& number4(p, i) == 0x1_0000
    &&& number4(p, i + 4) == 0
    &&& number4(p, i + 8) == 0
    &&& number4(p, i + 12) == 0
    &&& number4(p, i + 16) == 0x1_0000
    &&& number4(p, i + 20) == 0
    &&& number4(p, i + 24) == 0
    &&& number4(p, i + 28) == 0
    &&& number4(p, i + 32) == 0x4000_0000
}

#[verifier::spinoff_prover]
#[verifier::rlimit(60)]
proof fn lemma_unity(p: Seq<u8>, i: int)
    requires
        0 <= i,
        i + 36 <= p.len(),
        p.subrange(i, i + 36) == crate::mov::writer::unity_matrix_bytes(),
    ensures
        unity_at(p, i),
{
    let m = crate::mov::writer::unity_matrix_bytes();
    assert(m.len() == 36);
    assert forall|k: int| 0 <= k < 36 implies p[i + k] == #[trigger] m[k] by {
        assert(p.subrange(i, i + 36)[k] == m[k]);
    }
    assert(m.subrange(0, 4) =~= crate::bytes::be32_bytes(0x1_0000));
    assert(m.subrange(16, 20) =~= crate::bytes::be32_bytes(0x1_0000));
    assert(m.subrange(32, 36) =~= crate::bytes::be32_bytes(0x4000_0000));
    lemma_number4(m, 0, 0x1_0000);
    lemma_number4(m, 16, 0x1_0000);
    lemma_number4(m, 32, 0x4000_0000);
    assert(p[i + 16] == m[16] && p[i + 17] == m[17] && p[i + 18] == m[18] && p[i + 19] == m[19]);
    assert(p[i + 32] == m[32] && p[i + 33] == m[33] && p[i + 34] == m[34] && p[i + 35] == m[35]);
    assert(p[i] == m[0] && p[i + 1] == m[1] && p[i + 2] == m[2] && p[i + 3] == m[3]);
    assert(forall|k: int| 4 <= k < 16 || 20 <= k < 32 ==> #[trigger] m[k] == 0);
    assert(m[4] == 0 && m[5] == 0 && m[6] == 0 && m[7] == 0);
    assert(m[8] == 0 && m[9] == 0 && m[10] == 0 && m[11] == 0);
    assert(m[12] == 0 && m[13] == 0 && m[14] == 0 && m[15] == 0);
    assert(m[20] == 0 && m[21] == 0 && m[22] == 0 && m[23] == 0);
    assert(m[24] == 0 && m[25] == 0 && m[26] == 0 && m[27] == 0);
    assert(m[28] == 0 && m[29] == 0 && m[30] == 0 && m[31] == 0);
}

/// The movie header: the time scale at 12, the duration at 16, normal speed and full volume, no
/// change of the picture, and 2 as the number of the next track.
#[verifier::spinoff_prover]
#[verifier::rlimit(40)]
pub proof fn law_movie_header(config: VideoConfig, count: int)
    requires
        0 <= count * config.frame_units(),
    ensures
        ({
            let p = crate::mov::writer::mvhd_payload(config, count);
            &&& p.len() == 100
            &&& number4(p, 0) == 0
            &&& number4(p, 12) == config.timescale
            &&& number4(p, 16) == (count * config.frame_units()) % 0x1_0000_0000
            &&& number4(p, 20) == 0x1_0000
            &&& number2(p, 24) == 0x100
            &&& unity_at(p, 36)
            &&& number4(p, 96) == 2
        }),
{
    reveal(crate::mov::writer::mvhd_payload);
    let p = crate::mov::writer::mvhd_payload(config, count);
    let d = count * config.frame_units();
    assert(p.len() == 100);
    assert(p.subrange(12, 16) =~= crate::bytes::be32_bytes(config.timescale as int));
    assert(p.subrange(16, 20) =~= crate::bytes::be32_bytes(d));
    assert(p.subrange(20, 24) =~= crate::bytes::be32_bytes(0x1_0000));
    assert(p.subrange(24, 26) =~= crate::bytes::be16_bytes(0x100));
    assert(p.subrange(36, 72) =~= crate::mov::writer::unity_matrix_bytes());
    assert(p.subrange(96, 100) =~= crate::bytes::be32_bytes(2));
    lemma_number4(p, 12, config.timescale as int);
    lemma_number4(p, 16, d);
    lemma_number4(p, 20, 0x1_0000);
    lemma_number2(p, 24, 0x100);
    lemma_unity(p, 36);
    lemma_number4(p, 96, 2);
}

/// The track header: the track is in use and has the number 1; its duration stands at 20; the
/// picture is not changed; the width stands at 76 and the height at 80, in 65536ths.
#[verifier::spinoff_prover]
#[verifier::rlimit(40)]
pub proof fn law_track_header(config: VideoConfig, count: int)
    requires
        0 <= count * config.frame_units(),
    ensures
        ({
            let p = crate::mov::writer::tkhd_payload(config, count);
            &&& p.len() == 84
            &&& number4(p, 0) == 0x0F
            &&& number4(p, 12) == 1
            &&& number4(p, 20) == (count * config.frame_units()) % 0x1_0000_0000
            &&& unity_at(p, 40)
            &&& number4(p, 76) == (config.width * 0x1_0000) % 0x1_0000_0000
            &&& number4(p, 80) == (config.height * 0x1_0000) % 0x1_0000_0000
            &&& config.width < 0x1_0000 ==> number2(p, 76) == config.width
            &&& config.height < 0x1_0000 ==> number2(p, 80) == config.height
        }),
{
    reveal(crate::mov::writer::tkhd_payload);
    let p = crate::mov::writer::tkhd_payload(config, count);
    let d = count * config.frame_units();
    assert(p.len() == 84);
    assert(p.subrange(12, 16) =~= crate::bytes::be32_bytes(1));
    assert(p.subrange(20, 24) =~= crate::bytes::be32_bytes(d));
    assert(p.subrange(40, 76) =~= crate::mov::writer::unity_matrix_bytes());
    assert(p.subrange(76, 80) =~= crate::bytes::be32_bytes(config.width * 0x1_0000));
    assert(p.subrange(80, 84) =~= crate::bytes::be32_bytes(config.height * 0x1_0000));
    lemma_number4(p, 12, 1);
    lemma_number4(p, 20, d);
    lemma_unity(p, 40);
    lemma_number4(p, 76, config.width * 0x1_0000);
    lemma_number4(p, 80, config.height * 0x1_0000);
}

/// The media header: the time scale at 12, the duration at 16, and no language.
#[verifier::spinoff_prover]
#[verifier::rlimit(60)]
pub proof fn law_media_header(config: VideoConfig, count: int)
    requires
        0 <= count * config.frame_units(),
    ensures
        ({
            let p = crate::mov::writer::mdhd_payload(config, count);
            &&& p.len() == 24
            &&& number4(p, 0) == 0
            &&& number4(p, 12) == config.timescale
            &&& number4(p, 16) == (count * config.frame_units()) % 0x1_0000_0000
            &&& number2(p, 20) == 0x55C4
        }),
{
    reveal(crate::mov::writer::mdhd_payload);
    let p = crate::mov::writer::mdhd_payload(config, count);
    let d = count * config.frame_units();
    assert(p.len() == 24);
    assert(p.subrange(12, 16) =~= crate::bytes::be32_bytes(config.timescale as int));
    assert(p.subrange(16, 20) =~= crate::bytes::be32_bytes(d));
    assert(p.subrange(20, 22) =~= crate::bytes::be16_bytes(0x55C4));
    lemma_number4(p, 12, config.timescale as int);
    lemma_number4(p, 16, d);
    lemma_number2(p, 20, 0x55C4);
}

/// The handler is that of video, the video header has its flag set, and the data is in the file
/// itself.
#[verifier::spinoff_prover]
#[verifier::rlimit(60)]
pub proof fn law_video_handler()
    ensures
        ({
            let p = crate::mov::writer::hdlr_payload();
            p.len() > 24 && number4(p, 0) == 0 && p.subrange(8, 12) == seq![
                'v' as u8,
                'i' as u8,
                'd' as u8,
                'e' as u8,
            ]
        }),
        ({
            let p = crate::mov::writer::vmhd_payload();
            p.len() == 12 && number4(p, 0) == 1
        }),
        ({
            let p = crate::mov::writer::dinf_payload();
            &&& p.len() == 28
            &&& number4(p, 0) == 28
            &&& p.subrange(4, 8) == seq!['d' as u8, 'r' as u8, 'e' as u8, 'f' as u8]
            &&& number4(p, 12) == 1
            &&& number4(p, 16) == 12
            &&& p.subrange(20, 24) == seq!['a' as u8, 'l' as u8, 'i' as u8, 's' as u8]
            &&& number4(p, 24) == 1
        }),
{
    reveal(crate::mov::writer::hdlr_payload);
    reveal(crate::mov::writer::vmhd_payload);
    reveal(crate::mov::writer::dinf_payload);
    crate::mov::atoms::law_atom_names();
    let p = crate::mov::writer::hdlr_payload();
    assert(p.subrange(8, 12) =~= crate::mov::atoms::HANDLER_VIDE@);
    let q = crate::mov::writer::dinf_payload();
    assert(q.len() == 28);
    assert(q.subrange(0, 4) =~= crate::bytes::be32_bytes(28));
    assert(q.subrange(4, 8) =~= crate::mov::atoms::ATOM_DREF@);
    assert(q.subrange(12, 16) =~= crate::bytes::be32_bytes(1));
    assert(q.subrange(16, 20) =~= crate::bytes::be32_bytes(12));
    assert(q.subrange(20, 24) =~= crate::mov::atoms::ATOM_ALIS@);
    lemma_number4(q, 0, 28);
    lemma_number4(q, 12, 1);
    lemma_number4(q, 16, 12);
}

/// The tables of samples: one entry in the time table, for all frames alike; one in the chunk table,
/// for one sample in each chunk from the first on; the size of every sample.
#[verifier::spinoff_prover]
#[verifier::rlimit(40)]
pub proof fn law_sample_tables(config: VideoConfig, samples: Seq<SampleInfo>, i: int)
    requires
        0 <= i < samples.len() <= u32::MAX,
    ensures
        ({
            let p = crate::mov::writer::stts_payload(config, samples.len() as int);
            &&& p.len() == 16
            &&& number4(p, 0) == 0
            &&& number4(p, 4) == 1
            &&& number4(p, 8) == samples.len()
            &&& 0 <= config.frame_units() <= u32::MAX ==> number4(p, 12) == config.frame_units()
        }),
        ({
            let p = crate::mov::writer::stsc_payload();
            &&& p.len() == 20
            &&& number4(p, 0) == 0
            &&& number4(p, 4) == 1
            &&& number4(p, 8) == 1
            &&& number4(p, 12) == 1
            &&& number4(p, 16) == 1
        }),
        ({
            let p = crate::mov::writer::stsz_payload(samples);
            &&& p.len() == 12 + 4 * samples.len()
            &&& number4(p, 0) == 0
            &&& number4(p, 4) == 0
            &&& number4(p, 8) == samples.len()
            &&& number4(p, 12 + 4 * i) == samples[i].size
        }),
{
    reveal(crate::mov::writer::stts_payload);
    reveal(crate::mov::writer::stsc_payload);
    reveal(crate::mov::writer::stsz_payload);
    let n = samples.len() as int;
    let p = crate::mov::writer::stts_payload(config, n);
    assert(p.subrange(4, 8) =~= crate::bytes::be32_bytes(1));
    assert(p.subrange(8, 12) =~= crate::bytes::be32_bytes(n));
    assert(p.subrange(12, 16) =~= crate::bytes::be32_bytes(config.frame_units()));
    lemma_number4(p, 4, 1);
    lemma_number4(p, 8, n);
    if 0 <= config.frame_units() <= u32::MAX {
        lemma_number4(p, 12, config.frame_units());
    }
    let q = crate::mov::writer::stsc_payload();
    assert(q.subrange(4, 8) =~= crate::bytes::be32_bytes(1));
    assert(q.subrange(8, 12) =~= crate::bytes::be32_bytes(1));
    assert(q.subrange(12, 16) =~= crate::bytes::be32_bytes(1));
    assert(q.subrange(16, 20) =~= crate::bytes::be32_bytes(1));
    lemma_number4(q, 4, 1);
    lemma_number4(q, 8, 1);
    lemma_number4(q, 12, 1);
    lemma_number4(q, 16, 1);
    let r = crate::mov::writer::stsz_payload(samples);
    lemma_sizes(samples, i);
    assert(r.subrange(8, 12) =~= crate::bytes::be32_bytes(n));
    lemma_number4(r, 8, n);
    assert(r.subrange(12 + 4 * i, 16 + 4 * i) =~= crate::mov::writer::sample_sizes(
        samples,
    ).subrange(4 * i, 4 * i + 4));
    lemma_number4(r, 12 + 4 * i, samples[i].size as int);
}

#[verifier::spinoff_prover]
#[verifier::rlimit(60)]
proof fn lemma_sizes(samples: Seq<SampleInfo>, i: int)
    requires
        0 <= i < samples.len(),
    ensures
        crate::mov::writer::sample_sizes(samples).len() == 4 * samples.len(),
        crate::mov::writer::sample_sizes(samples).subrange(4 * i, 4 * i + 4)
            == crate::bytes::be32_bytes(samples[i].size as int),
    decreases samples.len(),
{
    let all = crate::mov::writer::sample_sizes(samples);
    let front = crate::mov::writer::sample_sizes(samples.drop_last());
    if samples.len() > 1 {
        lemma_sizes(samples.drop_last(), if i < samples.len() - 1 { i } else { 0 });
    } else {
        assert(front.len() == 0);
    }
    if i < samples.len() - 1 {
        assert(all.subrange(4 * i, 4 * i + 4) =~= front.subrange(4 * i, 4 * i + 4));
    } else {
        assert(all.subrange(4 * i, 4 * i + 4) =~= crate::bytes::be32_bytes(
            samples[i].size as int,
        ));
    }
}

/// The offsets of the samples stand in a table of four bytes for each, unless the last does not fit:
/// then all have eight.
#[verifier::spinoff_prover]
#[verifier::rlimit(60)]
pub proof fn law_offset_table(samples: Seq<SampleInfo>, i: int)
    requires
        0 <= i < samples.len() <= 0x1000_0000,
        forall|k: int|
            0 <= k < samples.len() ==> (#[trigger] samples[k]).offset <= samples.last().offset,
    ensures
        ({
            let a = crate::mov::writer::offset_atom(samples);
            let n = samples.len() as int;
            &&& number4(a, 8) == 0
            &&& number4(a, 12) == n
            &&& if samples.last().offset <= 0xFFFF_FFFF {
                &&& a.len() == 16 + 4 * n
                &&& number4(a, 0) == a.len()
                &&& a.subrange(4, 8) == crate::mov::atoms::ATOM_STCO@
                &&& number4(a, 16 + 4 * i) == samples[i].offset
            } else {
                &&& a.len() == 16 + 8 * n
                &&& number4(a, 0) == a.len()
                &&& a.subrange(4, 8) == crate::mov::atoms::ATOM_CO64@
                &&& number8(a, 16 + 8 * i) == samples[i].offset
            }
        }),
{
    assert(samples[i].offset <= samples.last().offset);
    reveal(table);
    if samples.last().offset <= 0xFFFF_FFFF {
        lemma_short_table(samples, i);
    } else {
        lemma_long_table(samples, i);
    }
}

#[verifier::spinoff_prover]
#[verifier::rlimit(60)]
proof fn lemma_short_table(samples: Seq<SampleInfo>, i: int)
    requires
        0 <= i < samples.len() <= 0x1000_0000,
        samples[i].offset <= 0xFFFF_FFFF,
    ensures
        ({
            let n = samples.len() as int;
            let a = table(
                crate::mov::atoms::ATOM_STCO,
                n,
                crate::mov::writer::short_offsets(samples),
            );
            &&& a.len() == 16 + 4 * n
            &&& number4(a, 0) == a.len()
            &&& a.subrange(4, 8) == crate::mov::atoms::ATOM_STCO@
            &&& number4(a, 8) == 0
            &&& number4(a, 12) == n
            &&& number4(a, 16 + 4 * i) == samples[i].offset
        }),
{
    let n = samples.len() as int;
    let entries = crate::mov::writer::short_offsets(samples);
    let a = table(crate::mov::atoms::ATOM_STCO, n, entries);
    lemma_offsets(samples, i);
    lemma_table(crate::mov::atoms::ATOM_STCO, n, entries);
    assert(a.subrange(16 + 4 * i, 20 + 4 * i) =~= a.subrange(16, a.len() as int).subrange(
        4 * i,
        4 * i + 4,
    ));
    lemma_number4(a, 16 + 4 * i, samples[i].offset as int);
}

#[verifier::spinoff_prover]
#[verifier::rlimit(60)]
proof fn lemma_long_table(samples: Seq<SampleInfo>, i: int)
    requires
        0 <= i < samples.len() <= 0x1000_0000,
    ensures
        ({
            let n = samples.len() as int;
            let a = table(
                crate::mov::atoms::ATOM_CO64,
                n,
                crate::mov::writer::long_offsets(samples),
            );
            &&& a.len() == 16 + 8 * n
            &&& number4(a, 0) == a.len()
            &&& a.subrange(4, 8) == crate::mov::atoms::ATOM_CO64@
            &&& number4(a, 8) == 0
            &&& number4(a, 12) == n
            &&& number8(a, 16 + 8 * i) == samples[i].offset
        }),
{
    let n = samples.len() as int;
    let entries = crate::mov::writer::long_offsets(samples);
    let a = table(crate::mov::atoms::ATOM_CO64, n, entries);
    lemma_offsets(samples, i);
    lemma_table(crate::mov::atoms::ATOM_CO64, n, entries);
    assert(a.subrange(16 + 8 * i, 24 + 8 * i) =~= a.subrange(16, a.len() as int).subrange(
        8 * i,
        8 * i + 8,
    ));
    lemma_number8(a, 16 + 8 * i, samples[i].offset as int);
}

#[verifier::opaque]
spec fn table(kind: [u8; 4], n: int, entries: Seq<u8>) -> Seq<u8> {
    crate::mov::atoms::atom(
        kind,
        crate::mov::writer::flags(0) + crate::bytes::be32_bytes(n) + entries,
    )
}

proof fn lemma_number8(p: Seq<u8>, i: int, v: int)
    requires
        0 <= i,
        i + 8 <= p.len(),
        0 <= v <= u64::MAX,
        p.subrange(i, i + 8) == crate::bytes::be64_bytes(v),
    ensures
        number8(p, i) == v,
{
    let b = p.subrange(i, i + 8);
    crate::bytes::law_integer_bytes(v);
    assert(p.subrange(i, i + 4) =~= b.subrange(0, 4));
    assert(p.subrange(i + 4, i + 8) =~= b.subrange(4, 8));
    lemma_number4(p, i, v / 0x1_0000_0000);
    lemma_number4(p, i + 4, v);
}

#[verifier::spinoff_prover]
#[verifier::rlimit(60)]
proof fn lemma_table(kind: [u8; 4], n: int, entries: Seq<u8>)
    requires
        0 <= n <= u32::MAX,
        entries.len() + 16 <= u32::MAX,
    ensures
        ({
            let a = table(kind, n, entries);
            &&& a.len() == 16 + entries.len()
            &&& number4(a, 0) == a.len()
            &&& a.subrange(4, 8) == kind@
            &&& number4(a, 8) == 0
            &&& number4(a, 12) == n
            &&& a.subrange(16, a.len() as int) == entries
        }),
{
    reveal(table);
    let a = table(kind, n, entries);
    assert(a.subrange(0, 4) =~= crate::bytes::be32_bytes(a.len() as int));
    assert(a.subrange(4, 8) =~= kind@);
    assert(a.subrange(12, 16) =~= crate::bytes::be32_bytes(n));
    assert(a.subrange(16, a.len() as int) =~= entries);
    lemma_number4(a, 0, a.len() as int);
    lemma_number4(a, 12, n);
}

#[verifier::spinoff_prover]
#[verifier::rlimit(60)]
proof fn lemma_offsets(samples: Seq<SampleInfo>, i: int)
    requires
        0 <= i < samples.len(),
    ensures
        crate::mov::writer::short_offsets(samples).len() == 4 * samples.len(),
        crate::mov::writer::short_offsets(samples).subrange(4 * i, 4 * i + 4)
            == crate::bytes::be32_bytes(samples[i].offset as int),
        crate::mov::writer::long_offsets(samples).len() == 8 * samples.len(),
        crate::mov::writer::long_offsets(samples).subrange(8 * i, 8 * i + 8)
            == crate::bytes::be64_bytes(samples[i].offset as int),
    decreases samples.len(),
{
    let short = crate::mov::writer::short_offsets(samples);
    let long = crate::mov::writer::long_offsets(samples);
    let front = crate::mov::writer::short_offsets(samples.drop_last());
    let long_front = crate::mov::writer::long_offsets(samples.drop_last());
    if samples.len() > 1 {
        lemma_offsets(samples.drop_last(), if i < samples.len() - 1 { i } else { 0 });
    } else {
        assert(front.len() == 0);
        assert(long_front.len() == 0);
    }
    let v = samples[i].offset as int;
    if i < samples.len() - 1 {
        assert(short.subrange(4 * i, 4 * i + 4) =~= front.subrange(4 * i, 4 * i + 4));
        assert(long.subrange(8 * i, 8 * i + 8) =~= long_front.subrange(8 * i, 8 * i + 8));
    } else {
        assert(short.subrange(4 * i, 4 * i + 4) =~= crate::bytes::be32_bytes(v));
        assert(long.subrange(8 * i, 8 * i + 8) =~= crate::bytes::be64_bytes(v));
    }
}

/// The bytes stand in the file from there on.
pub open spec fn stands_at(file: Seq<u8>, part: Seq<u8>, at: int) -> bool {
    &&& 0 <= at
    &&& at + part.len() <= file.len()
    &&& file.subrange(at, at + part.len()) == part
}

/// The file is the file type with the brand of QuickTime, the media data with its size in eight
/// bytes, which counts its header of 16 bytes, and the movie description.
pub open spec fn is_movie_file(file: Seq<u8>, media: Seq<u8>) -> bool {
    &&& number4(file, 0) == 20
    &&& stands_at(file, crate::mov::atoms::ATOM_FTYP@, 4)
    &&& stands_at(file, crate::mov::atoms::BRAND_QT@, 8)
    &&& number4(file, 20) == 1
    &&& stands_at(file, crate::mov::atoms::ATOM_MDAT@, 24)
    &&& number8(file, 28) == 16 + media.len()
    &&& stands_at(file, media, 36)
    &&& stands_at(file, crate::mov::atoms::ATOM_MOOV@, 36 + media.len() as int + 4)
}

/// A movie file: the file type, the media data, the movie description. The frames follow each other
/// from byte 36 on, each where the sample table says, and are the bytes that were given.
#[verifier::spinoff_prover]
#[verifier::rlimit(60)]
pub proof fn law_movie_file(config: VideoConfig, frames: Seq<Seq<u8>>, i: int)
    requires
        0 <= i < frames.len(),
        36 + crate::snappy::joined(frames).len() <= u64::MAX,
    ensures
        is_movie_file(
            crate::mov::writer::movie(config, frames),
            crate::snappy::joined(frames),
        ),
        ({
            let file = crate::mov::writer::movie(config, frames);
            let samples = crate::mov::writer::sample_table(frames);
            let at = samples[i].offset as int;
            &&& samples.len() == frames.len()
            &&& i == 0 ==> at == 36
            &&& i > 0 ==> at == samples[i - 1].offset + frames[i - 1].len()
            &&& frames[i].len() <= u32::MAX ==> samples[i].size == frames[i].len()
            &&& stands_at(file, frames[i], at)
        }),
{
    lemma_whole_file(config, frames);
    lemma_frame_in(crate::mov::writer::movie(config, frames), frames, i);
    lemma_table_entry(frames, i);
    if i > 0 {
        lemma_table_entry(frames, i - 1);
    }
    lemma_frame_place(frames, i);
}

proof fn lemma_table_entry(frames: Seq<Seq<u8>>, i: int)
    requires
        0 <= i < frames.len(),
        36 + crate::snappy::joined(frames).len() <= u64::MAX,
    ensures
        ({
            let samples = crate::mov::writer::sample_table(frames);
            &&& samples.len() == frames.len()
            &&& samples[i].offset == crate::mov::writer::frame_offset(frames, i)
            &&& frames[i].len() <= u32::MAX ==> samples[i].size == frames[i].len()
        }),
{
    lemma_frame_place(frames, i);
}

#[verifier::spinoff_prover]
#[verifier::rlimit(60)]
proof fn lemma_whole_file(config: VideoConfig, frames: Seq<Seq<u8>>)
    requires
        36 + crate::snappy::joined(frames).len() <= u64::MAX,
    ensures
        is_movie_file(
            crate::mov::writer::movie(config, frames),
            crate::snappy::joined(frames),
        ),
{
    let payload = crate::mov::writer::moov_payload(
        config,
        crate::mov::writer::sample_table(frames),
    );
    lemma_file(crate::snappy::joined(frames), payload);
}

#[verifier::spinoff_prover]
#[verifier::rlimit(60)]
proof fn lemma_frame_in(file: Seq<u8>, frames: Seq<Seq<u8>>, i: int)
    requires
        0 <= i < frames.len(),
        stands_at(file, crate::snappy::joined(frames), 36),
    ensures
        stands_at(file, frames[i], crate::mov::writer::frame_offset(frames, i)),
{
    let all = crate::snappy::joined(frames);
    let at = crate::mov::writer::frame_offset(frames, i);
    lemma_frame_place(frames, i);
    assert(file.subrange(at, at + frames[i].len()) =~= file.subrange(
        36,
        36 + all.len() as int,
    ).subrange(at - 36, at - 36 + frames[i].len()));
}

#[verifier::spinoff_prover]
#[verifier::rlimit(60)]
proof fn lemma_file(all: Seq<u8>, payload: Seq<u8>)
    requires
        36 + all.len() <= u64::MAX,
    ensures
        is_movie_file(
            crate::mov::writer::movie_head(16 + all.len() as int) + all
                + crate::mov::atoms::atom(crate::mov::atoms::ATOM_MOOV, payload),
            all,
        ),
{
    let head = crate::mov::writer::movie_head(16 + all.len() as int);
    let moov = crate::mov::atoms::atom(crate::mov::atoms::ATOM_MOOV, payload);
    assert(moov.len() >= 8 && moov.subrange(4, 8) == crate::mov::atoms::ATOM_MOOV@) by {
        assert(moov.subrange(4, 8) =~= crate::mov::atoms::ATOM_MOOV@);
    }
    lemma_head(16 + all.len() as int, all + moov);
    lemma_three(head, all, moov);
    lemma_is_file(head, all, moov);
}

/// What is known of the parts of a file is known of the file.
proof fn lemma_is_file(head: Seq<u8>, all: Seq<u8>, moov: Seq<u8>)
    requires
        ({
            let file = head + all + moov;
            let end = 36 + all.len() as int;
            &&& file.len() >= end + 8
            &&& number4(file, 0) == 20
            &&& file.subrange(4, 8) == crate::mov::atoms::ATOM_FTYP@
            &&& file.subrange(8, 12) == crate::mov::atoms::BRAND_QT@
            &&& number4(file, 20) == 1
            &&& file.subrange(24, 28) == crate::mov::atoms::ATOM_MDAT@
            &&& number8(file, 28) == 16 + all.len()
            &&& file.subrange(36, end) == all
            &&& file.subrange(end + 4, end + 8) == crate::mov::atoms::ATOM_MOOV@
        }),
    ensures
        is_movie_file(head + all + moov, all),
{
}

#[verifier::spinoff_prover]
#[verifier::rlimit(60)]
proof fn lemma_three(head: Seq<u8>, all: Seq<u8>, moov: Seq<u8>)
    requires
        head.len() == 36,
        moov.len() >= 8,
    ensures
        ({
            let file = head + all + moov;
            let end = 36 + all.len() as int;
            &&& file == head + (all + moov)
            &&& file.len() >= end + 8
            &&& file.subrange(36, end) == all
            &&& file.subrange(end + 4, end + 8) == moov.subrange(4, 8)
        }),
{
    let file = head + all + moov;
    let end = 36 + all.len() as int;
    assert(file =~= head + (all + moov));
    assert(file.subrange(36, end) =~= all);
    assert(file.subrange(end + 4, end + 8) =~= moov.subrange(4, 8));
}

#[verifier::spinoff_prover]
#[verifier::rlimit(60)]
proof fn lemma_frame_place(frames: Seq<Seq<u8>>, i: int)
    requires
        0 <= i < frames.len(),
    ensures
        ({
            let all = crate::snappy::joined(frames);
            let at = crate::mov::writer::frame_offset(frames, i);
            &&& 36 <= at
            &&& at + frames[i].len() <= 36 + all.len()
            &&& all.subrange(at - 36, at - 36 + frames[i].len()) == frames[i]
            &&& i == 0 ==> at == 36
            &&& i > 0 ==> at == crate::mov::writer::frame_offset(frames, i - 1) + frames[i
                - 1].len()
        }),
{
    crate::snappy::lemma_joined(frames, i);
    if i == 0 {
        assert(frames.subrange(0, 0) =~= Seq::<Seq<u8>>::empty());
    } else {
        let front = frames.subrange(0, i);
        assert(front.drop_last() =~= frames.subrange(0, i - 1));
        assert(front.last() == frames[i - 1]);
    }
}

#[verifier::spinoff_prover]
#[verifier::rlimit(60)]
proof fn lemma_head(size: int, rest: Seq<u8>)
    requires
        0 <= size <= u64::MAX,
    ensures
        ({
            let file = crate::mov::writer::movie_head(size) + rest;
            &&& crate::mov::writer::movie_head(size).len() == 36
            &&& number4(file, 0) == 20
            &&& file.subrange(4, 8) == crate::mov::atoms::ATOM_FTYP@
            &&& file.subrange(8, 12) == crate::mov::atoms::BRAND_QT@
            &&& number4(file, 20) == 1
            &&& file.subrange(24, 28) == crate::mov::atoms::ATOM_MDAT@
            &&& number8(file, 28) == size
        }),
{
    let file = crate::mov::writer::movie_head(size) + rest;
    assert(file.subrange(0, 4) =~= crate::bytes::be32_bytes(20));
    assert(file.subrange(4, 8) =~= crate::mov::atoms::ATOM_FTYP@);
    assert(file.subrange(8, 12) =~= crate::mov::atoms::BRAND_QT@);
    assert(file.subrange(20, 24) =~= crate::bytes::be32_bytes(1));
    assert(file.subrange(24, 28) =~= crate::mov::atoms::ATOM_MDAT@);
    assert(file.subrange(28, 36) =~= crate::bytes::be64_bytes(size));
    lemma_number4(file, 0, 20);
    lemma_number4(file, 20, 1);
    lemma_number8(file, 28, size);
}

/// `n` is the number of entries of `width` bytes that a table holds which announces `count` of them
/// and has `len` bytes, where they begin at `start`: all of them, or as many as are there whole.
pub open spec fn fits(n: int, len: int, start: int, width: int, count: int) -> bool {
    &&& 0 <= n <= count
    &&& n > 0 ==> start + width * n <= len
    &&& n == count || start + width * (n + 1) > len
}

proof fn lemma_tags()
    ensures
        crate::mov::atoms::tag(crate::mov::atoms::ATOM_STSD) == 0x7374_7364,
        crate::mov::atoms::tag(crate::mov::atoms::ATOM_STTS) == 0x7374_7473,
        crate::mov::atoms::tag(crate::mov::atoms::ATOM_STSC) == 0x7374_7363,
        crate::mov::atoms::tag(crate::mov::atoms::ATOM_STSZ) == 0x7374_737A,
        crate::mov::atoms::tag(crate::mov::atoms::ATOM_STCO) == 0x7374_636F,
        crate::mov::atoms::tag(crate::mov::atoms::ATOM_CO64) == 0x636F_3634,
        crate::mov::atoms::tag(crate::mov::atoms::ATOM_STBL) == 0x7374_626C,
        crate::mov::atoms::tag(crate::mov::atoms::ATOM_MDHD) == 0x6D64_6864,
        crate::mov::atoms::tag(crate::mov::atoms::ATOM_MINF) == 0x6D69_6E66,
        crate::mov::atoms::tag(crate::mov::atoms::ATOM_TKHD) == 0x746B_6864,
        crate::mov::atoms::tag(crate::mov::atoms::ATOM_MDIA) == 0x6D64_6961,
        crate::mov::atoms::tag(crate::mov::atoms::ATOM_MVHD) == 0x6D76_6864,
        crate::mov::atoms::tag(crate::mov::atoms::ATOM_TRAK) == 0x7472_616B,
        crate::mov::atoms::tag(crate::mov::atoms::ATOM_MOOV) == 0x6D6F_6F76,
{
    crate::mov::atoms::law_atom_names();
}

/// A size table adds a size for each entry of four bytes, from byte 12 on, and leaves the other
/// tables alone; with a size of its own at 4, that is the size of every sample, and the table has
/// no entries.
pub proof fn law_size_table_read(t: SampleTables, p: Seq<u8>, timescale: int, i: int)
    requires
        0 <= i,
    ensures
        ({
            let q = crate::mov::reader::with_table(
                t,
                Atom { tag: 0x7374_737A, payload: p },
                timescale,
            );
            let n = q.sizes.len() - t.sizes.len();
            &&& q.runs == t.runs && q.offsets == t.offsets && q.fps == t.fps && q.format
                == t.format
            &&& p.len() < 12 ==> q.sizes == t.sizes
            &&& p.len() >= 12 && number4(p, 4) == 0 ==> {
                &&& fits(n, p.len() as int, 12, 4, number4(p, 8))
                &&& i < t.sizes.len() ==> q.sizes[i] == t.sizes[i]
                &&& i < n ==> q.sizes[t.sizes.len() + i] == number4(p, 12 + 4 * i)
            }
            &&& p.len() >= 12 && number4(p, 4) != 0 ==> {
                &&& q.sizes.len() == number4(p, 8)
                &&& i < number4(p, 8) ==> q.sizes[i] == number4(p, 4)
            }
        }),
{
    lemma_tags();
    crate::bytes::law_byte_orders(p, 4);
    crate::bytes::law_byte_orders(p, 8);
    crate::bytes::law_byte_orders(p, 12 + 4 * i);
}

/// An offset table adds an offset for each entry, of four bytes or of eight, from byte 8 on, and
/// leaves the other tables alone.
pub proof fn law_offset_table_read(t: SampleTables, p: Seq<u8>, timescale: int, i: int)
    requires
        0 <= i,
    ensures
        ({
            let q = crate::mov::reader::with_table(
                t,
                Atom { tag: 0x7374_636F, payload: p },
                timescale,
            );
            let n = q.offsets.len() - t.offsets.len();
            &&& q.runs == t.runs && q.sizes == t.sizes && q.fps == t.fps && q.format == t.format
            &&& p.len() < 8 ==> q.offsets == t.offsets
            &&& p.len() >= 8 ==> fits(n, p.len() as int, 8, 4, number4(p, 4))
            &&& i < t.offsets.len() ==> q.offsets[i] == t.offsets[i]
            &&& i < n ==> q.offsets[t.offsets.len() + i] == number4(p, 8 + 4 * i)
        }),
        ({
            let q = crate::mov::reader::with_table(
                t,
                Atom { tag: 0x636F_3634, payload: p },
                timescale,
            );
            let n = q.offsets.len() - t.offsets.len();
            &&& q.runs == t.runs && q.sizes == t.sizes && q.fps == t.fps && q.format == t.format
            &&& p.len() < 8 ==> q.offsets == t.offsets
            &&& p.len() >= 8 ==> fits(n, p.len() as int, 8, 8, number4(p, 4))
            &&& i < t.offsets.len() ==> q.offsets[i] == t.offsets[i]
            &&& i < n ==> q.offsets[t.offsets.len() + i] == number8(p, 8 + 8 * i)
        }),
{
    lemma_tags();
    crate::bytes::law_byte_orders(p, 4);
    crate::bytes::law_byte_orders(p, 8 + 4 * i);
    crate::bytes::law_byte_orders(p, 8 + 8 * i);
}

/// A chunk table adds a run for each entry of twelve bytes, from byte 8 on: the number of its first
/// chunk, then the samples in each of its chunks. It leaves the other tables alone.
pub proof fn law_chunk_table_read(t: SampleTables, p: Seq<u8>, timescale: int, i: int)
    requires
        0 <= i,
    ensures
        ({
            let q = crate::mov::reader::with_table(
                t,
                Atom { tag: 0x7374_7363, payload: p },
                timescale,
            );
            let n = q.runs.len() - t.runs.len();
            &&& q.offsets == t.offsets && q.sizes == t.sizes && q.fps == t.fps && q.format
                == t.format
            &&& p.len() < 8 ==> q.runs == t.runs
            &&& p.len() >= 8 ==> fits(n, p.len() as int, 8, 12, number4(p, 4))
            &&& i < t.runs.len() ==> q.runs[i] == t.runs[i]
            &&& i < n ==> q.runs[t.runs.len() + i].first_chunk == number4(p, 8 + 12 * i)
            &&& i < n ==> q.runs[t.runs.len() + i].samples_per_chunk == number4(p, 12 + 12 * i)
        }),
{
    lemma_tags();
    crate::bytes::law_byte_orders(p, 4);
    crate::bytes::law_byte_orders(p, 8 + 12 * i);
    crate::bytes::law_byte_orders(p, 12 + 12 * i);
}

/// The sample description names the format, by the code of its first entry; one without an entry,
/// or with a code that is none of a format, changes nothing. The time table gives the frame rate
/// as the quotient of the time scale and the units of its first entry, where both are there and
/// not 0. Neither changes the other tables, and an atom of another name changes nothing.
pub proof fn law_description_and_times_read(t: SampleTables, a: Atom, timescale: int)
    ensures
        ({
            let q = crate::mov::reader::with_table(t, a, timescale);
            let p = a.payload;
            let named = HapFormat::of_code(p.subrange(12, 16));
            let timed = p.len() >= 16 && number4(p, 4) != 0 && number4(p, 12) != 0 && timescale > 0;
            &&& a.tag == 0x7374_7364 ==> {
                &&& q == SampleTables { format: q.format, ..t }
                &&& q.format == if p.len() >= 16 && number4(p, 4) != 0 && named is Some {
                    named
                } else {
                    t.format
                }
            }
            &&& a.tag == 0x7374_7473 ==> {
                &&& q == SampleTables { fps: q.fps, ..t }
                &&& q.fps == if timed {
                    crate::single::quotient(
                        crate::single::whole_number(timescale),
                        crate::single::whole_number(number4(p, 12)),
                    )
                } else {
                    t.fps
                }
            }
            &&& a.tag != 0x7374_7364 && a.tag != 0x7374_7473 && a.tag != 0x7374_7363 && a.tag
                != 0x7374_737A && a.tag != 0x7374_636F && a.tag != 0x636F_3634 ==> q == t
        }),
{
    lemma_tags();
    crate::bytes::law_byte_orders(a.payload, 4);
    crate::bytes::law_byte_orders(a.payload, 12);
}

/// The time scale of the media: at 12 in a header of version 0, at 20 in one of another version,
/// where the header reaches that far.
pub proof fn law_media_header_read(p: Seq<u8>, before: int)
    ensures
        crate::mov::reader::media_timescale(p, before) == if p.len() >= 20 && p[0] == 0 {
            number4(p, 12)
        } else if p.len() >= 28 && p[0] != 0 {
            number4(p, 20)
        } else {
            before
        },
{
    crate::bytes::law_byte_orders(p, 12);
    crate::bytes::law_byte_orders(p, 20);
}

/// A track header gives the dimensions, in 65536ths, in its last eight bytes, the width first, if
/// it has 80 bytes or more; it changes nothing else of the track.
pub proof fn law_track_header_read(atoms: Seq<Atom>, p: Seq<u8>)
    ensures
        ({
            let before = crate::mov::reader::track_of(atoms);
            let after = crate::mov::reader::track_of(
                atoms.push(Atom { tag: 0x746B_6864, payload: p }),
            );
            let end = p.len() as int;
            &&& after == Track { width: after.width, height: after.height, ..before }
            &&& after.width == if end >= 80 {
                number2(p, end - 8)
            } else {
                before.width
            }
            &&& after.height == if end >= 80 {
                number2(p, end - 4)
            } else {
                before.height
            }
        }),
{
    lemma_tags();
    let all = atoms.push(Atom { tag: 0x746B_6864, payload: p });
    assert(all.drop_last() =~= atoms);
    crate::bytes::law_byte_orders(p, p.len() - 8);
    crate::bytes::law_byte_orders(p, p.len() - 4);
}

/// The movie header gives the time scale and the duration: at 12 and 16 in version 0, at 20 and in
/// the eight bytes at 24 in version 1. Any other header is passed over. The first track of a HAP
/// format is the track of the movie, and what comes after it is not read; a track of none is
/// passed over, and so is an atom of another name.
pub proof fn law_movie_read(a: Atom, rest: Seq<Atom>, timescale: int, duration: int)
    ensures
        ({
            let m = crate::mov::reader::movie_of(seq![a] + rest, timescale, duration);
            let p = a.payload;
            let track = crate::mov::reader::track_of(crate::mov::atoms::atoms_of(p));
            &&& a.tag == 0x6D76_6864 && p.len() >= 20 && p[0] == 0 ==> m
                == crate::mov::reader::movie_of(rest, number4(p, 12), number4(p, 16))
            &&& a.tag == 0x6D76_6864 && p.len() >= 32 && p[0] == 1 ==> m
                == crate::mov::reader::movie_of(rest, number4(p, 20), number8(p, 24))
            &&& a.tag == 0x6D76_6864 && (p.len() < 20 || p[0] > 1 || p[0] == 1 && p.len() < 32)
                ==> m == crate::mov::reader::movie_of(rest, timescale, duration)
            &&& a.tag == 0x7472_616B && track.format is Some ==> m.timescale == timescale
                && m.duration == duration && m.track == Some(track)
            &&& a.tag == 0x7472_616B && track.format is None || a.tag != 0x7472_616B && a.tag
                != 0x6D76_6864 ==> m == crate::mov::reader::movie_of(rest, timescale, duration)
        }),
        ({
            let m = crate::mov::reader::movie_of(Seq::empty(), timescale, duration);
            m.timescale == timescale && m.duration == duration && m.track is None
        }),
{
    lemma_tags();
    let all = seq![a] + rest;
    assert(all.subrange(1, all.len() as int) =~= rest);
    crate::bytes::law_byte_orders(a.payload, 12);
    crate::bytes::law_byte_orders(a.payload, 16);
    crate::bytes::law_byte_orders(a.payload, 20);
    crate::bytes::law_byte_orders(a.payload, 24);
}

/// The search for the movie description steps from atom to atom by their sizes. The size is the
/// first four bytes; if they are 1, it is the eight bytes after the name; if they are 0, it is all
/// that is left of the file. The description begins after the header of its atom, which has 16
/// bytes with the long size and 8 without. The search ends where no header is left.
pub proof fn law_search_step(head: Seq<u8>, pos: int, len: int)
    requires
        0 <= pos <= len <= u64::MAX,
    ensures
        ({
            let step = crate::mov::reader::step_of(head, pos, len);
            let long = number4(head, 0) == 1;
            let skip: int = if long {
                16
            } else {
                8
            };
            let size = if long {
                number8(head, 8)
            } else if number4(head, 0) == 0 {
                len - pos
            } else {
                number4(head, 0)
            };
            let next = pos + size;
            let body = size - skip;
            if len - pos < skip {
                step is Stop
            } else if number4(head, 4) == 0x6D6F_6F76 {
                if body < 0 {
                    step is Stop
                } else {
                    step is Moov && step->start == pos + skip && step->len == body
                }
            } else if size == 0 || next > u64::MAX {
                step is Stop
            } else {
                step is Next && step->0 == next
            }
        }),
{
    lemma_tags();
    crate::bytes::law_byte_orders(head, 0);
    crate::bytes::law_byte_orders(head, 4);
    crate::bytes::law_byte_orders(head, 8);
    crate::bytes::law_byte_orders(head, 12);
}

/// The packet of a frame is the run of bytes of the file that the sample table gives for it. It
/// ends with the file at the latest, or the file is cut short; a frame of no bytes needs no file. A
/// number past the last frame is out of bounds, and the fault says how many frames there are.
pub proof fn law_packet(r: Reading, file: Seq<u8>, before: Seq<u8>, s: FrameSample, packet: Seq<u8>)
    requires
        packet.len() == s.size,
        before.len() == s.offset,
        packet.len() > 0,
    ensures
        ({
            let with = Reading { samples: r.samples.push(s), ..r };
            let n = r.samples.len() as int;
            let whole = before + packet + file;
            &&& crate::mov::reader::packet_of(with, whole, n) == Ok::<Seq<u8>, MovReaderFault>(
                packet,
            )
            &&& crate::mov::reader::packet_of(
                with,
                (before + packet).drop_last(),
                n,
            ) == Err::<Seq<u8>, MovReaderFault>(MovReaderFault::UnexpectedEof)
            &&& crate::mov::reader::packet_of(with, whole, n + 1) == Err::<
                Seq<u8>,
                MovReaderFault,
            >(MovReaderFault::FrameIndexOutOfBounds { index: n + 1, total: n + 1 })
        }),
        forall|k: int|
            0 <= k < r.samples.len() && r.samples[k].size == 0
                ==> #[trigger] crate::mov::reader::packet_of(r, file, k) == Ok::<
                Seq<u8>,
                MovReaderFault,
            >(Seq::empty()),
{
    let whole = before + packet + file;
    assert(whole.subrange(s.offset as int, s.offset + s.size) =~= packet);
}

/// A description whose track has no samples is no movie; without a track there is no movie either.
/// Otherwise the reading is what the track and the movie header say.
pub proof fn law_reading(moov: Seq<u8>)
    ensures
        ({
            let m = crate::mov::reader::movie_of(crate::mov::atoms::atoms_of(moov), 0, 0);
            match crate::mov::reader::reading_of(moov) {
                Ok(r) => {
                    &&& m.track is Some
                    &&& m.track->0.samples == r.samples && r.samples.len() > 0
                    &&& m.track->0.width == r.width
                    &&& m.track->0.height == r.height
                    &&& m.track->0.fps == r.fps
                    &&& m.track->0.format == Some(r.format)
                    &&& m.timescale == r.timescale
                    &&& m.duration == r.duration_units
                },
                Err(e) => if m.track is None {
                    e is NoHapTrackFound
                } else {
                    e is InvalidFile && m.track->0.samples.len() == 0
                },
            }
        }),
{
    lemma_track_named(crate::mov::atoms::atoms_of(moov), 0, 0);
}

proof fn lemma_track_named(atoms: Seq<Atom>, timescale: int, duration: int)
    ensures
        ({
            let m = crate::mov::reader::movie_of(atoms, timescale, duration);
            m.track is Some ==> m.track->0.format is Some
        }),
    decreases atoms.len(),
{
    if atoms.len() > 0 {
        let p = atoms[0].payload;
        let rest = atoms.subrange(1, atoms.len() as int);
        lemma_track_named(rest, timescale, duration);
        lemma_track_named(rest, crate::bytes::be32(p, 12), crate::bytes::be32(p, 16));
        lemma_track_named(rest, crate::bytes::be32(p, 20), crate::bytes::be64(p, 24));
    }
}

/// The atoms that the description of a movie is made of, in their order: a header and one track; in
/// the track its header and the media; in the media its header, the handler and the information; in
/// that the video header, where the data is, and the sample table; in the sample table the
/// description, the times, the chunks, the sizes and the offsets.
#[verifier::spinoff_prover]
#[verifier::rlimit(40)]
pub proof fn law_movie_tree(config: VideoConfig, samples: Seq<SampleInfo>)
    requires
        crate::mov::writer::moov_payload(config, samples).len() + 8 <= u32::MAX,
    ensures
        ({
            let n = samples.len() as int;
            let stbl = crate::mov::writer::stbl_payload(config, samples);
            let minf = crate::mov::writer::minf_payload(config, samples);
            let mdia = crate::mov::writer::mdia_payload(config, samples);
            let trak = crate::mov::writer::trak_payload(config, samples);
            let moov = crate::mov::writer::moov_payload(config, samples);
            &&& crate::mov::atoms::atoms_of(moov) == seq![
                Atom { tag: 0x6D76_6864, payload: crate::mov::writer::mvhd_payload(config, n) },
                Atom { tag: 0x7472_616B, payload: trak },
            ]
            &&& crate::mov::atoms::atoms_of(trak) == seq![
                Atom { tag: 0x746B_6864, payload: crate::mov::writer::tkhd_payload(config, n) },
                Atom { tag: 0x6D64_6961, payload: mdia },
            ]
            &&& crate::mov::atoms::atoms_of(mdia) == seq![
                Atom { tag: 0x6D64_6864, payload: crate::mov::writer::mdhd_payload(config, n) },
                Atom { tag: 0x6864_6C72, payload: crate::mov::writer::hdlr_payload() },
                Atom { tag: 0x6D69_6E66, payload: minf },
            ]
            &&& crate::mov::atoms::atoms_of(minf) == seq![
                Atom { tag: 0x766D_6864, payload: crate::mov::writer::vmhd_payload() },
                Atom { tag: 0x6469_6E66, payload: crate::mov::writer::dinf_payload() },
                Atom { tag: 0x7374_626C, payload: stbl },
            ]
            &&& crate::mov::atoms::atoms_of(stbl).len() == 5
            &&& crate::mov::atoms::atoms_of(stbl).subrange(0, 4) == seq![
                Atom { tag: 0x7374_7364, payload: crate::mov::writer::stsd_payload(config) },
                Atom { tag: 0x7374_7473, payload: crate::mov::writer::stts_payload(config, n) },
                Atom { tag: 0x7374_7363, payload: crate::mov::writer::stsc_payload() },
                Atom { tag: 0x7374_737A, payload: crate::mov::writer::stsz_payload(samples) },
            ]
        }),
{
    lemma_tags();
    lemma_more_tags();
    let n = samples.len() as int;
    let stbl = crate::mov::writer::stbl_payload(config, samples);
    let minf = crate::mov::writer::minf_payload(config, samples);
    let mdia = crate::mov::writer::mdia_payload(config, samples);
    let trak = crate::mov::writer::trak_payload(config, samples);
    let moov = crate::mov::writer::moov_payload(config, samples);
    lemma_two(
        crate::mov::atoms::ATOM_MVHD,
        crate::mov::writer::mvhd_payload(config, n),
        crate::mov::atoms::ATOM_TRAK,
        trak,
    );
    reveal(crate::mov::writer::trak_payload);
    lemma_two(
        crate::mov::atoms::ATOM_TKHD,
        crate::mov::writer::tkhd_payload(config, n),
        crate::mov::atoms::ATOM_MDIA,
        mdia,
    );
    reveal(crate::mov::writer::mdia_payload);
    lemma_triple(
        crate::mov::atoms::ATOM_MDHD,
        crate::mov::writer::mdhd_payload(config, n),
        crate::mov::atoms::ATOM_HDLR,
        crate::mov::writer::hdlr_payload(),
        crate::mov::atoms::ATOM_MINF,
        minf,
    );
    reveal(crate::mov::writer::minf_payload);
    lemma_triple(
        crate::mov::atoms::ATOM_VMHD,
        crate::mov::writer::vmhd_payload(),
        crate::mov::atoms::ATOM_DINF,
        crate::mov::writer::dinf_payload(),
        crate::mov::atoms::ATOM_STBL,
        stbl,
    );
    lemma_tables_found(config, samples);
}

proof fn lemma_more_tags()
    ensures
        crate::mov::atoms::tag(crate::mov::atoms::ATOM_HDLR) == 0x6864_6C72,
        crate::mov::atoms::tag(crate::mov::atoms::ATOM_VMHD) == 0x766D_6864,
        crate::mov::atoms::tag(crate::mov::atoms::ATOM_DINF) == 0x6469_6E66,
{
    crate::mov::atoms::law_atom_names();
}

spec fn found(kind: [u8; 4], payload: Seq<u8>) -> Atom {
    Atom { tag: crate::mov::atoms::tag(kind), payload }
}

#[verifier::spinoff_prover]
#[verifier::rlimit(60)]
proof fn lemma_one(kind: [u8; 4], payload: Seq<u8>)
    requires
        payload.len() + 8 <= u32::MAX,
    ensures
        crate::mov::atoms::atoms_of(crate::mov::atoms::atom(kind, payload)) == seq![
            found(kind, payload),
        ],
        crate::mov::atoms::atom(kind, payload).len() == payload.len() + 8,
{
    let none = Seq::<u8>::empty();
    let a = crate::mov::atoms::atom(kind, payload);
    assert(a + none =~= a);
    crate::mov::atoms::law_atom_found(kind, payload, none);
    assert(crate::mov::atoms::atoms_of(none).len() == 0) by {
        reveal(crate::mov::atoms::atoms_of);
    }
    assert(crate::mov::atoms::atoms_of(a) =~= seq![found(kind, payload)]);
}

#[verifier::spinoff_prover]
#[verifier::rlimit(60)]
proof fn lemma_two(a: [u8; 4], p: Seq<u8>, b: [u8; 4], q: Seq<u8>)
    requires
        (crate::mov::atoms::atom(a, p) + crate::mov::atoms::atom(b, q)).len() <= u32::MAX,
    ensures
        crate::mov::atoms::atoms_of(crate::mov::atoms::atom(a, p) + crate::mov::atoms::atom(b, q))
            == seq![found(a, p), found(b, q)],
        (crate::mov::atoms::atom(a, p) + crate::mov::atoms::atom(b, q)).len() == p.len() + q.len()
            + 16,
{
    lemma_one(b, q);
    crate::mov::atoms::law_atom_found(a, p, crate::mov::atoms::atom(b, q));
    assert(seq![found(a, p)] + seq![found(b, q)] =~= seq![found(a, p), found(b, q)]);
}

#[verifier::spinoff_prover]
#[verifier::rlimit(60)]
proof fn lemma_triple(
    a: [u8; 4],
    p: Seq<u8>,
    b: [u8; 4],
    q: Seq<u8>,
    c: [u8; 4],
    r: Seq<u8>,
)
    requires
        (crate::mov::atoms::atom(a, p) + crate::mov::atoms::atom(b, q) + crate::mov::atoms::atom(
            c,
            r,
        )).len() <= u32::MAX,
    ensures
        crate::mov::atoms::atoms_of(
            crate::mov::atoms::atom(a, p) + crate::mov::atoms::atom(b, q)
                + crate::mov::atoms::atom(c, r),
        ) == seq![found(a, p), found(b, q), found(c, r)],
        r.len() + 8 <= (crate::mov::atoms::atom(a, p) + crate::mov::atoms::atom(b, q)
            + crate::mov::atoms::atom(c, r)).len(),
{
    let x = crate::mov::atoms::atom(a, p);
    let y = crate::mov::atoms::atom(b, q);
    let z = crate::mov::atoms::atom(c, r);
    assert(x + y + z =~= x + (y + z));
    lemma_two(b, q, c, r);
    crate::mov::atoms::law_atom_found(a, p, y + z);
    assert(seq![found(a, p)] + seq![found(b, q), found(c, r)] =~= seq![
        found(a, p),
        found(b, q),
        found(c, r),
    ]);
}

#[verifier::spinoff_prover]
#[verifier::rlimit(40)]
proof fn lemma_tables_found(config: VideoConfig, samples: Seq<SampleInfo>)
    requires
        crate::mov::writer::stbl_payload(config, samples).len() + 8 <= u32::MAX,
    ensures
        ({
            let all = crate::mov::atoms::atoms_of(
                crate::mov::writer::stbl_payload(config, samples),
            );
            &&& all.len() == 5
            &&& all.subrange(0, 4) == seq![
                found(
                    crate::mov::atoms::ATOM_STSD,
                    crate::mov::writer::stsd_payload(config),
                ),
                found(
                    crate::mov::atoms::ATOM_STTS,
                    crate::mov::writer::stts_payload(config, samples.len() as int),
                ),
                found(crate::mov::atoms::ATOM_STSC, crate::mov::writer::stsc_payload()),
                found(
                    crate::mov::atoms::ATOM_STSZ,
                    crate::mov::writer::stsz_payload(samples),
                ),
            ]
        }),
{
    reveal(crate::mov::writer::stbl_payload);
    let a = crate::mov::writer::stsd_payload(config);
    let b = crate::mov::writer::stts_payload(config, samples.len() as int);
    let c = crate::mov::writer::stsc_payload();
    let d = crate::mov::writer::stsz_payload(samples);
    let v = crate::mov::atoms::atom(crate::mov::atoms::ATOM_STSD, a);
    let w = crate::mov::atoms::atom(crate::mov::atoms::ATOM_STTS, b);
    let x = crate::mov::atoms::atom(crate::mov::atoms::ATOM_STSC, c);
    let y = crate::mov::atoms::atom(crate::mov::atoms::ATOM_STSZ, d);
    let z = crate::mov::writer::offset_atom(samples);
    lemma_offset_atom_found(samples);
    assert(v + w + x + y + z =~= v + (w + (x + (y + z))));
    crate::mov::atoms::law_atom_found(crate::mov::atoms::ATOM_STSZ, d, z);
    crate::mov::atoms::law_atom_found(crate::mov::atoms::ATOM_STSC, c, y + z);
    crate::mov::atoms::law_atom_found(crate::mov::atoms::ATOM_STTS, b, x + (y + z));
    crate::mov::atoms::law_atom_found(crate::mov::atoms::ATOM_STSD, a, w + (x + (y + z)));
    let all = crate::mov::atoms::atoms_of(v + w + x + y + z);
    assert(all.subrange(0, 4) =~= seq![
        found(crate::mov::atoms::ATOM_STSD, a),
        found(crate::mov::atoms::ATOM_STTS, b),
        found(crate::mov::atoms::ATOM_STSC, c),
        found(crate::mov::atoms::ATOM_STSZ, d),
    ]);
}

proof fn lemma_offset_atom_found(samples: Seq<SampleInfo>)
    requires
        crate::mov::writer::offset_atom(samples).len() <= u32::MAX,
    ensures
        crate::mov::atoms::atoms_of(crate::mov::writer::offset_atom(samples)).len() == 1,
{
    let head = crate::mov::writer::flags(0) + crate::bytes::be32_bytes(samples.len() as int);
    if crate::mov::writer::needs_long_offsets(samples) {
        lemma_one(
            crate::mov::atoms::ATOM_CO64,
            head + crate::mov::writer::long_offsets(samples),
        );
    } else {
        lemma_one(
            crate::mov::atoms::ATOM_STCO,
            head + crate::mov::writer::short_offsets(samples),
        );
    }
}

/// A sample table adds its samples after those of the track and leaves the dimensions.
pub proof fn law_tables_add_samples(tr: Track, payload: Seq<u8>, timescale: int)
    ensures
        ({
            let after = crate::mov::reader::with_sample_table(tr, payload, timescale);
            let n = tr.samples.len() as int;
            &&& after.width == tr.width && after.height == tr.height
            &&& after.samples.len() >= n
            &&& after.samples.subrange(0, n) == tr.samples
            &&& crate::mov::atoms::atoms_of(payload).len() == 0 ==> after == Track {
                samples: after.samples,
                ..tr
            } && after.samples.len() == n
        }),
{
    let after = crate::mov::reader::with_sample_table(tr, payload, timescale);
    assert(after.samples.subrange(0, tr.samples.len() as int) =~= tr.samples);
}

/// The atoms of a track count in their order: the media information is read with the time scale of
/// the media header before it, and what is neither is passed over.
pub proof fn law_media_read(tr: Track, atoms: Seq<Atom>, a: Atom)
    ensures
        ({
            let (before, scale) = crate::mov::reader::with_media(tr, atoms);
            let (after, next) = crate::mov::reader::with_media(tr, atoms.push(a));
            &&& a.tag == 0x6D64_6864 ==> after == before && next
                == crate::mov::reader::media_timescale(a.payload, scale)
            &&& a.tag == 0x6D69_6E66 ==> next == scale && after
                == crate::mov::reader::with_media_info(
                before,
                crate::mov::atoms::atoms_of(a.payload),
                scale,
            )
            &&& a.tag != 0x6D64_6864 && a.tag != 0x6D69_6E66 ==> after == before && next == scale
            &&& crate::mov::reader::with_media(tr, Seq::empty()) == (tr, 0int)
        }),
        ({
            let before = crate::mov::reader::track_of(atoms);
            let after = crate::mov::reader::track_of(atoms.push(a));
            &&& a.tag == 0x6D64_6961 ==> after == crate::mov::reader::with_media(
                before,
                crate::mov::atoms::atoms_of(a.payload),
            ).0
            &&& a.tag != 0x6D64_6961 && a.tag != 0x746B_6864 ==> after == before
        }),
        forall|scale: int|
            {
                let before = crate::mov::reader::with_media_info(tr, atoms, scale);
                let after = #[trigger] crate::mov::reader::with_media_info(
                    tr,
                    atoms.push(a),
                    scale,
                );
                &&& a.tag == 0x7374_626C ==> after == crate::mov::reader::with_sample_table(
                    before,
                    a.payload,
                    scale,
                )
                &&& a.tag != 0x7374_626C ==> after == before
            },
{
    lemma_tags();
    assert(atoms.push(a).drop_last() =~= atoms);
}

} // verus!
