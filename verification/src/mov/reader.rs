//! Reading of QuickTime movies.

use crate::bytes::{read_be32, read_be64};
use crate::format::HapFormat;
use crate::mov::atoms::{
    find_atoms, tag_of, Atom, ATOM_CO64, ATOM_MDHD, ATOM_MDIA, ATOM_MINF, ATOM_MOOV, ATOM_MVHD,
    ATOM_STBL, ATOM_STCO, ATOM_STSC, ATOM_STSD, ATOM_STSZ, ATOM_STTS, ATOM_TKHD, ATOM_TRAK,
};
use crate::single::Single;
use vstd::prelude::*;
use vstd::slice::{slice_subrange, slice_to_vec};

verus! {

/// Errors of reading a movie.
#[derive(Debug, PartialEq, Eq)]
pub enum MovReaderError {
    /// The file ends before the data that it announces.
    UnexpectedEof,
    /// The file is not a movie that can be played.
    InvalidFile(String),
    /// No track of the movie is a HAP video.
    NoHapTrackFound,
    /// The video is compressed by another codec.
    UnsupportedCodec(String),
    /// There is no such frame.
    FrameIndexOutOfBounds { index: usize, total: usize },
}

/// A reader error, with its text as characters.
pub enum MovReaderFault {
    UnexpectedEof,
    InvalidFile(Seq<char>),
    NoHapTrackFound,
    UnsupportedCodec(Seq<char>),
    FrameIndexOutOfBounds { index: int, total: int },
}

impl View for MovReaderError {
    type V = MovReaderFault;

    open spec fn view(&self) -> MovReaderFault {
        match *self {
            MovReaderError::UnexpectedEof => MovReaderFault::UnexpectedEof,
            MovReaderError::InvalidFile(m) => MovReaderFault::InvalidFile(m@),
            MovReaderError::NoHapTrackFound => MovReaderFault::NoHapTrackFound,
            MovReaderError::UnsupportedCodec(m) => MovReaderFault::UnsupportedCodec(m@),
            MovReaderError::FrameIndexOutOfBounds { index, total } => {
                MovReaderFault::FrameIndexOutOfBounds { index: index as int, total: total as int }
            },
        }
    }
}

/// Where a frame lies in the file.
#[derive(Debug, Clone, Copy, PartialEq, Eq)]
pub struct FrameSample {
    pub offset: u64,
    pub size: usize,
}

/// From which chunk on the chunks hold how many samples.
#[derive(Debug, Clone, Copy)]
pub struct ChunkRun {
    pub first_chunk: u32,
    pub samples_per_chunk: u32,
}

// ---------------------------------------------------------------------------------------------
// The sample table.
// ---------------------------------------------------------------------------------------------

/// The tables of a sample table atom.
pub struct SampleTables {
    pub format: Option<HapFormat>,
    pub fps: Single,
    pub sizes: Seq<usize>,
    pub offsets: Seq<u64>,
    pub runs: Seq<ChunkRun>,
}

/// The number of entries of `width` bytes that a table of `count` has room for from `start` on.
pub open spec fn entries(len: int, start: int, width: int, count: int) -> int {
    if count <= (len - start) / width {
        count
    } else {
        (len - start) / width
    }
}

/// The sizes in a table.
pub open spec fn size_entries(p: Seq<u8>) -> Seq<usize> {
    Seq::new(
        entries(p.len() as int, 12, 4, crate::bytes::be32(p, 8)) as nat,
        |i: int| crate::bytes::be32(p, 12 + 4 * i) as usize,
    )
}

/// The offsets in a table of four-byte offsets.
pub open spec fn short_entries(p: Seq<u8>) -> Seq<u64> {
    Seq::new(
        entries(p.len() as int, 8, 4, crate::bytes::be32(p, 4)) as nat,
        |i: int| crate::bytes::be32(p, 8 + 4 * i) as u64,
    )
}

/// The offsets in a table of eight-byte offsets.
pub open spec fn long_entries(p: Seq<u8>) -> Seq<u64> {
    Seq::new(
        entries(p.len() as int, 8, 8, crate::bytes::be32(p, 4)) as nat,
        |i: int| crate::bytes::be64(p, 8 + 8 * i) as u64,
    )
}

/// The runs in a chunk table.
pub open spec fn run_entries(p: Seq<u8>) -> Seq<ChunkRun> {
    Seq::new(
        entries(p.len() as int, 8, 12, crate::bytes::be32(p, 4)) as nat,
        |i: int|
            ChunkRun {
                first_chunk: crate::bytes::be32(p, 8 + 12 * i) as u32,
                samples_per_chunk: crate::bytes::be32(p, 12 + 12 * i) as u32,
            },
    )
}

/// The frame rate that a time table gives.
pub open spec fn table_rate(timescale: int, units: int) -> Single {
    crate::single::quotient(
        crate::single::whole_number(timescale),
        crate::single::whole_number(units),
    )
}

/// What one more atom adds to the tables.
pub open spec fn with_table(t: SampleTables, a: Atom, timescale: int) -> SampleTables {
    let p = a.payload;
    if a.tag == crate::mov::atoms::tag(ATOM_STSD) {
        if p.len() >= 16 && crate::bytes::be32(p, 4) >= 1 && HapFormat::of_code(
            p.subrange(12, 16),
        ) is Some {
            SampleTables { format: HapFormat::of_code(p.subrange(12, 16)), ..t }
        } else {
            t
        }
    } else if a.tag == crate::mov::atoms::tag(ATOM_STTS) {
        if p.len() >= 16 && crate::bytes::be32(p, 4) >= 1 && crate::bytes::be32(p, 12) > 0
            && timescale > 0 {
            SampleTables { fps: table_rate(timescale, crate::bytes::be32(p, 12)), ..t }
        } else {
            t
        }
    } else if a.tag == crate::mov::atoms::tag(ATOM_STSC) {
        if p.len() >= 8 {
            SampleTables { runs: t.runs + run_entries(p), ..t }
        } else {
            t
        }
    } else if a.tag == crate::mov::atoms::tag(ATOM_STSZ) {
        if p.len() >= 12 {
            if crate::bytes::be32(p, 4) != 0 {
                SampleTables {
                    sizes: Seq::new(
                        crate::bytes::be32(p, 8) as nat,
                        |i: int| crate::bytes::be32(p, 4) as usize,
                    ),
                    ..t
                }
            } else {
                SampleTables { sizes: t.sizes + size_entries(p), ..t }
            }
        } else {
            t
        }
    } else if a.tag == crate::mov::atoms::tag(ATOM_STCO) {
        if p.len() >= 8 {
            SampleTables { offsets: t.offsets + short_entries(p), ..t }
        } else {
            t
        }
    } else if a.tag == crate::mov::atoms::tag(ATOM_CO64) {
        if p.len() >= 8 {
            SampleTables { offsets: t.offsets + long_entries(p), ..t }
        } else {
            t
        }
    } else {
        t
    }
}

/// The tables in a list of atoms, added to those found before.
pub open spec fn tables_of(atoms: Seq<Atom>, t: SampleTables, timescale: int) -> SampleTables
    decreases atoms.len(),
{
    if atoms.len() == 0 {
        t
    } else {
        with_table(tables_of(atoms.drop_last(), t, timescale), atoms.last(), timescale)
    }
}

/// The samples in the chunk of the given number: as the last run says that begins no later.
pub open spec fn samples_in(runs: Seq<ChunkRun>, chunk: int) -> int
    decreases runs.len(),
{
    if runs.len() == 0 {
        1
    } else if chunk >= runs.last().first_chunk {
        runs.last().samples_per_chunk as int
    } else {
        samples_in(runs.drop_last(), chunk)
    }
}

/// At most `n` samples from number `at` on, one after the other from an offset on.
pub open spec fn adjacent(offset: int, sizes: Seq<usize>, at: int, n: int) -> Seq<FrameSample>
    decreases n,
{
    if n <= 0 || at >= sizes.len() {
        Seq::empty()
    } else {
        seq![
            FrameSample { offset: (offset % 0x1_0000_0000_0000_0000) as u64, size: sizes[at] },
        ] + adjacent(offset + sizes[at], sizes, at + 1, n - 1)
    }
}

/// The samples of the chunks from number `c` on, where the first has the number `at`.
pub open spec fn chunk_samples(t: SampleTables, c: int, at: int) -> Seq<FrameSample>
    decreases t.offsets.len() - c,
{
    if c < 0 || c >= t.offsets.len() {
        Seq::empty()
    } else {
        let here = adjacent(
            t.offsets[c] as int,
            t.sizes,
            at,
            samples_in(t.runs, (c + 1) % 0x1_0000_0000),
        );
        here + chunk_samples(t, c + 1, at + here.len())
    }
}

/// Each chunk holds one sample.
pub open spec fn one_by_one(runs: Seq<ChunkRun>) -> bool {
    runs.len() == 0 || (runs.len() == 1 && runs[0].samples_per_chunk == 1)
}

/// The samples that the tables describe.
pub open spec fn samples_of(t: SampleTables) -> Seq<FrameSample> {
    if one_by_one(t.runs) {
        Seq::new(
            if t.sizes.len() <= t.offsets.len() {
                t.sizes.len()
            } else {
                t.offsets.len()
            },
            |i: int| FrameSample { offset: t.offsets[i], size: t.sizes[i] },
        )
    } else {
        chunk_samples(t, 0, 0)
    }
}

// ---------------------------------------------------------------------------------------------
// Tracks and movies.
// ---------------------------------------------------------------------------------------------

/// What is known of a track.
pub struct Track {
    pub width: int,
    pub height: int,
    pub format: Option<HapFormat>,
    pub fps: Single,
    pub samples: Seq<FrameSample>,
}

/// A track of which nothing is known.
pub open spec fn blank_track() -> Track {
    Track {
        width: 0,
        height: 0,
        format: None,
        fps: crate::single::whole_number(0),
        samples: Seq::empty(),
    }
}

/// What a sample table adds to a track.
pub open spec fn with_sample_table(tr: Track, payload: Seq<u8>, timescale: int) -> Track {
    let t = tables_of(
        crate::mov::atoms::atoms_of(payload),
        SampleTables {
            format: tr.format,
            fps: tr.fps,
            sizes: Seq::empty(),
            offsets: Seq::empty(),
            runs: Seq::empty(),
        },
        timescale,
    );
    Track { format: t.format, fps: t.fps, samples: tr.samples + samples_of(t), ..tr }
}

/// What the media information adds to a track.
pub open spec fn with_media_info(tr: Track, atoms: Seq<Atom>, timescale: int) -> Track
    decreases atoms.len(),
{
    if atoms.len() == 0 {
        tr
    } else {
        let before = with_media_info(tr, atoms.drop_last(), timescale);
        if atoms.last().tag == crate::mov::atoms::tag(ATOM_STBL) {
            with_sample_table(before, atoms.last().payload, timescale)
        } else {
            before
        }
    }
}

/// The time scale in a media header, if it has one.
pub open spec fn media_timescale(p: Seq<u8>, before: int) -> int {
    if p.len() < 20 {
        before
    } else if p[0] == 0 {
        crate::bytes::be32(p, 12)
    } else if p.len() >= 28 {
        crate::bytes::be32(p, 20)
    } else {
        before
    }
}

/// What the media adds to a track, with the time scale found last.
pub open spec fn with_media(tr: Track, atoms: Seq<Atom>) -> (Track, int)
    decreases atoms.len(),
{
    if atoms.len() == 0 {
        (tr, 0)
    } else {
        let (before, timescale) = with_media(tr, atoms.drop_last());
        let a = atoms.last();
        if a.tag == crate::mov::atoms::tag(ATOM_MDHD) {
            (before, media_timescale(a.payload, timescale))
        } else if a.tag == crate::mov::atoms::tag(ATOM_MINF) {
            (
                with_media_info(before, crate::mov::atoms::atoms_of(a.payload), timescale),
                timescale,
            )
        } else {
            (before, timescale)
        }
    }
}

/// The track that atoms describe. The dimensions are 16.16 fixed-point numbers in the last eight
/// bytes of the track header.
pub open spec fn track_of(atoms: Seq<Atom>) -> Track
    decreases atoms.len(),
{
    if atoms.len() == 0 {
        blank_track()
    } else {
        let before = track_of(atoms.drop_last());
        let a = atoms.last();
        let p = a.payload;
        if a.tag == crate::mov::atoms::tag(ATOM_TKHD) {
            if p.len() >= 80 {
                Track {
                    width: crate::bytes::be32(p, p.len() - 8) / 0x1_0000,
                    height: crate::bytes::be32(p, p.len() - 4) / 0x1_0000,
                    ..before
                }
            } else {
                before
            }
        } else if a.tag == crate::mov::atoms::tag(ATOM_MDIA) {
            with_media(before, crate::mov::atoms::atoms_of(p)).0
        } else {
            before
        }
    }
}

/// What is known of a movie: its time scale and duration, and its first HAP track.
pub struct Movie {
    pub timescale: int,
    pub duration: int,
    pub track: Option<Track>,
}

/// The movie that atoms describe, up to the first HAP track.
pub open spec fn movie_of(atoms: Seq<Atom>, timescale: int, duration: int) -> Movie
    decreases atoms.len(),
{
    if atoms.len() == 0 {
        Movie { timescale, duration, track: None }
    } else {
        let a = atoms[0];
        let p = a.payload;
        let rest = atoms.subrange(1, atoms.len() as int);
        if a.tag == crate::mov::atoms::tag(ATOM_MVHD) {
            if p.len() >= 20 && p[0] == 0 {
                movie_of(rest, crate::bytes::be32(p, 12), crate::bytes::be32(p, 16))
            } else if p.len() >= 32 && p[0] == 1 {
                movie_of(rest, crate::bytes::be32(p, 20), crate::bytes::be64(p, 24))
            } else {
                movie_of(rest, timescale, duration)
            }
        } else if a.tag == crate::mov::atoms::tag(ATOM_TRAK) && track_of(
            crate::mov::atoms::atoms_of(p),
        ).format is Some {
            Movie { timescale, duration, track: Some(track_of(crate::mov::atoms::atoms_of(p))) }
        } else {
            movie_of(rest, timescale, duration)
        }
    }
}

/// What a reader knows of a movie.
pub struct Reading {
    pub width: int,
    pub height: int,
    pub fps: Single,
    pub timescale: int,
    pub duration_units: int,
    pub format: HapFormat,
    pub samples: Seq<FrameSample>,
}

/// The reading of a movie description.
pub open spec fn reading_of(moov: Seq<u8>) -> Result<Reading, MovReaderFault> {
    let m = movie_of(crate::mov::atoms::atoms_of(moov), 0, 0);
    match m.track {
        None => Err(MovReaderFault::NoHapTrackFound),
        Some(tr) => if tr.samples.len() == 0 {
            Err(MovReaderFault::InvalidFile("No video samples found"@))
        } else {
            Ok(
                Reading {
                    width: tr.width,
                    height: tr.height,
                    fps: tr.fps,
                    timescale: m.timescale,
                    duration_units: m.duration,
                    format: tr.format->0,
                    samples: tr.samples,
                },
            )
        },
    }
}

// ---------------------------------------------------------------------------------------------
// The file.
// ---------------------------------------------------------------------------------------------

/// The header of an atom of a file.
pub struct AtomHead {
    pub tag: int,
    pub size: int,
    pub header_len: int,
}

/// The header in the first bytes of an atom, where `remaining` bytes of the file are left: a size
/// field of 1 announces eight bytes of size after the name, one of 0 means all that is left.
pub open spec fn head_of(head: Seq<u8>, remaining: int) -> Option<AtomHead> {
    if remaining < 8 {
        None
    } else if crate::bytes::be32(head, 0) == 1 {
        if remaining < 16 {
            None
        } else {
            Some(
                AtomHead {
                    tag: crate::bytes::be32(head, 4),
                    size: crate::bytes::be64(head, 8),
                    header_len: 16,
                },
            )
        }
    } else {
        Some(
            AtomHead {
                tag: crate::bytes::be32(head, 4),
                size: if crate::bytes::be32(head, 0) == 0 {
                    remaining
                } else {
                    crate::bytes::be32(head, 0)
                },
                header_len: 8,
            },
        )
    }
}

/// What to do next in the search for the movie description.
#[derive(Debug, Clone, Copy, PartialEq, Eq)]
pub enum ScanStep {
    /// The description lies here.
    Moov { start: u64, len: u64 },
    /// Go on at this place.
    Next(u64),
    /// There is none.
    Stop,
}

/// The step that an atom at `pos` leads to.
pub open spec fn step_of(head: Seq<u8>, pos: int, file_len: int) -> ScanStep {
    match head_of(head, file_len - pos) {
        None => ScanStep::Stop,
        Some(h) => if h.tag == crate::mov::atoms::tag(ATOM_MOOV) {
            if h.size < h.header_len {
                ScanStep::Stop
            } else {
                ScanStep::Moov {
                    start: (pos + h.header_len) as u64,
                    len: (h.size - h.header_len) as u64,
                }
            }
        } else if h.size == 0 || pos + h.size > u64::MAX {
            ScanStep::Stop
        } else {
            ScanStep::Next((pos + h.size) as u64)
        },
    }
}

/// Where the movie description lies, from `pos` on: its start and its length.
pub open spec fn moov_place(file: Seq<u8>, pos: int) -> Option<(int, int)>
    decreases file.len() - pos,
{
    if pos < 0 || pos >= file.len() {
        None
    } else {
        match step_of(file.subrange(pos, file.len() as int), pos, file.len() as int) {
            ScanStep::Stop => None,
            ScanStep::Moov { start, len } => Some((start as int, len as int)),
            ScanStep::Next(next) => if next <= pos || next >= file.len() {
                None
            } else {
                moov_place(file, next as int)
            },
        }
    }
}

/// The reading of a movie file.
pub open spec fn file_reading(file: Seq<u8>) -> Result<Reading, MovReaderFault> {
    match moov_place(file, 0) {
        None => Err(MovReaderFault::NoHapTrackFound),
        Some((start, len)) => if start + len > file.len() {
            Err(MovReaderFault::UnexpectedEof)
        } else {
            reading_of(file.subrange(start, start + len))
        },
    }
}

/// The place of a frame.
pub open spec fn sample_place(r: Reading, index: int) -> Result<FrameSample, MovReaderFault> {
    if index >= r.samples.len() {
        Err(MovReaderFault::FrameIndexOutOfBounds { index, total: r.samples.len() as int })
    } else {
        Ok(r.samples[index])
    }
}

/// The packet of a frame.
pub open spec fn packet_of(r: Reading, file: Seq<u8>, index: int) -> Result<
    Seq<u8>,
    MovReaderFault,
> {
    match sample_place(r, index) {
        Err(e) => Err(e),
        Ok(s) => if s.size == 0 {
            Ok(Seq::empty())
        } else if s.offset + s.size > file.len() {
            Err(MovReaderFault::UnexpectedEof)
        } else {
            Ok(file.subrange(s.offset as int, s.offset + s.size))
        },
    }
}

// ---------------------------------------------------------------------------------------------
// Reading the sample table.
// ---------------------------------------------------------------------------------------------

/// The tables of a sample table atom as they are read.
struct Tables {
    format: Option<HapFormat>,
    fps: Single,
    sizes: Vec<usize>,
    offsets: Vec<u64>,
    runs: Vec<ChunkRun>,
}

impl View for Tables {
    type V = SampleTables;

    closed spec fn view(&self) -> SampleTables {
        SampleTables {
            format: self.format,
            fps: self.fps,
            sizes: self.sizes@,
            offsets: self.offsets@,
            runs: self.runs@,
        }
    }
}

/// The number of entries that a table has room for.
fn entry_count(len: usize, start: usize, width: usize, count: u32) -> (n: usize)
    requires
        start <= len,
        width > 0,
    ensures
        n == entries(len as int, start as int, width as int, count as int),
        start + width * n <= len,
{
    let room: usize = (len - start) / width;
    let n: usize = if count as u64 <= room as u64 { count as usize } else { room };
    assert(width * n <= len - start) by (nonlinear_arith)
        requires
            n <= room,
            room == (len - start) / width as int,
            width > 0,
            len - start >= 0,
    ;
    n
}

/// Appends the sizes in a table.
fn read_sizes(p: &[u8], out: &mut Vec<usize>)
    requires
        p@.len() >= 12,
    ensures
        final(out)@ == old(out)@ + size_entries(p@),
{
    assert(p@.len() == p.len());
    let n: usize = entry_count(p.len(), 12, 4, read_be32(p, 8));
    let mut i: usize = 0;
    assert(out@ =~= old(out)@ + size_entries(p@).subrange(0, 0));
    while i < n
        invariant
            i <= n,
            n == size_entries(p@).len(),
            12 + 4 * n <= p@.len() <= usize::MAX,
            out@ == old(out)@ + size_entries(p@).subrange(0, i as int),
        decreases n - i,
    {
        out.push(read_be32(p, 12 + 4 * i) as usize);
        i = i + 1;
        assert(size_entries(p@).subrange(0, i as int) =~= size_entries(p@).subrange(0, i - 1).push(
            size_entries(p@)[i - 1],
        ));
    }
    assert(size_entries(p@).subrange(0, i as int) =~= size_entries(p@));
}

/// Appends the offsets in a table of four-byte offsets.
fn read_short_offsets(p: &[u8], out: &mut Vec<u64>)
    requires
        p@.len() >= 8,
    ensures
        final(out)@ == old(out)@ + short_entries(p@),
{
    assert(p@.len() == p.len());
    let n: usize = entry_count(p.len(), 8, 4, read_be32(p, 4));
    let mut i: usize = 0;
    assert(out@ =~= old(out)@ + short_entries(p@).subrange(0, 0));
    while i < n
        invariant
            i <= n,
            n == short_entries(p@).len(),
            8 + 4 * n <= p@.len() <= usize::MAX,
            out@ == old(out)@ + short_entries(p@).subrange(0, i as int),
        decreases n - i,
    {
        out.push(read_be32(p, 8 + 4 * i) as u64);
        i = i + 1;
        assert(short_entries(p@).subrange(0, i as int) =~= short_entries(p@).subrange(
            0,
            i - 1,
        ).push(short_entries(p@)[i - 1]));
    }
    assert(short_entries(p@).subrange(0, i as int) =~= short_entries(p@));
}

/// Appends the offsets in a table of eight-byte offsets.
fn read_long_offsets(p: &[u8], out: &mut Vec<u64>)
    requires
        p@.len() >= 8,
    ensures
        final(out)@ == old(out)@ + long_entries(p@),
{
    assert(p@.len() == p.len());
    let n: usize = entry_count(p.len(), 8, 8, read_be32(p, 4));
    let mut i: usize = 0;
    assert(out@ =~= old(out)@ + long_entries(p@).subrange(0, 0));
    while i < n
        invariant
            i <= n,
            n == long_entries(p@).len(),
            8 + 8 * n <= p@.len() <= usize::MAX,
            out@ == old(out)@ + long_entries(p@).subrange(0, i as int),
        decreases n - i,
    {
        out.push(read_be64(p, 8 + 8 * i));
        i = i + 1;
        assert(long_entries(p@).subrange(0, i as int) =~= long_entries(p@).subrange(0, i - 1).push(
            long_entries(p@)[i - 1],
        ));
    }
    assert(long_entries(p@).subrange(0, i as int) =~= long_entries(p@));
}

/// Appends the runs in a chunk table.
fn read_runs(p: &[u8], out: &mut Vec<ChunkRun>)
    requires
        p@.len() >= 8,
    ensures
        final(out)@ == old(out)@ + run_entries(p@),
{
    assert(p@.len() == p.len());
    let n: usize = entry_count(p.len(), 8, 12, read_be32(p, 4));
    let mut i: usize = 0;
    assert(out@ =~= old(out)@ + run_entries(p@).subrange(0, 0));
    while i < n
        invariant
            i <= n,
            n == run_entries(p@).len(),
            8 + 12 * n <= p@.len() <= usize::MAX,
            out@ == old(out)@ + run_entries(p@).subrange(0, i as int),
        decreases n - i,
    {
        out.push(
            ChunkRun {
                first_chunk: read_be32(p, 8 + 12 * i),
                samples_per_chunk: read_be32(p, 12 + 12 * i),
            },
        );
        i = i + 1;
        assert(run_entries(p@).subrange(0, i as int) =~= run_entries(p@).subrange(0, i - 1).push(
            run_entries(p@)[i - 1],
        ));
    }
    assert(run_entries(p@).subrange(0, i as int) =~= run_entries(p@));
}

/// The format that a sample description names.
fn read_format(p: &[u8]) -> (r: Option<HapFormat>)
    requires
        p@.len() >= 16,
    ensures
        r == HapFormat::of_code(p@.subrange(12, 16)),
{
    let code: [u8; 4] = [p[12], p[13], p[14], p[15]];
    assert(code@ =~= p@.subrange(12, 16));
    HapFormat::from_fourcc(&code)
}

/// Adds what one more atom holds to the tables.
fn add_table(t: &mut Tables, tag: u32, p: &[u8], timescale: u32)
    requires
        old(t).fps.wf(),
    ensures
        final(t).fps.wf(),
        final(t)@ == with_table(old(t)@, Atom { tag: tag as int, payload: p@ }, timescale as int),
{
    if tag == tag_of(ATOM_STSD) {
        if p.len() >= 16 && read_be32(p, 4) >= 1 {
            let format = read_format(p);
            if format.is_some() {
                t.format = format;
            }
        }
    } else if tag == tag_of(ATOM_STTS) {
        if p.len() >= 16 && read_be32(p, 4) >= 1 {
            let units: u32 = read_be32(p, 12);
            if units > 0 && timescale > 0 {
                t.fps = Single::from_u32(timescale).over(Single::from_u32(units));
            }
        }
    } else if tag == tag_of(ATOM_STSC) {
        if p.len() >= 8 {
            read_runs(p, &mut t.runs);
        }
    } else if tag == tag_of(ATOM_STSZ) {
        if p.len() >= 12 {
            let uniform: u32 = read_be32(p, 4);
            if uniform != 0 {
                let sizes: Vec<usize> = vec![uniform as usize; read_be32(p, 8) as usize];
                assert(sizes@ =~= Seq::new(
                    crate::bytes::be32(p@, 8) as nat,
                    |i: int| crate::bytes::be32(p@, 4) as usize,
                ));
                t.sizes = sizes;
            } else {
                read_sizes(p, &mut t.sizes);
            }
        }
    } else if tag == tag_of(ATOM_STCO) {
        if p.len() >= 8 {
            read_short_offsets(p, &mut t.offsets);
        }
    } else if tag == tag_of(ATOM_CO64) {
        if p.len() >= 8 {
            read_long_offsets(p, &mut t.offsets);
        }
    }
}

/// The samples in the chunk of the given number.
fn chunk_size(runs: &Vec<ChunkRun>, chunk: u32) -> (n: u32)
    ensures
        n == samples_in(runs@, chunk as int),
{
    let mut n: u32 = 1;
    let mut i: usize = 0;
    while i < runs.len()
        invariant
            i <= runs@.len(),
            n == samples_in(runs@.subrange(0, i as int), chunk as int),
        decreases runs@.len() - i,
    {
        if chunk >= runs[i].first_chunk {
            n = runs[i].samples_per_chunk;
        }
        i = i + 1;
        assert(runs@.subrange(0, i as int).drop_last() =~= runs@.subrange(0, i - 1));
    }
    assert(runs@.subrange(0, i as int) =~= runs@);
    n
}

/// Appends at most `n` samples from number `at` on, one after the other from an offset on. Gives
/// the number of the sample after them.
fn push_adjacent(
    samples: &mut Vec<FrameSample>,
    offset: u64,
    sizes: &Vec<usize>,
    at: usize,
    n: u32,
) -> (next: usize)
    requires
        at <= sizes@.len(),
    ensures
        final(samples)@ == old(samples)@ + adjacent(offset as int, sizes@, at as int, n as int),
        next == at + adjacent(offset as int, sizes@, at as int, n as int).len(),
        next <= sizes@.len(),
{
    let ghost want = adjacent(offset as int, sizes@, at as int, n as int);
    let mut current: u64 = offset;
    let ghost mut exact: int = offset as int;
    let mut next: usize = at;
    let mut left: u32 = n;
    assert(samples@ + want =~= old(samples)@ + want);
    while left > 0 && next < sizes.len()
        invariant
            at <= next <= sizes@.len(),
            current == exact % 0x1_0000_0000_0000_0000,
            samples@ + adjacent(exact, sizes@, next as int, left as int) == old(samples)@ + want,
            next + adjacent(exact, sizes@, next as int, left as int).len() == at + want.len(),
        decreases left,
    {
        let ghost before = samples@;
        let ghost rest = adjacent(exact + sizes@[next as int], sizes@, next + 1, left - 1);
        let s = FrameSample { offset: current, size: sizes[next] };
        samples.push(s);
        assert(before + (seq![s] + rest) =~= samples@ + rest);
        current = current.wrapping_add(sizes[next] as u64);
        proof {
            exact = exact + sizes@[next as int];
        }
        next = next + 1;
        left = left - 1;
    }
    assert(samples@ + Seq::<FrameSample>::empty() =~= samples@);
    next
}

/// Appends the samples that the tables describe.
fn push_samples(t: &Tables, samples: &mut Vec<FrameSample>)
    ensures
        final(samples)@ == old(samples)@ + samples_of(t@),
{
    let ghost want = samples_of(t@);
    let simple: bool = t.runs.len() == 0 || (t.runs.len() == 1 && t.runs[0].samples_per_chunk == 1);
    if simple {
        let mut i: usize = 0;
        assert(samples@ =~= old(samples)@ + want.subrange(0, 0));
        while i < t.sizes.len() && i < t.offsets.len()
            invariant
                want == samples_of(t@),
                one_by_one(t@.runs),
                i <= want.len(),
                samples@ == old(samples)@ + want.subrange(0, i as int),
            decreases t@.sizes.len() - i,
        {
            samples.push(FrameSample { offset: t.offsets[i], size: t.sizes[i] });
            i = i + 1;
            assert(want.subrange(0, i as int) =~= want.subrange(0, i - 1).push(want[i - 1]));
        }
        assert(want.subrange(0, i as int) =~= want);
    } else {
        let mut at: usize = 0;
        let mut c: usize = 0;
        while c < t.offsets.len()
            invariant
                want == chunk_samples(t@, 0, 0),
                c <= t@.offsets.len(),
                at <= t@.sizes.len(),
                samples@ + chunk_samples(t@, c as int, at as int) == old(samples)@ + want,
            decreases t@.offsets.len() - c,
        {
            let ghost before = samples@;
            let chunk: u32 = ((c as u64 % 0x1_0000_0000 + 1) % 0x1_0000_0000) as u32;
            assert(chunk == (c + 1) % 0x1_0000_0000);
            let n: u32 = chunk_size(&t.runs, chunk);
            let ghost here = adjacent(t@.offsets[c as int] as int, t@.sizes, at as int, n as int);
            let ghost rest = chunk_samples(t@, c + 1, at + here.len());
            at = push_adjacent(samples, t.offsets[c], &t.sizes, at, n);
            assert(before + (here + rest) =~= samples@ + rest);
            c = c + 1;
        }
        assert(samples@ + Seq::<FrameSample>::empty() =~= samples@);
    }
}

// ---------------------------------------------------------------------------------------------
// Reading tracks and movies.
// ---------------------------------------------------------------------------------------------

/// A track as it is read.
struct TrackState {
    width: u32,
    height: u32,
    format: Option<HapFormat>,
    fps: Single,
    samples: Vec<FrameSample>,
}

impl View for TrackState {
    type V = Track;

    closed spec fn view(&self) -> Track {
        Track {
            width: self.width as int,
            height: self.height as int,
            format: self.format,
            fps: self.fps,
            samples: self.samples@,
        }
    }
}

/// Reads a sample table.
fn parse_stbl(buf: &[u8], timescale: u32, tr: &mut TrackState)
    requires
        old(tr).fps.wf(),
    ensures
        final(tr).fps.wf(),
        final(tr)@ == with_sample_table(old(tr)@, buf@, timescale as int),
{
    let mut t = Tables {
        format: tr.format,
        fps: tr.fps,
        sizes: Vec::new(),
        offsets: Vec::new(),
        runs: Vec::new(),
    };
    let ghost blank = SampleTables {
        format: tr.format,
        fps: tr.fps,
        sizes: Seq::empty(),
        offsets: Seq::empty(),
        runs: Seq::empty(),
    };
    let spans = find_atoms(buf);
    let ghost atoms = crate::mov::atoms::atoms_of(buf@);
    let mut i: usize = 0;
    assert(t@ == blank);
    while i < spans.len()
        invariant
            i <= spans@.len(),
            atoms == crate::mov::atoms::atoms_of(buf@),
            spans@.len() == atoms.len(),
            forall|j: int|
                0 <= j < spans@.len() ==> crate::mov::atoms::spans(
                    #[trigger] spans@[j],
                    buf@,
                    atoms[j],
                ),
            t.fps.wf(),
            t@ == tables_of(atoms.subrange(0, i as int), blank, timescale as int),
        decreases spans@.len() - i,
    {
        let s = spans[i];
        assert(crate::mov::atoms::spans(spans@[i as int], buf@, atoms[i as int]));
        add_table(&mut t, s.tag, slice_subrange(buf, s.start, s.end), timescale);
        i = i + 1;
        assert(atoms.subrange(0, i as int).drop_last() =~= atoms.subrange(0, i - 1));
    }
    assert(atoms.subrange(0, i as int) =~= atoms);
    tr.format = t.format;
    tr.fps = t.fps;
    push_samples(&t, &mut tr.samples);
}

/// Reads the media information.
fn parse_minf(buf: &[u8], timescale: u32, tr: &mut TrackState)
    requires
        old(tr).fps.wf(),
    ensures
        final(tr).fps.wf(),
        final(tr)@ == with_media_info(
            old(tr)@,
            crate::mov::atoms::atoms_of(buf@),
            timescale as int,
        ),
{
    let spans = find_atoms(buf);
    let ghost atoms = crate::mov::atoms::atoms_of(buf@);
    let mut i: usize = 0;
    while i < spans.len()
        invariant
            i <= spans@.len(),
            atoms == crate::mov::atoms::atoms_of(buf@),
            spans@.len() == atoms.len(),
            forall|j: int|
                0 <= j < spans@.len() ==> crate::mov::atoms::spans(
                    #[trigger] spans@[j],
                    buf@,
                    atoms[j],
                ),
            tr.fps.wf(),
            tr@ == with_media_info(old(tr)@, atoms.subrange(0, i as int), timescale as int),
        decreases spans@.len() - i,
    {
        let s = spans[i];
        assert(crate::mov::atoms::spans(spans@[i as int], buf@, atoms[i as int]));
        if s.tag == tag_of(ATOM_STBL) {
            parse_stbl(slice_subrange(buf, s.start, s.end), timescale, tr);
        }
        i = i + 1;
        assert(atoms.subrange(0, i as int).drop_last() =~= atoms.subrange(0, i - 1));
    }
    assert(atoms.subrange(0, i as int) =~= atoms);
}

/// The time scale in a media header.
fn read_media_timescale(p: &[u8], before: u32) -> (r: u32)
    ensures
        r == media_timescale(p@, before as int),
{
    if p.len() < 20 {
        before
    } else if p[0] == 0 {
        read_be32(p, 12)
    } else if p.len() >= 28 {
        read_be32(p, 20)
    } else {
        before
    }
}

/// Reads the media.
fn parse_mdia(buf: &[u8], tr: &mut TrackState)
    requires
        old(tr).fps.wf(),
    ensures
        final(tr).fps.wf(),
        final(tr)@ == with_media(old(tr)@, crate::mov::atoms::atoms_of(buf@)).0,
{
    let spans = find_atoms(buf);
    let ghost atoms = crate::mov::atoms::atoms_of(buf@);
    let mut timescale: u32 = 0;
    let mut i: usize = 0;
    while i < spans.len()
        invariant
            i <= spans@.len(),
            atoms == crate::mov::atoms::atoms_of(buf@),
            spans@.len() == atoms.len(),
            forall|j: int|
                0 <= j < spans@.len() ==> crate::mov::atoms::spans(
                    #[trigger] spans@[j],
                    buf@,
                    atoms[j],
                ),
            tr.fps.wf(),
            (tr@, timescale as int) == with_media(old(tr)@, atoms.subrange(0, i as int)),
        decreases spans@.len() - i,
    {
        let s = spans[i];
        assert(crate::mov::atoms::spans(spans@[i as int], buf@, atoms[i as int]));
        assert(atoms.subrange(0, i + 1).drop_last() =~= atoms.subrange(0, i as int));
        let payload = slice_subrange(buf, s.start, s.end);
        if s.tag == tag_of(ATOM_MDHD) {
            timescale = read_media_timescale(payload, timescale);
        } else if s.tag == tag_of(ATOM_MINF) {
            parse_minf(payload, timescale, tr);
        }
        i = i + 1;
    }
    assert(atoms.subrange(0, i as int) =~= atoms);
}

/// Reads a track.
fn parse_trak(buf: &[u8]) -> (tr: TrackState)
    ensures
        tr.fps.wf(),
        tr@ == track_of(crate::mov::atoms::atoms_of(buf@)),
{
    let mut tr = TrackState {
        width: 0,
        height: 0,
        format: None,
        fps: Single::from_u32(0),
        samples: Vec::new(),
    };
    let spans = find_atoms(buf);
    let ghost atoms = crate::mov::atoms::atoms_of(buf@);
    let mut i: usize = 0;
    assert(tr@.samples =~= Seq::empty());
    assert(tr@ == blank_track());
    while i < spans.len()
        invariant
            i <= spans@.len(),
            atoms == crate::mov::atoms::atoms_of(buf@),
            spans@.len() == atoms.len(),
            forall|j: int|
                0 <= j < spans@.len() ==> crate::mov::atoms::spans(
                    #[trigger] spans@[j],
                    buf@,
                    atoms[j],
                ),
            tr.fps.wf(),
            tr@ == track_of(atoms.subrange(0, i as int)),
        decreases spans@.len() - i,
    {
        let s = spans[i];
        assert(crate::mov::atoms::spans(spans@[i as int], buf@, atoms[i as int]));
        assert(atoms.subrange(0, i + 1).drop_last() =~= atoms.subrange(0, i as int));
        let payload = slice_subrange(buf, s.start, s.end);
        if s.tag == tag_of(ATOM_TKHD) {
            let n: usize = payload.len();
            if n >= 80 {
                tr.width = read_be32(payload, n - 8) / 0x1_0000;
                tr.height = read_be32(payload, n - 4) / 0x1_0000;
            }
        } else if s.tag == tag_of(ATOM_MDIA) {
            parse_mdia(payload, &mut tr);
        }
        i = i + 1;
    }
    assert(atoms.subrange(0, i as int) =~= atoms);
    tr
}

/// A movie as it is read.
struct MovieState {
    timescale: u32,
    duration: u64,
    track: Option<TrackState>,
}

/// Reads a movie description up to the first HAP track.
fn parse_moov(buf: &[u8]) -> (m: MovieState)
    ensures
        m.track matches Some(tr) ==> tr.fps.wf() && tr.format is Some,
        ({
            let want = movie_of(crate::mov::atoms::atoms_of(buf@), 0, 0);
            &&& m.timescale == want.timescale
            &&& m.duration == want.duration
            &&& match m.track {
                Some(tr) => want.track == Some(tr@),
                None => want.track is None,
            }
        }),
{
    let spans = find_atoms(buf);
    let ghost atoms = crate::mov::atoms::atoms_of(buf@);
    let ghost want = movie_of(atoms, 0, 0);
    let mut timescale: u32 = 0;
    let mut duration: u64 = 0;
    let mut i: usize = 0;
    assert(atoms.subrange(0, atoms.len() as int) =~= atoms);
    while i < spans.len()
        invariant
            i <= spans@.len(),
            atoms == crate::mov::atoms::atoms_of(buf@),
            spans@.len() == atoms.len(),
            forall|j: int|
                0 <= j < spans@.len() ==> crate::mov::atoms::spans(
                    #[trigger] spans@[j],
                    buf@,
                    atoms[j],
                ),
            want == movie_of(atoms, 0, 0),
            want == movie_of(
                atoms.subrange(i as int, atoms.len() as int),
                timescale as int,
                duration as int,
            ),
        decreases spans@.len() - i,
    {
        let s = spans[i];
        assert(crate::mov::atoms::spans(spans@[i as int], buf@, atoms[i as int]));
        let ghost rest = atoms.subrange(i as int, atoms.len() as int);
        assert(rest.subrange(1, rest.len() as int) =~= atoms.subrange(
            i + 1,
            atoms.len() as int,
        ));
        let payload = slice_subrange(buf, s.start, s.end);
        if s.tag == tag_of(ATOM_MVHD) {
            if payload.len() >= 20 && payload[0] == 0 {
                timescale = read_be32(payload, 12);
                duration = read_be32(payload, 16) as u64;
            } else if payload.len() >= 32 && payload[0] == 1 {
                timescale = read_be32(payload, 20);
                duration = read_be64(payload, 24);
            }
        } else if s.tag == tag_of(ATOM_TRAK) {
            let tr = parse_trak(payload);
            if tr.format.is_some() {
                return MovieState { timescale, duration, track: Some(tr) };
            }
        }
        i = i + 1;
    }
    MovieState { timescale, duration, track: None }
}

// ---------------------------------------------------------------------------------------------
// The reader.
// ---------------------------------------------------------------------------------------------

/// The step that an atom leads to. `head` holds the first bytes of the atom at `pos`: 16 of them,
/// or as many as the file has.
pub fn scan_step(head: &[u8], pos: u64, file_len: u64) -> (r: ScanStep)
    requires
        pos <= file_len,
        head@.len() >= 16 || head@.len() >= file_len - pos,
    ensures
        r == step_of(head@, pos as int, file_len as int),
{
    let remaining: u64 = file_len - pos;
    if remaining < 8 {
        return ScanStep::Stop;
    }
    let size32: u32 = read_be32(head, 0);
    let tag: u32 = read_be32(head, 4);
    if size32 == 1 && remaining < 16 {
        return ScanStep::Stop;
    }
    let header_len: u64 = if size32 == 1 { 16 } else { 8 };
    let size: u64 = if size32 == 1 {
        read_be64(head, 8)
    } else if size32 == 0 {
        remaining
    } else {
        size32 as u64
    };
    if tag == tag_of(ATOM_MOOV) {
        if size < header_len {
            return ScanStep::Stop;
        }
        return ScanStep::Moov { start: pos + header_len, len: size - header_len };
    }
    if size == 0 || size > u64::MAX - pos {
        return ScanStep::Stop;
    }
    ScanStep::Next(pos + size)
}

/// Finds the movie description in a file.
fn find_moov(file: &[u8]) -> (r: Option<(u64, u64)>)
    ensures
        match r {
            Some((start, len)) => moov_place(file@, 0) == Some((start as int, len as int)),
            None => moov_place(file@, 0) is None,
        },
{
    assert(file@.len() == file.len());
    let mut pos: usize = 0;
    while pos < file.len()
        invariant
            file@.len() <= usize::MAX,
            pos <= file@.len(),
            moov_place(file@, 0) == moov_place(file@, pos as int),
        decreases file@.len() - pos,
    {
        let head = slice_subrange(file, pos, file.len());
        match scan_step(head, pos as u64, file.len() as u64) {
            ScanStep::Moov { start, len } => {
                return Some((start, len));
            },
            ScanStep::Next(next) => {
                if next <= pos as u64 || next >= file.len() as u64 {
                    return None;
                }
                pos = next as usize;
            },
            ScanStep::Stop => {
                return None;
            },
        }
    }
    None
}

/// How long a movie lasts.
#[derive(Debug, Clone, Copy)]
pub enum MovieDuration {
    /// As many time units, of which so many make a second.
    Units { units: u64, timescale: u32 },
    /// As many frames at the given rate.
    Frames { count: usize, fps: Single },
    /// Nothing is known of it.
    Unknown,
}

/// How many frames a second has.
#[derive(Debug, Clone, Copy)]
pub enum FrameRate {
    /// As the time table says.
    Stored(Single),
    /// So many frames in so many time units, of which so many make a second.
    Average { count: usize, units: u64, timescale: u32 },
    /// Nothing is known of it.
    Unknown,
}

/// What is known of a movie that was opened.
pub struct QtHapReader {
    width: u32,
    height: u32,
    fps: Single,
    timescale: u32,
    duration_units: u64,
    format: HapFormat,
    samples: Vec<FrameSample>,
}

impl View for QtHapReader {
    type V = Reading;

    closed spec fn view(&self) -> Reading {
        Reading {
            width: self.width as int,
            height: self.height as int,
            fps: self.fps,
            timescale: self.timescale as int,
            duration_units: self.duration_units as int,
            format: self.format,
            samples: self.samples@,
        }
    }
}

/// The outcome is the one wanted.
pub open spec fn agrees(
    r: Result<QtHapReader, MovReaderError>,
    want: Result<Reading, MovReaderFault>,
) -> bool {
    match r {
        Ok(v) => want == Ok::<Reading, MovReaderFault>(v@),
        Err(e) => want == Err::<Reading, MovReaderFault>(e@),
    }
}

/// The rate is more than nothing.
pub open spec fn is_positive(fps: Single) -> bool {
    crate::single::less(crate::single::whole_number(0), fps)
}

impl QtHapReader {
    /// The stored rate is a binary32 value.
    pub closed spec fn wf(self) -> bool {
        self.fps.wf()
    }

    /// Reads a movie description.
    pub fn from_moov(moov: &[u8]) -> (r: Result<Self, MovReaderError>)
        ensures
            agrees(r, reading_of(moov@)),
            r matches Ok(v) ==> v.wf(),
    {
        let m = parse_moov(moov);
        match m.track {
            None => Err(MovReaderError::NoHapTrackFound),
            Some(tr) => match tr.format {
                None => Err(MovReaderError::NoHapTrackFound),
                Some(format) => {
                    if tr.samples.len() == 0 {
                        return Err(
                            MovReaderError::InvalidFile("No video samples found".to_owned()),
                        );
                    }
                    Ok(
                        QtHapReader {
                            width: tr.width,
                            height: tr.height,
                            fps: tr.fps,
                            timescale: m.timescale,
                            duration_units: m.duration,
                            format,
                            samples: tr.samples,
                        },
                    )
                },
            },
        }
    }

    /// Opens a movie that is in memory.
    pub fn open(file: &[u8]) -> (r: Result<Self, MovReaderError>)
        ensures
            agrees(r, file_reading(file@)),
            r matches Ok(v) ==> v.wf(),
    {
        match find_moov(file) {
            None => Err(MovReaderError::NoHapTrackFound),
            Some((start, len)) => {
                if start > file.len() as u64 || len > file.len() as u64 - start {
                    return Err(MovReaderError::UnexpectedEof);
                }
                Self::from_moov(slice_subrange(file, start as usize, (start + len) as usize))
            },
        }
    }

    /// The width of the frames.
    pub fn width(&self) -> (r: u32)
        ensures
            r == self@.width,
    {
        self.width
    }

    /// The height of the frames.
    pub fn height(&self) -> (r: u32)
        ensures
            r == self@.height,
    {
        self.height
    }

    /// The frame rate: as the time table says, or else the frames over the duration.
    pub fn fps(&self) -> (r: FrameRate)
        requires
            self.wf(),
        ensures
            r == if is_positive(self@.fps) {
                FrameRate::Stored(self@.fps)
            } else if self@.timescale > 0 && self@.duration_units > 0 {
                FrameRate::Average {
                    count: self@.samples.len() as usize,
                    units: self@.duration_units as u64,
                    timescale: self@.timescale as u32,
                }
            } else {
                FrameRate::Unknown
            },
    {
        if Single::from_u32(0).lt(self.fps) {
            FrameRate::Stored(self.fps)
        } else if self.timescale > 0 && self.duration_units > 0 {
            FrameRate::Average {
                count: self.samples.len(),
                units: self.duration_units,
                timescale: self.timescale,
            }
        } else {
            FrameRate::Unknown
        }
    }

    /// The duration: as the movie header says, or else the frames at their rate.
    pub fn duration(&self) -> (r: MovieDuration)
        requires
            self.wf(),
        ensures
            r == if self@.timescale > 0 {
                MovieDuration::Units {
                    units: self@.duration_units as u64,
                    timescale: self@.timescale as u32,
                }
            } else if is_positive(self@.fps) {
                MovieDuration::Frames { count: self@.samples.len() as usize, fps: self@.fps }
            } else {
                MovieDuration::Unknown
            },
    {
        if self.timescale > 0 {
            MovieDuration::Units { units: self.duration_units, timescale: self.timescale }
        } else if Single::from_u32(0).lt(self.fps) {
            MovieDuration::Frames { count: self.samples.len(), fps: self.fps }
        } else {
            MovieDuration::Unknown
        }
    }

    /// The flavour of the frames.
    pub fn format(&self) -> (r: HapFormat)
        ensures
            r == self@.format,
    {
        self.format
    }

    /// The number of frames.
    pub fn frame_count(&self) -> (r: usize)
        ensures
            r == self@.samples.len(),
    {
        self.samples.len()
    }

    /// Where the frames lie.
    pub fn samples(&self) -> (r: &[FrameSample])
        ensures
            r@ == self@.samples,
    {
        self.samples.as_slice()
    }

    /// Where a frame lies.
    pub fn frame_sample(&self, frame_idx: usize) -> (r: Result<FrameSample, MovReaderError>)
        ensures
            match r {
                Ok(s) => sample_place(self@, frame_idx as int) == Ok::<FrameSample, MovReaderFault>(
                    s,
                ),
                Err(e) => sample_place(self@, frame_idx as int) == Err::<
                    FrameSample,
                    MovReaderFault,
                >(e@),
            },
    {
        if frame_idx >= self.samples.len() {
            return Err(
                MovReaderError::FrameIndexOutOfBounds {
                    index: frame_idx,
                    total: self.samples.len(),
                },
            );
        }
        Ok(self.samples[frame_idx])
    }

    /// The packet of a frame of a movie that is in memory.
    pub fn read_frame_packet(&self, file: &[u8], frame_idx: usize) -> (r: Result<
        Vec<u8>,
        MovReaderError,
    >)
        ensures
            match r {
                Ok(v) => packet_of(self@, file@, frame_idx as int) == Ok::<
                    Seq<u8>,
                    MovReaderFault,
                >(v@),
                Err(e) => packet_of(self@, file@, frame_idx as int) == Err::<
                    Seq<u8>,
                    MovReaderFault,
                >(e@),
            },
    {
        let s = match self.frame_sample(frame_idx) {
            Ok(s) => s,
            Err(e) => return Err(e),
        };
        if s.size == 0 {
            let none: Vec<u8> = Vec::new();
            assert(none@ =~= Seq::<u8>::empty());
            return Ok(none);
        }
        assert(file@.len() == file.len());
        if s.offset > file.len() as u64 || s.size > file.len() - s.offset as usize {
            return Err(MovReaderError::UnexpectedEof);
        }
        Ok(slice_to_vec(slice_subrange(file, s.offset as usize, s.offset as usize + s.size)))
    }
}

// ---------------------------------------------------------------------------------------------
// What the tables mean.
// ---------------------------------------------------------------------------------------------

/// The runs of a chunk table begin at the first chunk, each after the one before.
pub open spec fn in_order(runs: Seq<ChunkRun>) -> bool {
    &&& runs.len() > 0
    &&& runs[0].first_chunk == 1
    &&& forall|i: int, j: int|
        0 <= i < j < runs.len() ==> (#[trigger] runs[i]).first_chunk < (
        #[trigger] runs[j]).first_chunk
}

/// Run `k` is the one that the chunk of the given number belongs to: it begins there or before, and
/// the next one begins later.
pub open spec fn belongs_to(runs: Seq<ChunkRun>, chunk: int, k: int) -> bool {
    &&& 0 <= k < runs.len()
    &&& runs[k].first_chunk <= chunk
    &&& k + 1 < runs.len() ==> chunk < runs[k + 1].first_chunk
}

/// An entry of the chunk table holds from its own first chunk on, up to the first chunk of the next
/// entry. Without a table every chunk holds one sample.
pub proof fn law_runs_hold(runs: Seq<ChunkRun>, chunk: int, k: int)
    requires
        in_order(runs),
        belongs_to(runs, chunk, k),
    ensures
        samples_in(runs, chunk) == runs[k].samples_per_chunk,
        samples_in(Seq::empty(), chunk) == 1,
    decreases runs.len(),
{
    if k < runs.len() - 1 {
        let front = runs.drop_last();
        assert(runs.last() == runs[runs.len() - 1]);
        if k + 1 < runs.len() - 1 {
            assert(runs[k + 1].first_chunk < runs[runs.len() - 1].first_chunk);
        }
        assert(forall|i: int| 0 <= i < front.len() ==> front[i] == runs[i]);
        law_runs_hold(front, chunk, k);
    }
}

/// The sum of the numbers from `from` up to `to`.
pub open spec fn sum_between(v: Seq<int>, from: int, to: int) -> int
    decreases to - from,
{
    if from >= to {
        0
    } else {
        sum_between(v, from, to - 1) + v[to - 1]
    }
}

/// The sizes as integers.
pub open spec fn size_values(sizes: Seq<usize>) -> Seq<int> {
    Seq::new(sizes.len(), |i: int| sizes[i] as int)
}

/// How many samples each chunk holds, as the chunk table has it.
pub open spec fn holds_counts(t: SampleTables, counts: Seq<int>) -> bool {
    &&& counts.len() == t.offsets.len()
    &&& counts.len() < 0x1_0000_0000
    &&& t.runs.len() > 0 ==> in_order(t.runs)
    &&& forall|c: int|
        0 <= c < counts.len() ==> {
            ||| t.runs.len() == 0 && #[trigger] counts[c] == 1
            ||| exists|k: int|
                #[trigger] belongs_to(t.runs, c + 1, k) && counts[c]
                    == t.runs[k].samples_per_chunk
        }
}

/// The sample number `j` of chunk `d` stands where it should in a list that begins with sample `at`.
spec fn is_placed(
    got: Seq<FrameSample>,
    at: int,
    t: SampleTables,
    counts: Seq<int>,
    d: int,
    j: int,
) -> bool {
    let i = sum_between(counts, 0, d) - at + j;
    0 <= i < got.len() && is_sample(got[i], t, d, sum_between(counts, 0, d), j)
}

/// The samples of the chunks from `c` on.
proof fn lemma_chunk_samples(t: SampleTables, counts: Seq<int>, c: int)
    requires
        holds_counts(t, counts),
        0 <= c <= counts.len(),
        sum_between(counts, 0, counts.len() as int) <= t.sizes.len(),
    ensures
        ({
            let at = sum_between(counts, 0, c);
            let got = chunk_samples(t, c, at);
            &&& got.len() == sum_between(counts, 0, counts.len() as int) - at
            &&& forall|d: int, j: int|
                c <= d < counts.len() && 0 <= j < counts[d] ==> #[trigger] is_placed(
                    got,
                    at,
                    t,
                    counts,
                    d,
                    j,
                )
        }),
    decreases counts.len() - c,
{
    let at = sum_between(counts, 0, c);
    let n = counts.len() as int;
    if c < n {
        lemma_counts(t, counts, c);
        let k = counts[c];
        lemma_sum_grows(t, counts, c + 1, n);
        lemma_sum_grows(t, counts, 0, c);
        assert(sum_between(counts, 0, c + 1) == at + k);
        lemma_adjacent(t, c, at, k);
        lemma_chunk_samples(t, counts, c + 1);
        let here = adjacent(t.offsets[c] as int, t.sizes, at, k);
        let rest = chunk_samples(t, c + 1, at + k);
        let got = chunk_samples(t, c, at);
        assert((c + 1) % 0x1_0000_0000 == c + 1);
        assert(got == here + rest);
        assert forall|d: int, j: int| c <= d < n && 0 <= j < counts[d] implies #[trigger] is_placed(
            got,
            at,
            t,
            counts,
            d,
            j,
        ) by {
            if d == c {
                assert(got[j] == here[j]);
            } else {
                let i = sum_between(counts, 0, d) - (at + k) + j;
                assert(is_placed(rest, at + k, t, counts, d, j));
                assert(got[k + i] == rest[i]);
            }
        }
    }
}

/// The sample number `j` of chunk `c`, whose first sample has the number `first`: it lies after the
/// samples before it in the chunk.
pub open spec fn is_sample(s: FrameSample, t: SampleTables, c: int, first: int, j: int) -> bool {
    &&& s.size == t.sizes[first + j]
    &&& s.offset == (t.offsets[c] + sum_between(size_values(t.sizes), first, first + j))
        % 0x1_0000_0000_0000_0000
}

proof fn lemma_counts(t: SampleTables, counts: Seq<int>, c: int)
    requires
        holds_counts(t, counts),
        0 <= c < counts.len(),
    ensures
        counts[c] >= 0,
        samples_in(t.runs, c + 1) == counts[c],
{
    assert(counts[c] == counts[c]);
    if t.runs.len() > 0 {
        let k = choose|k: int| #[trigger]
            belongs_to(t.runs, c + 1, k) && counts[c] == t.runs[k].samples_per_chunk;
        law_runs_hold(t.runs, c + 1, k);
    }
}

proof fn lemma_sum_grows(t: SampleTables, counts: Seq<int>, c: int, d: int)
    requires
        holds_counts(t, counts),
        0 <= c <= d <= counts.len(),
    ensures
        sum_between(counts, 0, c) <= sum_between(counts, 0, d),
        0 <= sum_between(counts, 0, c),
    decreases d,
{
    if d > 0 {
        lemma_counts(t, counts, d - 1);
        if c < d {
            lemma_sum_grows(t, counts, c, d - 1);
        } else {
            lemma_sum_grows(t, counts, d - 1, d - 1);
        }
    }
}

/// The samples that lie one after the other in a chunk.
proof fn lemma_adjacent(t: SampleTables, c: int, at: int, n: int)
    requires
        0 <= at,
        0 <= n,
        at + n <= t.sizes.len(),
        0 <= c < t.offsets.len(),
    ensures
        ({
            let got = adjacent(t.offsets[c] as int, t.sizes, at, n);
            &&& got.len() == n
            &&& forall|j: int| 0 <= j < n ==> is_sample(#[trigger] got[j], t, c, at, j)
        }),
{
    lemma_adjacent_at(t.offsets[c] as int, t.sizes, at, n);
}

proof fn lemma_adjacent_at(offset: int, sizes: Seq<usize>, at: int, n: int)
    requires
        0 <= at,
        0 <= n,
        at + n <= sizes.len(),
    ensures
        ({
            let got = adjacent(offset, sizes, at, n);
            &&& got.len() == n
            &&& forall|j: int|
                0 <= j < n ==> (#[trigger] got[j]).size == sizes[at + j] && got[j].offset == (offset
                    + sum_between(size_values(sizes), at, at + j)) % 0x1_0000_0000_0000_0000
        }),
    decreases n,
{
    let got = adjacent(offset, sizes, at, n);
    if n > 0 {
        lemma_adjacent_at(offset + sizes[at], sizes, at + 1, n - 1);
        let rest = adjacent(offset + sizes[at], sizes, at + 1, n - 1);
        assert forall|j: int| 0 <= j < n implies (#[trigger] got[j]).size == sizes[at + j]
            && got[j].offset == (offset + sum_between(size_values(sizes), at, at + j))
            % 0x1_0000_0000_0000_0000 by {
            if j > 0 {
                assert(got[j] == rest[j - 1]);
                lemma_sum_first(size_values(sizes), at, at + j);
            }
        }
    }
}

proof fn lemma_sum_first(v: Seq<int>, from: int, to: int)
    requires
        from < to,
    ensures
        sum_between(v, from, to) == v[from] + sum_between(v, from + 1, to),
    decreases to - from,
{
    assert(sum_between(v, from, from) == 0);
    assert(sum_between(v, from + 1, from + 1) == 0);
    if from + 1 < to {
        lemma_sum_first(v, from, to - 1);
    } else {
        assert(to - 1 == from);
    }
}

/// As many frames are read as there are sizes, where the chunks have room for them all. The samples
/// of a chunk follow those of the chunk before; each lies behind the samples before it in its
/// chunk, from where the chunk begins.
#[verifier::spinoff_prover]
#[verifier::rlimit(40)]
pub proof fn law_samples_in_chunks(t: SampleTables, counts: Seq<int>, c: int, j: int)
    requires
        holds_counts(t, counts),
        sum_between(counts, 0, counts.len() as int) == t.sizes.len(),
        0 <= c < counts.len(),
        0 <= j < counts[c],
        t.offsets[c] + sum_between(
            size_values(t.sizes),
            sum_between(counts, 0, c),
            sum_between(counts, 0, c) + j,
        ) <= u64::MAX,
    ensures
        ({
            let first = sum_between(counts, 0, c);
            let got = samples_of(t);
            &&& got.len() == t.sizes.len()
            &&& 0 <= first + j < got.len()
            &&& got[first + j].size == t.sizes[first + j]
            &&& got[first + j].offset == t.offsets[c] + sum_between(
                size_values(t.sizes),
                first,
                first + j,
            )
        }),
{
    let first = sum_between(counts, 0, c);
    lemma_sum_grows(t, counts, c + 1, counts.len() as int);
    lemma_sum_grows(t, counts, c, c);
    if one_by_one(t.runs) {
        lemma_ones(t, counts, counts.len() as int);
        lemma_ones(t, counts, c);
        lemma_counts(t, counts, c);
        lemma_one(t, counts, c);
        assert(sum_between(size_values(t.sizes), first, first) == 0);
    } else {
        lemma_chunk_samples(t, counts, 0);
        let got = chunk_samples(t, 0, 0);
        assert(is_placed(got, 0, t, counts, c, j));
        lemma_sizes_sum(t.sizes, first, first + j);
    }
}

proof fn lemma_sizes_sum(sizes: Seq<usize>, from: int, to: int)
    requires
        0 <= from <= to <= sizes.len(),
    ensures
        0 <= sum_between(size_values(sizes), from, to),
    decreases to - from,
{
    if from < to {
        lemma_sizes_sum(sizes, from, to - 1);
    }
}

proof fn lemma_one(t: SampleTables, counts: Seq<int>, c: int)
    requires
        holds_counts(t, counts),
        one_by_one(t.runs),
        0 <= c < counts.len(),
    ensures
        counts[c] == 1,
{
    assert(counts[c] == counts[c]);
    if t.runs.len() > 0 {
        let k = choose|k: int| #[trigger]
            belongs_to(t.runs, c + 1, k) && counts[c] == t.runs[k].samples_per_chunk;
    }
}

proof fn lemma_ones(t: SampleTables, counts: Seq<int>, n: int)
    requires
        holds_counts(t, counts),
        one_by_one(t.runs),
        0 <= n <= counts.len(),
    ensures
        sum_between(counts, 0, n) == n,
    decreases n,
{
    if n > 0 {
        lemma_ones(t, counts, n - 1);
        lemma_one(t, counts, n - 1);
    }
}

} // verus!
