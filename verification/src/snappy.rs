//! Snappy compression, of single buffers and of frames cut into chunks.

use crate::bytes::push_all;
use crate::header::ChunkInfo;
use crate::parallel::map_indices;
use vstd::prelude::*;
use vstd::slice::{slice_subrange, slice_to_vec};

verus! {

/// The error type of the `snap` crate, carried through as it is.
#[verifier::external_type_specification]
#[verifier::external_body]
pub struct ExSnapError(snap::Error);

/// Errors of compression and decompression.
#[derive(Debug)]
pub enum SnappyError {
    /// The codec refused its input.
    Decompress(snap::Error),
    /// A chunk extends past the buffer.
    OutOfBounds,
    /// The output has another size than expected.
    SizeMismatch { expected: usize, actual: usize },
}

/// A Snappy error without the codec's own report.
pub enum SnappyFault {
    Codec,
    OutOfBounds,
    SizeMismatch { expected: int, actual: int },
}

impl View for SnappyError {
    type V = SnappyFault;

    open spec fn view(&self) -> SnappyFault {
        match *self {
            SnappyError::Decompress(_) => SnappyFault::Codec,
            SnappyError::OutOfBounds => SnappyFault::OutOfBounds,
            SnappyError::SizeMismatch { expected, actual } => SnappyFault::SizeMismatch {
                expected: expected as int,
                actual: actual as int,
            },
        }
    }
}

/// What reading or writing one chunk gives.
pub type ChunkOutcome = Result<Vec<u8>, SnappyError>;

/// The outcome is the one wanted.
pub open spec fn agrees(
    r: Result<Vec<u8>, SnappyError>,
    want: Result<Seq<u8>, SnappyFault>,
) -> bool {
    match r {
        Ok(v) => want == Ok::<Seq<u8>, SnappyFault>(v@),
        Err(e) => want == Err::<Seq<u8>, SnappyFault>(e@),
    }
}

/// What `snap::raw::Encoder::compress_vec` makes of a buffer that it accepts.
pub uninterp spec fn snappy_compressed(raw: Seq<u8>) -> Seq<u8>;

/// What `snap::raw::Decoder::decompress_vec` makes of a buffer; `None` where it reports an error.
pub uninterp spec fn snappy_decompressed(compressed: Seq<u8>) -> Option<Seq<u8>>;

/// The most bytes that compressing `n` bytes can give.
pub open spec fn compressed_limit(n: int) -> int {
    32 + n + n / 6
}

/// Calls `snap::raw::Encoder::compress_vec` on a new encoder.
///
/// It succeeds exactly if the most that the compressed form can take fits in 32 bits. The result
/// depends on the input alone, keeps within that limit, is never empty, since it begins with the
/// length of the input, and decompresses to the input.
#[verifier::external_body]
fn snap_compress(raw: &[u8]) -> (r: Result<Vec<u8>, snap::Error>)
    ensures
        r is Ok <==> compressed_limit(raw@.len() as int) <= u32::MAX,
        r matches Ok(v) ==> v@ == snappy_compressed(raw@) && 0 < v@.len() <= compressed_limit(
            raw@.len() as int,
        ) && snappy_decompressed(v@) == Some(raw@),
{
    snap::raw::Encoder::new().compress_vec(raw)
}

/// Calls `snap::raw::Decoder::decompress_vec` on a new decoder. Whether it succeeds, and with
/// what, depends on the input alone.
#[verifier::external_body]
fn snap_decompress(compressed: &[u8]) -> (r: Result<Vec<u8>, snap::Error>)
    ensures
        match r {
            Ok(v) => snappy_decompressed(compressed@) == Some(v@),
            Err(_) => snappy_decompressed(compressed@) is None,
        },
{
    snap::raw::Decoder::new().decompress_vec(compressed)
}

/// What decompressing one buffer gives.
pub open spec fn unpacked(compressed: Seq<u8>) -> Result<Seq<u8>, SnappyFault> {
    match snappy_decompressed(compressed) {
        Some(v) => Ok(v),
        None => Err(SnappyFault::Codec),
    }
}

/// Decompresses a single buffer.
pub fn decompress_snappy(compressed: &[u8]) -> (r: Result<Vec<u8>, SnappyError>)
    ensures
        agrees(r, unpacked(compressed@)),
{
    match snap_decompress(compressed) {
        Ok(v) => Ok(v),
        Err(e) => Err(SnappyError::Decompress(e)),
    }
}

/// Compresses a single buffer. The result is never empty, and decompressing it gives the buffer
/// back.
pub fn compress_snappy(raw: &[u8]) -> (r: Result<Vec<u8>, SnappyError>)
    ensures
        r is Ok <==> compressed_limit(raw@.len() as int) <= u32::MAX,
        match r {
            Ok(v) => v@ == snappy_compressed(raw@) && 0 < v@.len() <= compressed_limit(
                raw@.len() as int,
            ) && unpacked(v@) == Ok::<Seq<u8>, SnappyFault>(raw@),
            Err(e) => e@ == SnappyFault::Codec,
        },
{
    match snap_compress(raw) {
        Ok(v) => Ok(v),
        Err(e) => Err(SnappyError::Decompress(e)),
    }
}

/// What one chunk of a frame holds. A compressor that is not known counts as none.
pub open spec fn chunk_content(payload: Seq<u8>, chunk: ChunkInfo) -> Result<
    Seq<u8>,
    SnappyFault,
> {
    let end = chunk.offset + chunk.size;
    if end > payload.len() {
        Err(SnappyFault::OutOfBounds)
    } else {
        let data = payload.subrange(chunk.offset as int, end);
        if chunk.compressor == 0x0B {
            unpacked(data)
        } else {
            Ok(data)
        }
    }
}

/// What the chunks hold one after the other, or the error of the first that cannot be read.
pub open spec fn chunks_content(payload: Seq<u8>, chunks: Seq<ChunkInfo>) -> Result<
    Seq<u8>,
    SnappyFault,
>
    decreases chunks.len(),
{
    if chunks.len() == 0 {
        Ok(Seq::empty())
    } else {
        match chunks_content(payload, chunks.drop_last()) {
            Err(e) => Err(e),
            Ok(front) => match chunk_content(payload, chunks.last()) {
                Err(e) => Err(e),
                Ok(last) => Ok(front + last),
            },
        }
    }
}

/// Reads one chunk of a frame.
fn decompress_chunk(payload: &[u8], chunk: ChunkInfo) -> (r: Result<Vec<u8>, SnappyError>)
    ensures
        agrees(r, chunk_content(payload@, chunk)),
{
    if chunk.offset > payload.len() || chunk.size > payload.len() - chunk.offset {
        return Err(SnappyError::OutOfBounds);
    }
    let data = slice_subrange(payload, chunk.offset, chunk.offset + chunk.size);
    if chunk.compressor == 0x0B {
        decompress_snappy(data)
    } else {
        Ok(slice_to_vec(data))
    }
}

/// Decompresses the chunks of a frame on all cores and joins what they hold.
pub fn decompress_chunks_parallel(frame_payload: &[u8], chunks: &[ChunkInfo]) -> (r: Result<
    Vec<u8>,
    SnappyError,
>)
    ensures
        agrees(r, chunks_content(frame_payload@, chunks@)),
{
    let read = |i: usize| -> (part: ChunkOutcome)
        requires
            i < chunks@.len(),
        ensures
            agrees(part, chunk_content(frame_payload@, chunks@[i as int])),
    {
        decompress_chunk(frame_payload, chunks[i])
    };
    let parts = map_indices(chunks.len(), read);
    proof {
        let read_parts = outcomes(parts@);
        assert(read_parts =~= contents_of(frame_payload@, chunks@));
        lemma_contents(frame_payload@, chunks@);
    }
    join_parts(parts)
}

/// What the outcomes of a list are.
pub open spec fn outcomes(parts: Seq<ChunkOutcome>) -> Seq<Result<Seq<u8>, SnappyFault>> {
    Seq::new(
        parts.len(),
        |i: int|
            match parts[i] {
                Ok(v) => Ok::<Seq<u8>, SnappyFault>(v@),
                Err(e) => Err::<Seq<u8>, SnappyFault>(e@),
            },
    )
}

/// The parts one after the other, or the first error among them.
pub open spec fn joined_outcome(parts: Seq<Result<Seq<u8>, SnappyFault>>) -> Result<
    Seq<u8>,
    SnappyFault,
>
    decreases parts.len(),
{
    if parts.len() == 0 {
        Ok(Seq::empty())
    } else {
        match joined_outcome(parts.drop_last()) {
            Err(e) => Err(e),
            Ok(front) => match parts.last() {
                Err(e) => Err(e),
                Ok(last) => Ok(front + last),
            },
        }
    }
}

/// What each of the chunks holds.
pub open spec fn contents_of(payload: Seq<u8>, chunks: Seq<ChunkInfo>) -> Seq<
    Result<Seq<u8>, SnappyFault>,
> {
    Seq::new(chunks.len(), |i: int| chunk_content(payload, chunks[i]))
}

/// The chunks hold what each of them holds, joined.
proof fn lemma_contents(payload: Seq<u8>, chunks: Seq<ChunkInfo>)
    ensures
        chunks_content(payload, chunks) == joined_outcome(contents_of(payload, chunks)),
    decreases chunks.len(),
{
    if chunks.len() > 0 {
        lemma_contents(payload, chunks.drop_last());
        assert(contents_of(payload, chunks).drop_last() =~= contents_of(
            payload,
            chunks.drop_last(),
        ));
    }
}

/// An error among the first parts is the error of them all.
proof fn lemma_first_error(parts: Seq<Result<Seq<u8>, SnappyFault>>, n: int)
    requires
        0 <= n <= parts.len(),
        joined_outcome(parts.subrange(0, n)) is Err,
    ensures
        joined_outcome(parts) == joined_outcome(parts.subrange(0, n)),
    decreases parts.len(),
{
    if n == parts.len() {
        assert(parts.subrange(0, n) =~= parts);
    } else {
        assert(parts.drop_last().subrange(0, n) =~= parts.subrange(0, n));
        lemma_first_error(parts.drop_last(), n);
    }
}

/// Joins parts, or gives the first error among them.
pub fn join_parts(parts: Vec<ChunkOutcome>) -> (r: Result<Vec<u8>, SnappyError>)
    ensures
        agrees(r, joined_outcome(outcomes(parts@))),
{
    let mut out: Vec<u8> = Vec::new();
    let count: usize = parts.len();
    let mut i: usize = 0;
    let ghost all = outcomes(parts@);
    assert(out@ =~= Seq::<u8>::empty());
    for part in iter: parts
        invariant
            iter.seq() == parts@,
            i == iter.index(),
            count == parts@.len(),
            all == outcomes(parts@),
            joined_outcome(all.subrange(0, i as int)) == Ok::<Seq<u8>, SnappyFault>(out@),
    {
        assert(part == parts@[i as int]);
        assert(all.subrange(0, i + 1).drop_last() =~= all.subrange(0, i as int));
        match part {
            Ok(v) => {
                push_all(&mut out, v.as_slice());
            },
            Err(e) => {
                proof {
                    lemma_first_error(all, i + 1);
                }
                return Err(e);
            },
        }
        i = i + 1;
    }
    assert(all.subrange(0, i as int) =~= all);
    Ok(out)
}

/// The number of pieces that `len` bytes are cut into: `chunk_count`, but one at least and no more
/// than there are bytes. No bytes make no pieces.
pub open spec fn piece_count(len: int, chunk_count: int) -> int {
    let most = if chunk_count < 1 {
        1
    } else {
        chunk_count
    };
    if most > len {
        len
    } else {
        most
    }
}

/// The size of the largest of `count` pieces.
pub open spec fn full_piece(len: int, count: int) -> int {
    (len + count - 1) / count
}

/// Pieces of full size, but the last, use up the bytes at the last piece and not before.
pub open spec fn fills(len: int, count: int) -> bool {
    (count - 1) * full_piece(len, count) < len
}

/// Where piece `i` of `count` begins, and the one before it ends. The pieces are of full size, and
/// the last has what is left. Where nothing would be left for it, all pieces are of one size, but
/// that the first `len % count` have one byte more.
#[verifier::opaque]
pub open spec fn piece_start(len: int, count: int, i: int) -> int {
    if fills(len, count) {
        if i * full_piece(len, count) < len {
            i * full_piece(len, count)
        } else {
            len
        }
    } else {
        i * (len / count) + if i < len % count {
            i
        } else {
            len % count
        }
    }
}

/// The size of the largest piece, which is the first.
pub open spec fn largest_piece(len: int, chunk_count: int) -> int {
    full_piece(len, piece_count(len, chunk_count))
}

/// The piece number `i` of `count`.
pub open spec fn piece(raw: Seq<u8>, count: int, i: int) -> Seq<u8> {
    raw.subrange(
        piece_start(raw.len() as int, count, i),
        piece_start(raw.len() as int, count, i + 1),
    )
}

/// A piece as it is stored.
pub open spec fn stored(piece: Seq<u8>, use_snappy: bool) -> Seq<u8> {
    if use_snappy {
        snappy_compressed(piece)
    } else {
        piece
    }
}

/// The compressor that a chunk table names.
pub open spec fn compressor_byte(use_snappy: bool) -> u8 {
    if use_snappy {
        0x0B
    } else {
        0x0A
    }
}

/// The parts one after the other.
pub open spec fn joined(parts: Seq<Seq<u8>>) -> Seq<u8>
    decreases parts.len(),
{
    if parts.len() == 0 {
        Seq::empty()
    } else {
        joined(parts.drop_last()) + parts.last()
    }
}

/// What the buffers of a list hold.
pub open spec fn contents(parts: Seq<Vec<u8>>) -> Seq<Seq<u8>> {
    Seq::new(parts.len(), |i: int| parts[i]@)
}

/// The chunks that a buffer is stored as.
pub open spec fn stored_chunks(raw: Seq<u8>, chunk_count: int, use_snappy: bool) -> Seq<Seq<u8>> {
    Seq::new(
        piece_count(raw.len() as int, chunk_count) as nat,
        |i: int| stored(piece(raw, piece_count(raw.len() as int, chunk_count), i), use_snappy),
    )
}

/// The table of chunks that lie one after the other.
pub open spec fn chunk_table(chunks: Seq<Seq<u8>>, use_snappy: bool) -> Seq<ChunkInfo> {
    Seq::new(
        chunks.len(),
        |i: int|
            ChunkInfo {
                offset: crate::header::capped(joined(chunks.subrange(0, i)).len() as int) as usize,
                size: chunks[i].len() as usize,
                compressor: compressor_byte(use_snappy),
            },
    )
}

/// The pieces can be stored.
pub open spec fn storable(len: int, chunk_count: int, use_snappy: bool) -> bool {
    use_snappy && len > 0 ==> compressed_limit(largest_piece(len, chunk_count)) <= u32::MAX
}

/// The most bytes that `len` bytes in `count` pieces can take.
pub open spec fn stored_limit(len: int, count: int, use_snappy: bool) -> int {
    if use_snappy {
        32 * count + len + len / 6
    } else {
        len
    }
}

/// The pieces lie one after the other, and none is empty or larger than the first.
proof fn lemma_pieces(len: int, count: int, i: int)
    requires
        1 <= count <= len,
        0 <= i < count,
    ensures
        piece_start(len, count, 0) == 0,
        piece_start(len, count, count) == len,
        piece_start(len, count, 1) == full_piece(len, count),
        0 <= piece_start(len, count, i) < piece_start(len, count, i + 1) <= len,
        piece_start(len, count, i + 1) - piece_start(len, count, i) <= full_piece(len, count),
{
    reveal(piece_start);
    let q = len / count;
    let r = len % count;
    let full = full_piece(len, count);
    assert(q * count + r == len && 0 <= r < count && q >= 1) by (nonlinear_arith)
        requires
            q == len / count,
            r == len % count,
            1 <= count <= len,
    ;
    assert(full == q + if r > 0 {
        1int
    } else {
        0
    } && len <= count * full) by (nonlinear_arith)
        requires
            full == (len + count - 1) / count,
            q * count + r == len,
            0 <= r < count,
            1 <= count,
    ;
    assert(0 * q == 0 && 1 * q == q && count * q == q * count && 0 * full == 0 && 1 * full == full)
        by (nonlinear_arith);
    assert((i + 1) * q == i * q + q && 0 <= i * q && (i + 1) * q <= count * q)
        by (nonlinear_arith)
        requires
            0 <= i < count,
            q >= 1,
    ;
    assert((i + 1) * full == i * full + full && 0 <= i * full && i * full <= (count - 1) * full)
        by (nonlinear_arith)
        requires
            0 <= i < count,
            full >= 1,
    ;
}

/// Where piece `i` of `count` begins.
fn find_piece(len: usize, count: usize, i: usize) -> (start: usize)
    requires
        1 <= count <= len,
        i <= count,
    ensures
        start == piece_start(len as int, count as int, i as int),
        start <= len,
{
    let rest: usize = len % count;
    let size: usize = len / count;
    proof {
        reveal(piece_start);
        lemma_pieces(len as int, count as int, 0);
        if i > 0 {
            lemma_pieces(len as int, count as int, i - 1);
        }
        lemma_full(len as int, count as int, i as int);
    }
    let full: usize = if rest > 0 { size + 1 } else { size };
    // The last piece has something left for it.
    if (len - 1) / full >= count - 1 {
        if i <= (len - 1) / full {
            i * full
        } else {
            len
        }
    } else {
        i * size + if i < rest { i } else { rest }
    }
}

/// The size of a full piece, and what it takes for pieces of that size to fit, found by division.
proof fn lemma_full(len: int, count: int, i: int)
    requires
        1 <= count <= len,
        0 <= i,
    ensures
        1 <= full_piece(len, count) <= len,
        full_piece(len, count) == len / count + if len % count > 0 {
            1int
        } else {
            0
        },
        fills(len, count) <==> (len - 1) / full_piece(len, count) >= count - 1,
        i * full_piece(len, count) < len <==> i <= (len - 1) / full_piece(len, count),
        0 <= i * (len / count),
{
    let full = full_piece(len, count);
    let q = len / count;
    let r = len % count;
    assert(q * count + r == len && 0 <= r < count && 1 <= q) by (nonlinear_arith)
        requires
            q == len / count,
            r == len % count,
            1 <= count <= len,
    ;
    assert(full == q + (if r > 0 {
        1int
    } else {
        0
    }) && 1 <= full <= len) by (nonlinear_arith)
        requires
            full == (len + count - 1) / count,
            q * count + r == len,
            0 <= r < count,
            1 <= count,
            1 <= q,
    ;
    lemma_quotient(len, full, i);
    lemma_quotient(len, full, count - 1);
    assert(0 <= i * q) by (nonlinear_arith)
        requires
            0 <= i,
            1 <= q,
    ;
}

proof fn lemma_quotient(len: int, full: int, i: int)
    requires
        1 <= full,
        1 <= len,
    ensures
        i * full < len <==> i <= (len - 1) / full,
{
    let k = (len - 1) / full;
    assert(k * full <= len - 1 < (k + 1) * full) by (nonlinear_arith)
        requires
            k == (len - 1) / full,
            1 <= full,
    ;
    if i <= k {
        assert(i * full <= k * full) by (nonlinear_arith)
            requires
                i <= k,
                1 <= full,
        ;
    } else {
        assert((k + 1) * full <= i * full) by (nonlinear_arith)
            requires
                k + 1 <= i,
                1 <= full,
        ;
    }
}

/// Makes the chunk that piece `i` of `count` is stored as.
fn compress_piece(raw: &[u8], count: usize, i: usize, use_snappy: bool) -> (part: ChunkOutcome)
    requires
        1 <= count <= raw@.len(),
        i < count,
    ensures
        holds_piece(part, piece(raw@, count as int, i as int), use_snappy),
{
    assert(raw@.len() == raw.len());
    proof {
        lemma_pieces(raw@.len() as int, count as int, i as int);
    }
    let start: usize = find_piece(raw.len(), count, i);
    let end: usize = find_piece(raw.len(), count, i + 1);
    let data = slice_subrange(raw, start, end);
    if use_snappy {
        compress_snappy(data)
    } else {
        Ok(slice_to_vec(data))
    }
}

/// If the parts have an error, one of them is it.
proof fn lemma_has_error(parts: Seq<Result<Seq<u8>, SnappyFault>>) -> (j: int)
    requires
        joined_outcome(parts) is Err,
    ensures
        0 <= j < parts.len(),
        parts[j] is Err,
        parts[j]->Err_0 == joined_outcome(parts)->Err_0,
    decreases parts.len(),
{
    if joined_outcome(parts.drop_last()) is Err {
        lemma_has_error(parts.drop_last())
    } else {
        parts.len() - 1
    }
}

/// Parts without an error among them have none.
proof fn lemma_no_error(parts: Seq<Result<Seq<u8>, SnappyFault>>)
    requires
        forall|j: int| 0 <= j < parts.len() ==> (#[trigger] parts[j]) is Ok,
    ensures
        joined_outcome(parts) is Ok,
    decreases parts.len(),
{
    if parts.len() > 0 {
        lemma_no_error(parts.drop_last());
    }
}

/// Lists chunks that lie one after the other, or gives the first error among them.
pub fn tabulate(parts: Vec<ChunkOutcome>, use_snappy: bool) -> (r: Result<
    (Vec<Vec<u8>>, Vec<ChunkInfo>),
    SnappyError,
>)
    ensures
        match r {
            Ok((chunks, table)) => {
                &&& joined_outcome(outcomes(parts@)) is Ok
                &&& chunks@.len() == parts@.len()
                &&& forall|j: int|
                    0 <= j < parts@.len() ==> parts@[j] == Ok::<Vec<u8>, SnappyError>(
                        #[trigger] chunks@[j],
                    )
                &&& table@ == chunk_table(contents(chunks@), use_snappy)
            },
            Err(e) => joined_outcome(outcomes(parts@)) == Err::<Seq<u8>, SnappyFault>(e@),
        },
{
    let mut chunks: Vec<Vec<u8>> = Vec::new();
    let mut table: Vec<ChunkInfo> = Vec::new();
    let mut offset: usize = 0;
    let compressor: u8 = if use_snappy { 0x0B } else { 0x0A };
    let count: usize = parts.len();
    let mut i: usize = 0;
    let ghost all = outcomes(parts@);
    assert(contents(chunks@) =~= Seq::<Seq<u8>>::empty());
    for part in iter: parts
        invariant
            iter.seq() == parts@,
            i == iter.index(),
            count == parts@.len(),
            all == outcomes(parts@),
            compressor == compressor_byte(use_snappy),
            chunks@.len() == i,
            table@.len() == i,
            offset == crate::header::capped(joined(contents(chunks@)).len() as int),
            forall|j: int|
                0 <= j < i ==> parts@[j] == Ok::<Vec<u8>, SnappyError>(#[trigger] chunks@[j]),
            forall|j: int|
                0 <= j < i ==> #[trigger] table@[j] == chunk_table(
                    contents(chunks@),
                    use_snappy,
                )[j],
    {
        assert(part == parts@[i as int]);
        match part {
            Ok(v) => {
                let ghost before = contents(chunks@);
                table.push(ChunkInfo { offset, size: v.len(), compressor });
                offset = offset.saturating_add(v.len());
                chunks.push(v);
                assert(contents(chunks@).drop_last() =~= before);
                assert(forall|j: int| 0 <= j <= i ==> #[trigger] contents(chunks@).subrange(0, j)
                    =~= before.subrange(0, j));
                assert(before.subrange(0, i as int) =~= before);
            },
            Err(e) => {
                proof {
                    let front = all.subrange(0, i as int);
                    assert forall|j: int| 0 <= j < front.len() implies (
                    #[trigger] front[j]) is Ok by {
                        assert(parts@[j] == Ok::<Vec<u8>, SnappyError>(chunks@[j]));
                    }
                    lemma_no_error(front);
                    assert(all.subrange(0, i + 1).drop_last() =~= front);
                    lemma_first_error(all, i + 1);
                }
                return Err(e);
            },
        }
        i = i + 1;
    }
    proof {
        assert forall|j: int| 0 <= j < all.len() implies (#[trigger] all[j]) is Ok by {
            assert(parts@[j] == Ok::<Vec<u8>, SnappyError>(chunks@[j]));
        }
        lemma_no_error(all);
        assert(table@ =~= chunk_table(contents(chunks@), use_snappy));
    }
    Ok((chunks, table))
}

/// Cuts a buffer into `chunk_count` pieces and stores each, compressed on all cores if so asked.
/// The chunks, read back by their table, give the buffer.
pub fn compress_chunks_parallel(raw_data: &[u8], chunk_count: usize, use_snappy: bool) -> (r:
    Result<(Vec<Vec<u8>>, Vec<ChunkInfo>), SnappyError>)
    ensures
        r is Ok <==> storable(raw_data@.len() as int, chunk_count as int, use_snappy),
        1 <= chunk_count <= raw_data@.len() ==> (r matches Ok((chunks, table)) ==> chunks@.len()
            == chunk_count && table@.len() == chunk_count),
        match r {
            Ok((chunks, table)) => {
                &&& contents(chunks@) == stored_chunks(raw_data@, chunk_count as int, use_snappy)
                &&& table@ == chunk_table(contents(chunks@), use_snappy)
                &&& joined(contents(chunks@)).len() <= stored_limit(
                    raw_data@.len() as int,
                    piece_count(raw_data@.len() as int, chunk_count as int),
                    use_snappy,
                )
                &&& joined(contents(chunks@)).len() <= usize::MAX ==> chunks_content(
                    joined(contents(chunks@)),
                    table@,
                ) == Ok::<Seq<u8>, SnappyFault>(raw_data@)
            },
            Err(e) => e@ == SnappyFault::Codec,
        },
{
    let len: usize = raw_data.len();
    if len == 0 {
        let chunks: Vec<Vec<u8>> = Vec::new();
        let table: Vec<ChunkInfo> = Vec::new();
        assert(raw_data@ =~= Seq::<u8>::empty());
        assert(contents(chunks@) =~= stored_chunks(raw_data@, chunk_count as int, use_snappy));
        assert(table@ =~= chunk_table(contents(chunks@), use_snappy));
        return Ok((chunks, table));
    }
    let most: usize = if chunk_count < 1 { 1 } else { chunk_count };
    let count: usize = if most > len { len } else { most };
    let ghost n = piece_count(len as int, chunk_count as int);
    let make = |i: usize| -> (part: ChunkOutcome)
        requires
            i < count,
        ensures
            holds_piece(part, piece(raw_data@, n, i as int), use_snappy),
    {
        compress_piece(raw_data, count, i, use_snappy)
    };
    let parts = map_indices(count, make);
    let ghost made = parts@;
    let (chunks, table) = match tabulate(parts, use_snappy) {
        Ok(c) => c,
        Err(e) => {
            proof {
                let j = lemma_has_error(outcomes(made));
                assert(holds_piece(made[j], piece(raw_data@, n, j), use_snappy));
                lemma_pieces(len as int, n, j);
            }
            return Err(e);
        },
    };
    proof {
        let all = contents(chunks@);
        assert forall|j: int| 0 <= j < count implies (use_snappy ==> unpacked(#[trigger] all[j])
            == Ok::<Seq<u8>, SnappyFault>(piece(raw_data@, n, j))) && all[j] == stored(
            piece(raw_data@, n, j),
            use_snappy,
        ) && (use_snappy ==> all[j].len() <= compressed_limit(
            piece(raw_data@, n, j).len() as int,
        )) by {
            assert(made[j] == Ok::<Vec<u8>, SnappyError>(chunks@[j]));
            assert(holds_piece(made[j], piece(raw_data@, n, j), use_snappy));
        }
        assert(all =~= stored_chunks(raw_data@, chunk_count as int, use_snappy));
        assert(table@ =~= chunk_table(all, use_snappy));
        lemma_stored_len(raw_data@, chunk_count as int, use_snappy, n);
        assert(all.subrange(0, n) =~= all);
        lemma_pieces(len as int, n, 0);
        if use_snappy {
            assert(made[0] == Ok::<Vec<u8>, SnappyError>(chunks@[0]));
            assert(holds_piece(made[0], piece(raw_data@, n, 0), use_snappy));
        }
        if joined(all).len() <= usize::MAX {
            lemma_chunks_hold(raw_data@, chunk_count as int, use_snappy, n);
            assert(table@.subrange(0, n) =~= table@);
            assert(raw_data@.subrange(0, len as int) =~= raw_data@);
        }
    }
    Ok((chunks, table))
}

/// The outcome of storing a piece.
pub open spec fn holds_piece(part: ChunkOutcome, piece: Seq<u8>, use_snappy: bool) -> bool {
    match part {
        Ok(v) => {
            &&& use_snappy ==> compressed_limit(piece.len() as int) <= u32::MAX
            &&& v@ == stored(piece, use_snappy)
            &&& use_snappy ==> unpacked(v@) == Ok::<Seq<u8>, SnappyFault>(piece)
            &&& use_snappy ==> v@.len() <= compressed_limit(piece.len() as int)
        },
        Err(e) => {
            &&& use_snappy
            &&& compressed_limit(piece.len() as int) > u32::MAX
            &&& e@ == SnappyFault::Codec
        },
    }
}

/// Where the parts of a joined sequence lie.
pub proof fn lemma_joined(parts: Seq<Seq<u8>>, i: int)
    requires
        0 <= i < parts.len(),
    ensures
        joined(parts.subrange(0, i)).len() + parts[i].len() <= joined(parts).len(),
        joined(parts).subrange(
            joined(parts.subrange(0, i)).len() as int,
            joined(parts.subrange(0, i)).len() as int + parts[i].len(),
        ) == parts[i],
    decreases parts.len(),
{
    let front = parts.drop_last();
    let whole = joined(parts);
    if i < parts.len() - 1 {
        lemma_joined(front, i);
        assert(front.subrange(0, i) =~= parts.subrange(0, i));
        let a = joined(parts.subrange(0, i)).len() as int;
        assert(whole.subrange(a, a + parts[i].len()) =~= joined(front).subrange(
            a,
            a + parts[i].len(),
        ));
    } else {
        assert(parts.subrange(0, i) =~= front);
        let a = joined(front).len() as int;
        assert(whole.subrange(a, a + parts[i].len()) =~= parts[i]);
    }
}

/// The first `n` chunks take no more bytes than the first `n` pieces can.
proof fn lemma_stored_len(raw: Seq<u8>, chunk_count: int, use_snappy: bool, n: int)
    requires
        raw.len() > 0,
        0 <= n <= piece_count(raw.len() as int, chunk_count),
        use_snappy ==> forall|i: int|
            0 <= i < piece_count(raw.len() as int, chunk_count) ==> (
            #[trigger] stored_chunks(raw, chunk_count, use_snappy)[i]).len() <= compressed_limit(
                piece(raw, piece_count(raw.len() as int, chunk_count), i).len() as int,
            ),
    ensures
        joined(stored_chunks(raw, chunk_count, use_snappy).subrange(0, n)).len() <= stored_limit(
            piece_start(raw.len() as int, piece_count(raw.len() as int, chunk_count), n),
            n,
            use_snappy,
        ),
    decreases n,
{
    let len = raw.len() as int;
    let count = piece_count(len, chunk_count);
    let chunks = stored_chunks(raw, chunk_count, use_snappy);
    lemma_pieces(len, count, 0);
    if n > 0 {
        lemma_stored_len(raw, chunk_count, use_snappy, n - 1);
        lemma_pieces(len, count, n - 1);
        let front = chunks.subrange(0, n);
        assert(front.drop_last() =~= chunks.subrange(0, n - 1));
        assert(front.last() == chunks[n - 1]);
        assert(chunks[n - 1] == stored(piece(raw, count, n - 1), use_snappy));
    }
}

/// The first `n` chunks, read back by their table, give the first `n` pieces.
proof fn lemma_chunks_hold(raw: Seq<u8>, chunk_count: int, use_snappy: bool, n: int)
    requires
        raw.len() > 0,
        joined(stored_chunks(raw, chunk_count, use_snappy)).len() <= usize::MAX,
        0 <= n <= piece_count(raw.len() as int, chunk_count),
        use_snappy ==> forall|i: int|
            0 <= i < piece_count(raw.len() as int, chunk_count) ==> unpacked(
                #[trigger] stored_chunks(raw, chunk_count, use_snappy)[i],
            ) == Ok::<Seq<u8>, SnappyFault>(
                piece(raw, piece_count(raw.len() as int, chunk_count), i),
            ),
    ensures
        ({
            let chunks = stored_chunks(raw, chunk_count, use_snappy);
            chunks_content(joined(chunks), chunk_table(chunks, use_snappy).subrange(0, n)) == Ok::<
                Seq<u8>,
                SnappyFault,
            >(
                raw.subrange(
                    0,
                    piece_start(
                        raw.len() as int,
                        piece_count(raw.len() as int, chunk_count),
                        n,
                    ),
                ),
            )
        }),
    decreases n,
{
    let len = raw.len() as int;
    let count = piece_count(len, chunk_count);
    let chunks = stored_chunks(raw, chunk_count, use_snappy);
    let table = chunk_table(chunks, use_snappy);
    let whole = joined(chunks);
    if n == 0 {
        lemma_pieces(len, count, 0);
        assert(raw.subrange(0, 0) =~= Seq::<u8>::empty());
        assert(table.subrange(0, 0) =~= Seq::<ChunkInfo>::empty());
    } else {
        lemma_chunks_hold(raw, chunk_count, use_snappy, n - 1);
        lemma_pieces(len, count, n - 1);
        lemma_joined(chunks, n - 1);
        assert(table.subrange(0, n).drop_last() =~= table.subrange(0, n - 1));
        let c = table[n - 1];
        assert(table.subrange(0, n).last() == c);
        let front = raw.subrange(0, piece_start(len, count, n - 1));
        let p = piece(raw, count, n - 1);
        assert(chunks[n - 1] == stored(p, use_snappy));
        assert(chunk_content(whole, c) == Ok::<Seq<u8>, SnappyFault>(p));
        assert(front + p =~= raw.subrange(0, piece_start(len, count, n)));
    }
}

/// The chunk holds `part`, and the part holds `content`: itself, or what Snappy makes of it if the
/// compressor is 0x0B.
pub open spec fn reads_as(
    payload: Seq<u8>,
    chunk: ChunkInfo,
    part: Seq<u8>,
    content: Seq<u8>,
) -> bool {
    &&& chunk.size == part.len()
    &&& chunk.offset + chunk.size <= payload.len()
    &&& payload.subrange(chunk.offset as int, chunk.offset + chunk.size) == part
    &&& if chunk.compressor == 0x0B {
        snappy_decompressed(part) == Some(content)
    } else {
        content == part
    }
}

/// Chunks are read at their offsets, wherever those are, each as its compressor says, and what
/// they hold is joined in the order of the table.
#[verifier::spinoff_prover]
#[verifier::rlimit(40)]
pub proof fn law_chunks_joined_in_order(
    payload: Seq<u8>,
    chunks: Seq<ChunkInfo>,
    parts: Seq<Seq<u8>>,
    pieces: Seq<Seq<u8>>,
)
    requires
        parts.len() == chunks.len(),
        pieces.len() == chunks.len(),
        forall|i: int|
            0 <= i < chunks.len() ==> reads_as(payload, #[trigger] chunks[i], parts[i], pieces[i]),
    ensures
        chunks_content(payload, chunks) == Ok::<Seq<u8>, SnappyFault>(joined(pieces)),
    decreases chunks.len(),
{
    if chunks.len() > 0 {
        let n = chunks.len() - 1;
        let front = chunks.drop_last();
        assert forall|i: int| 0 <= i < front.len() implies reads_as(
            payload,
            #[trigger] front[i],
            parts.drop_last()[i],
            pieces.drop_last()[i],
        ) by {
            assert(reads_as(payload, chunks[i], parts[i], pieces[i]));
        }
        law_chunks_joined_in_order(payload, front, parts.drop_last(), pieces.drop_last());
        assert(reads_as(payload, chunks[n], parts[n], pieces[n]));
    }
}

/// Joining puts the parts one after the other, the first at the start, and adds nothing.
pub proof fn law_joined(parts: Seq<Seq<u8>>, part: Seq<u8>)
    ensures
        joined(Seq::<Seq<u8>>::empty()) == Seq::<u8>::empty(),
        joined(seq![part] + parts) == part + joined(parts),
        joined(parts.push(part)) == joined(parts) + part,
    decreases parts.len(),
{
    assert(parts.push(part).drop_last() =~= parts);
    if parts.len() == 0 {
        assert((seq![part] + parts).drop_last() =~= parts);
        assert(joined(seq![part] + parts) =~= part + joined(parts));
    } else {
        law_joined(parts.drop_last(), part);
        assert((seq![part] + parts).drop_last() =~= seq![part] + parts.drop_last());
        assert((seq![part] + parts).last() == parts.last());
        assert(joined(seq![part] + parts) =~= part + joined(parts));
    }
}

/// A chunk that reaches past the end of the payload is refused, and with it the frame.
pub proof fn law_chunk_past_the_end(payload: Seq<u8>, chunks: Seq<ChunkInfo>, i: int)
    requires
        0 <= i < chunks.len(),
        chunks[i].offset + chunks[i].size > payload.len(),
    ensures
        chunks_content(payload, chunks) is Err,
    decreases chunks.len(),
{
    if i < chunks.len() - 1 {
        law_chunk_past_the_end(payload, chunks.drop_last(), i);
    }
}

/// The pieces of a buffer, in their order, are the buffer. There are as many as asked for, where
/// there are bytes for them, and at least one; no piece is empty, and none is larger than the
/// buffer divided by their number, rounded up.
#[verifier::spinoff_prover]
#[verifier::rlimit(40)]
pub proof fn law_pieces(raw: Seq<u8>, chunk_count: int)
    requires
        raw.len() > 0,
    ensures
        ({
            let n = piece_count(raw.len() as int, chunk_count);
            let pieces = Seq::new(n as nat, |i: int| piece(raw, n, i));
            &&& 1 <= chunk_count <= raw.len() ==> n == chunk_count
            &&& chunk_count < 1 ==> n == 1
            &&& chunk_count > raw.len() ==> n == raw.len()
            &&& joined(pieces) == raw
            &&& forall|i: int|
                0 <= i < n ==> 0 < (#[trigger] pieces[i]).len() && (pieces[i].len() - 1) * n
                    < raw.len()
        }),
{
    let len = raw.len() as int;
    let n = piece_count(len, chunk_count);
    let pieces = Seq::new(n as nat, |i: int| piece(raw, n, i));
    lemma_pieces_joined(raw, n, n);
    assert(pieces.subrange(0, n) =~= pieces);
    lemma_pieces(len, n, 0);
    assert(raw.subrange(0, len) =~= raw);
    let full = full_piece(len, n);
    assert((full - 1) * n < len) by (nonlinear_arith)
        requires
            full == (len + n - 1) / n,
            1 <= n,
            1 <= len,
    ;
    assert forall|i: int| 0 <= i < n implies 0 < (#[trigger] pieces[i]).len() && (pieces[i].len()
        - 1) * n < raw.len() by {
        lemma_pieces(len, n, i);
        let k = pieces[i].len() as int;
        assert((k - 1) * n <= (full - 1) * n) by (nonlinear_arith)
            requires
                k <= full,
                1 <= n,
        ;
    }
}

proof fn lemma_pieces_joined(raw: Seq<u8>, count: int, n: int)
    requires
        1 <= count <= raw.len(),
        0 <= n <= count,
    ensures
        joined(Seq::new(count as nat, |i: int| piece(raw, count, i)).subrange(0, n))
            == raw.subrange(0, piece_start(raw.len() as int, count, n)),
    decreases n,
{
    let len = raw.len() as int;
    let pieces = Seq::new(count as nat, |i: int| piece(raw, count, i));
    lemma_pieces(len, count, 0);
    if n == 0 {
        assert(pieces.subrange(0, 0) =~= Seq::<Seq<u8>>::empty());
        assert(raw.subrange(0, 0) =~= Seq::<u8>::empty());
    } else {
        lemma_pieces_joined(raw, count, n - 1);
        lemma_pieces(len, count, n - 1);
        assert(pieces.subrange(0, n).drop_last() =~= pieces.subrange(0, n - 1));
        assert(raw.subrange(0, piece_start(len, count, n - 1)) + piece(raw, count, n - 1)
            =~= raw.subrange(0, piece_start(len, count, n)));
    }
}

} // verus!
