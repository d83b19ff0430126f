//! BC7 (BPTC) encoding in mode 6 and decoding for Hap R.
//!
//! The encoder fits a line through the colours of a block along their principal axis, quantises
//! its ends, and refines them by least squares.

use crate::blocks::{block_row_line, decode_blocks, Codec};
use crate::parallel::{join_rows, map_indices};
use crate::single::Single;
use vstd::prelude::*;

verus! {

/// Errors of BC7 encoding and decoding.
#[derive(Debug, PartialEq, Eq)]
pub enum Bc7Error {
    /// The dimensions are not multiples of 4.
    InvalidDimensions { width: usize, height: usize },
    /// The input buffer has the wrong size.
    BufferSizeMismatch { expected: usize, actual: usize },
    /// The decoder cannot read the blocks.
    DecompressFailed(String),
}

/// The interpolation weights of four-bit indices, out of 64.
pub const WEIGHTS4: [u32; 16] = [0, 4, 9, 13, 17, 21, 26, 30, 34, 38, 43, 47, 51, 55, 60, 64];

// ---------------------------------------------------------------------------------------------
// The principal axis of a block. A block is 16 pixels of four bytes.
// ---------------------------------------------------------------------------------------------

/// The channel `c` of pixel `i`.
pub open spec fn value(px: Seq<u8>, i: int, c: int) -> Single {
    crate::single::whole_number(px[4 * i + c] as int)
}

/// The sum of a channel over the first `n` pixels.
pub open spec fn channel_sum(px: Seq<u8>, c: int, n: int) -> Single
    decreases n,
{
    if n <= 0 {
        crate::single::whole_number(0)
    } else {
        crate::single::sum(channel_sum(px, c, n - 1), value(px, n - 1, c))
    }
}

/// The mean of a channel.
pub open spec fn mean(px: Seq<u8>, c: int) -> Single {
    crate::single::quotient(channel_sum(px, c, 16), crate::single::whole_number(16))
}

/// How far a pixel lies from the mean in one channel.
pub open spec fn offset(px: Seq<u8>, i: int, c: int) -> Single {
    crate::single::difference(value(px, i, c), mean(px, c))
}

/// The covariance of two channels over the first `n` pixels, times `n`.
pub open spec fn covariance(px: Seq<u8>, a: int, b: int, n: int) -> Single
    decreases n,
{
    if n <= 0 {
        crate::single::whole_number(0)
    } else {
        crate::single::sum(
            covariance(px, a, b, n - 1),
            crate::single::product(offset(px, n - 1, a), offset(px, n - 1, b)),
        )
    }
}

/// The smallest value of a channel among the first `n` pixels.
pub open spec fn lowest(px: Seq<u8>, c: int, n: int) -> Single
    decreases n,
{
    if n <= 0 {
        crate::single::whole_number(255)
    } else {
        crate::single::minimum(lowest(px, c, n - 1), value(px, n - 1, c))
    }
}

/// The largest value of a channel among the first `n` pixels.
pub open spec fn highest(px: Seq<u8>, c: int, n: int) -> Single
    decreases n,
{
    if n <= 0 {
        crate::single::whole_number(0)
    } else {
        crate::single::maximum(highest(px, c, n - 1), value(px, n - 1, c))
    }
}

/// The extent of a channel.
pub open spec fn extent(px: Seq<u8>, c: int) -> Single {
    crate::single::difference(highest(px, c, 16), lowest(px, c, 16))
}

/// The first `n` terms of row `i` of the covariance matrix times a vector.
pub open spec fn stretched(px: Seq<u8>, axis: Seq<Single>, i: int, n: int) -> Single
    decreases n,
{
    if n <= 0 {
        crate::single::whole_number(0)
    } else {
        crate::single::sum(
            stretched(px, axis, i, n - 1),
            crate::single::product(covariance(px, i, n - 1, 16), axis[n - 1]),
        )
    }
}

/// The covariance matrix times a vector.
pub open spec fn stretch(px: Seq<u8>, axis: Seq<Single>) -> Seq<Single> {
    Seq::new(4, |i: int| stretched(px, axis, i, 4))
}

/// The scalar product of two vectors of four.
pub open spec fn dot(a: Seq<Single>, b: Seq<Single>) -> Single {
    crate::single::sum(
        crate::single::sum(
            crate::single::sum(
                crate::single::product(a[0], b[0]),
                crate::single::product(a[1], b[1]),
            ),
            crate::single::product(a[2], b[2]),
        ),
        crate::single::product(a[3], b[3]),
    )
}

/// A vector divided by a length.
pub open spec fn shortened(v: Seq<Single>, length: Single) -> Seq<Single> {
    Seq::new(4, |c: int| crate::single::quotient(v[c], length))
}

/// At most `n` steps of power iteration towards the principal axis. It ends early where the
/// vector vanishes.
pub open spec fn iterated(px: Seq<u8>, axis: Seq<Single>, n: int) -> Seq<Single>
    decreases n,
{
    if n <= 0 {
        axis
    } else {
        let next = stretch(px, axis);
        let length = crate::single::root(dot(next, next));
        if crate::single::less(crate::single::ratio(1, 10000), length) {
            iterated(px, shortened(next, length), n - 1)
        } else {
            axis
        }
    }
}

/// The extents of the four channels.
pub open spec fn extents(px: Seq<u8>) -> Seq<Single> {
    Seq::new(4, |c: int| extent(px, c))
}

/// The principal axis.
pub open spec fn principal_axis(px: Seq<u8>) -> Seq<Single> {
    iterated(px, extents(px), 8)
}

/// The offsets of a pixel from the mean.
pub open spec fn offsets_of(px: Seq<u8>, i: int) -> Seq<Single> {
    Seq::new(4, |c: int| offset(px, i, c))
}

/// The largest finite value.
pub open spec fn largest() -> Single {
    Single::Finite { neg: false, mant: 0xff_ffff, exp: 104 }
}

/// The least position along an axis among the first `n` pixels.
pub open spec fn least_position(px: Seq<u8>, axis: Seq<Single>, n: int) -> Single
    decreases n,
{
    if n <= 0 {
        largest()
    } else {
        crate::single::minimum(
            least_position(px, axis, n - 1),
            dot(offsets_of(px, n - 1), axis),
        )
    }
}

/// The greatest position along an axis among the first `n` pixels.
pub open spec fn greatest_position(px: Seq<u8>, axis: Seq<Single>, n: int) -> Single
    decreases n,
{
    if n <= 0 {
        crate::single::negated(largest())
    } else {
        crate::single::maximum(
            greatest_position(px, axis, n - 1),
            dot(offsets_of(px, n - 1), axis),
        )
    }
}

/// A value limited to the range of a byte.
pub open spec fn in_byte_range(v: Single) -> Single {
    crate::single::clamped(
        v,
        crate::single::whole_number(0),
        crate::single::whole_number(255),
    )
}

/// The point at position `t` of an axis through the mean.
pub open spec fn point_at(px: Seq<u8>, axis: Seq<Single>, t: Single) -> Seq<Single> {
    Seq::new(
        4,
        |c: int|
            in_byte_range(
                crate::single::sum(mean(px, c), crate::single::product(t, axis[c])),
            ),
    )
}

/// All elements are proper values.
pub open spec fn all_wf(v: Seq<Single>) -> bool {
    forall|k: int| 0 <= k < v.len() ==> (#[trigger] v[k]).wf()
}

/// The means of the four channels.
fn means(px: &[u8]) -> (out: Vec<Single>)
    requires
        px@.len() == 64,
    ensures
        out@.len() == 4,
        all_wf(out@),
        forall|c: int| 0 <= c < 4 ==> #[trigger] out@[c] == mean(px@, c),
{
    let mut out: Vec<Single> = Vec::new();
    let mut c: usize = 0;
    while c < 4
        invariant
            c <= 4,
            px@.len() == 64,
            out@.len() == c,
            all_wf(out@),
            forall|k: int| 0 <= k < c ==> #[trigger] out@[k] == mean(px@, k),
        decreases 4 - c,
    {
        let mut total = Single::from_u32(0);
        let mut i: usize = 0;
        while i < 16
            invariant
                i <= 16,
                c < 4,
                px@.len() == 64,
                total == channel_sum(px@, c as int, i as int),
                total.wf(),
            decreases 16 - i,
        {
            total = total.plus(Single::from_u32(px[4 * i + c] as u32));
            i = i + 1;
        }
        out.push(total.over(Single::from_u32(16)));
        c = c + 1;
    }
    out
}

/// The offsets of all pixels from the means.
fn all_offsets(px: &[u8], means: &Vec<Single>) -> (out: Vec<Single>)
    requires
        px@.len() == 64,
        means@.len() == 4,
        all_wf(means@),
        forall|c: int| 0 <= c < 4 ==> #[trigger] means@[c] == mean(px@, c),
    ensures
        out@.len() == 64,
        all_wf(out@),
        forall|k: int| 0 <= k < 64 ==> #[trigger] out@[k] == offset(px@, k / 4, k % 4),
{
    let mut out: Vec<Single> = Vec::new();
    let mut k: usize = 0;
    while k < 64
        invariant
            k <= 64,
            px@.len() == 64,
            means@.len() == 4,
            all_wf(means@),
            forall|c: int| 0 <= c < 4 ==> #[trigger] means@[c] == mean(px@, c),
            out@.len() == k,
            all_wf(out@),
            forall|j: int| 0 <= j < k ==> #[trigger] out@[j] == offset(px@, j / 4, j % 4),
        decreases 64 - k,
    {
        assert(4 * (k as int / 4) + k as int % 4 == k);
        out.push(Single::from_u32(px[k] as u32).minus(means[k % 4]));
        k = k + 1;
    }
    out
}

/// The covariance matrix, row by row.
fn covariances(px: Ghost<Seq<u8>>, offsets: &Vec<Single>) -> (out: Vec<Single>)
    requires
        offsets@.len() == 64,
        all_wf(offsets@),
        forall|k: int| 0 <= k < 64 ==> #[trigger] offsets@[k] == offset(px@, k / 4, k % 4),
    ensures
        out@.len() == 16,
        all_wf(out@),
        forall|k: int| 0 <= k < 16 ==> #[trigger] out@[k] == covariance(px@, k / 4, k % 4, 16),
{
    let mut out: Vec<Single> = Vec::new();
    let mut k: usize = 0;
    while k < 16
        invariant
            k <= 16,
            offsets@.len() == 64,
            all_wf(offsets@),
            forall|j: int| 0 <= j < 64 ==> #[trigger] offsets@[j] == offset(px@, j / 4, j % 4),
            out@.len() == k,
            all_wf(out@),
            forall|j: int| 0 <= j < k ==> #[trigger] out@[j] == covariance(px@, j / 4, j % 4, 16),
        decreases 16 - k,
    {
        let a: usize = k / 4;
        let b: usize = k % 4;
        let mut total = Single::from_u32(0);
        let mut i: usize = 0;
        while i < 16
            invariant
                i <= 16,
                a < 4,
                b < 4,
                offsets@.len() == 64,
                all_wf(offsets@),
                forall|j: int| 0 <= j < 64 ==> #[trigger] offsets@[j] == offset(px@, j / 4, j % 4),
                total == covariance(px@, a as int, b as int, i as int),
                total.wf(),
            decreases 16 - i,
        {
            total = total.plus(offsets[4 * i + a].times(offsets[4 * i + b]));
            i = i + 1;
        }
        out.push(total);
        k = k + 1;
    }
    out
}

/// The extents of the four channels.
fn channel_extents(px: &[u8]) -> (out: Vec<Single>)
    requires
        px@.len() == 64,
    ensures
        out@ == extents(px@),
        all_wf(out@),
{
    let mut out: Vec<Single> = Vec::new();
    let mut c: usize = 0;
    while c < 4
        invariant
            c <= 4,
            px@.len() == 64,
            out@.len() == c,
            all_wf(out@),
            forall|k: int| 0 <= k < c ==> #[trigger] out@[k] == extent(px@, k),
        decreases 4 - c,
    {
        let mut low = Single::from_u32(255);
        let mut high = Single::from_u32(0);
        let mut i: usize = 0;
        while i < 16
            invariant
                i <= 16,
                c < 4,
                px@.len() == 64,
                low == lowest(px@, c as int, i as int),
                low.wf(),
                high == highest(px@, c as int, i as int),
                high.wf(),
            decreases 16 - i,
        {
            let v = Single::from_u32(px[4 * i + c] as u32);
            low = low.min(v);
            high = high.max(v);
            i = i + 1;
        }
        out.push(high.minus(low));
        c = c + 1;
    }
    assert(out@ =~= extents(px@));
    out
}

/// The covariance matrix times a vector.
fn stretch_exec(px: Ghost<Seq<u8>>, matrix: &Vec<Single>, axis: &Vec<Single>) -> (out: Vec<Single>)
    requires
        matrix@.len() == 16,
        all_wf(matrix@),
        forall|k: int| 0 <= k < 16 ==> #[trigger] matrix@[k] == covariance(px@, k / 4, k % 4, 16),
        axis@.len() == 4,
        all_wf(axis@),
    ensures
        out@ == stretch(px@, axis@),
        all_wf(out@),
{
    let mut out: Vec<Single> = Vec::new();
    let mut i: usize = 0;
    while i < 4
        invariant
            i <= 4,
            matrix@.len() == 16,
            all_wf(matrix@),
            forall|k: int|
                0 <= k < 16 ==> #[trigger] matrix@[k] == covariance(px@, k / 4, k % 4, 16),
            axis@.len() == 4,
            all_wf(axis@),
            out@.len() == i,
            all_wf(out@),
            forall|k: int| 0 <= k < i ==> #[trigger] out@[k] == stretched(px@, axis@, k, 4),
        decreases 4 - i,
    {
        let mut total = Single::from_u32(0);
        let mut j: usize = 0;
        while j < 4
            invariant
                j <= 4,
                i < 4,
                matrix@.len() == 16,
                all_wf(matrix@),
                forall|k: int|
                    0 <= k < 16 ==> #[trigger] matrix@[k] == covariance(px@, k / 4, k % 4, 16),
                axis@.len() == 4,
                all_wf(axis@),
                total == stretched(px@, axis@, i as int, j as int),
                total.wf(),
            decreases 4 - j,
        {
            total = total.plus(matrix[4 * i + j].times(axis[j]));
            j = j + 1;
        }
        out.push(total);
        i = i + 1;
    }
    assert(out@ =~= stretch(px@, axis@));
    out
}

/// The scalar product of two vectors of four.
fn dot_exec(a: &[Single], b: &[Single]) -> (r: Single)
    requires
        a@.len() == 4,
        b@.len() == 4,
        all_wf(a@),
        all_wf(b@),
    ensures
        r == dot(a@, b@),
        r.wf(),
{
    a[0].times(b[0]).plus(a[1].times(b[1])).plus(a[2].times(b[2])).plus(a[3].times(b[3]))
}

/// The principal axis.
fn find_axis(px: Ghost<Seq<u8>>, matrix: &Vec<Single>, start: Vec<Single>) -> (out: Vec<Single>)
    requires
        matrix@.len() == 16,
        all_wf(matrix@),
        forall|k: int| 0 <= k < 16 ==> #[trigger] matrix@[k] == covariance(px@, k / 4, k % 4, 16),
        start@ == extents(px@),
        all_wf(start@),
    ensures
        out@ == principal_axis(px@),
        out@.len() == 4,
        all_wf(out@),
{
    let mut axis = start;
    let threshold = Single::from_ratio(1, 10000);
    let mut left: u32 = 8;
    while left > 0
        invariant
            left <= 8,
            matrix@.len() == 16,
            all_wf(matrix@),
            forall|k: int|
                0 <= k < 16 ==> #[trigger] matrix@[k] == covariance(px@, k / 4, k % 4, 16),
            axis@.len() == 4,
            all_wf(axis@),
            threshold == crate::single::ratio(1, 10000),
            threshold.wf(),
            iterated(px@, axis@, left as int) == principal_axis(px@),
        decreases left,
    {
        let next = stretch_exec(px, matrix, &axis);
        let length = dot_exec(next.as_slice(), next.as_slice()).sqrt();
        if !threshold.lt(length) {
            return axis;
        }
        let mut shorter: Vec<Single> = Vec::new();
        let mut c: usize = 0;
        while c < 4
            invariant
                c <= 4,
                next@.len() == 4,
                all_wf(next@),
                length.wf(),
                shorter@.len() == c,
                all_wf(shorter@),
                forall|k: int|
                    0 <= k < c ==> #[trigger] shorter@[k] == crate::single::quotient(
                        next@[k],
                        length,
                    ),
            decreases 4 - c,
        {
            shorter.push(next[c].over(length));
            c = c + 1;
        }
        assert(shorter@ =~= shortened(next@, length));
        axis = shorter;
        left = left - 1;
    }
    axis
}

// ---------------------------------------------------------------------------------------------
// Endpoints and the palette between them.
// ---------------------------------------------------------------------------------------------

/// An end of the line through a block: seven bits for each channel, and one bit that they share
/// as their lowest.
#[derive(Debug, Clone, Copy, PartialEq, Eq)]
pub struct Endpoint {
    pub r: u8,
    pub g: u8,
    pub b: u8,
    pub a: u8,
    pub p: u8,
}

impl Endpoint {
    /// The seven bits of a channel.
    pub open spec fn high_bits(self, c: int) -> int {
        (if c == 0 {
            self.r
        } else if c == 1 {
            self.g
        } else if c == 2 {
            self.b
        } else {
            self.a
        }) as int
    }

    /// The fields have as many bits as they should.
    pub open spec fn in_range(self) -> bool {
        self.r < 128 && self.g < 128 && self.b < 128 && self.a < 128 && self.p < 2
    }

    /// The eight bits of a channel.
    pub open spec fn level(self, c: int) -> int {
        2 * self.high_bits(c) + self.p
    }

    /// The eight bits of a channel.
    fn dequantize_channel(self, c: usize) -> (v: i32)
        requires
            self.in_range(),
            c < 4,
        ensures
            v == self.level(c as int),
            0 <= v <= 255,
    {
        let q: u8 = if c == 0 {
            self.r
        } else if c == 1 {
            self.g
        } else if c == 2 {
            self.b
        } else {
            self.a
        };
        2 * q as i32 + self.p as i32
    }
}

/// The integer nearest to a value.
pub open spec fn level_of(v: Single) -> int {
    crate::single::nearest_within(v, i32::MIN as int, i32::MAX as int)
}

/// The seven high bits of the byte nearest to a value.
pub open spec fn high_bits_of(v: Single) -> u8 {
    (crate::color::clamp_byte(level_of(v)) / 2) as u8
}

/// A point as an endpoint. The shared bit is set if any channel is odd.
pub open spec fn quantized(point: Seq<Single>) -> Endpoint {
    Endpoint {
        r: high_bits_of(point[0]),
        g: high_bits_of(point[1]),
        b: high_bits_of(point[2]),
        a: high_bits_of(point[3]),
        p: if level_of(point[0]) % 2 != 0 || level_of(point[1]) % 2 != 0 || level_of(point[2]) % 2
            != 0 || level_of(point[3]) % 2 != 0 {
            1
        } else {
            0
        },
    }
}

/// The two ends of the line through the mean along the principal axis.
pub open spec fn fitted(px: Seq<u8>) -> (Endpoint, Endpoint) {
    let axis = principal_axis(px);
    (
        quantized(point_at(px, axis, least_position(px, axis, 16))),
        quantized(point_at(px, axis, greatest_position(px, axis, 16))),
    )
}

fn level_bits(v: Single) -> (r: (u8, bool))
    requires
        v.wf(),
    ensures
        r.0 == high_bits_of(v),
        r.0 < 128,
        r.1 == (level_of(v) % 2 != 0),
{
    let n: i32 = v.round_i32();
    let clamped: i32 = if n < 0 {
        0
    } else if n > 255 {
        255
    } else {
        n
    };
    let odd: bool = n % 2 != 0;
    ((clamped / 2) as u8, odd)
}

/// A point as an endpoint.
fn quantize_ep(point: &[Single]) -> (e: Endpoint)
    requires
        point@.len() == 4,
        all_wf(point@),
    ensures
        e == quantized(point@),
        e.in_range(),
{
    let (r, odd_r) = level_bits(point[0]);
    let (g, odd_g) = level_bits(point[1]);
    let (b, odd_b) = level_bits(point[2]);
    let (a, odd_a) = level_bits(point[3]);
    let p: u8 = if odd_r || odd_g || odd_b || odd_a { 1 } else { 0 };
    Endpoint { r, g, b, a, p }
}

fn clamp_to_byte_range(v: Single) -> (r: Single)
    requires
        v.wf(),
    ensures
        r == in_byte_range(v),
        r.wf(),
{
    v.clamp(Single::from_u32(0), Single::from_u32(255))
}

/// The point at a position of an axis through the mean.
fn point_exec(
    px: Ghost<Seq<u8>>,
    means: &Vec<Single>,
    axis: &Vec<Single>,
    t: Single,
) -> (out: Vec<Single>)
    requires
        means@.len() == 4,
        all_wf(means@),
        forall|c: int| 0 <= c < 4 ==> #[trigger] means@[c] == mean(px@, c),
        axis@.len() == 4,
        all_wf(axis@),
        t.wf(),
    ensures
        out@ == point_at(px@, axis@, t),
        all_wf(out@),
{
    let mut out: Vec<Single> = Vec::new();
    let mut c: usize = 0;
    while c < 4
        invariant
            c <= 4,
            means@.len() == 4,
            all_wf(means@),
            forall|k: int| 0 <= k < 4 ==> #[trigger] means@[k] == mean(px@, k),
            axis@.len() == 4,
            all_wf(axis@),
            t.wf(),
            out@.len() == c,
            all_wf(out@),
            forall|k: int|
                0 <= k < c ==> #[trigger] out@[k] == in_byte_range(
                    crate::single::sum(mean(px@, k), crate::single::product(t, axis@[k])),
                ),
        decreases 4 - c,
    {
        out.push(clamp_to_byte_range(means[c].plus(t.times(axis[c]))));
        c = c + 1;
    }
    assert(out@ =~= point_at(px@, axis@, t));
    out
}

/// The two ends of the line through the mean along the principal axis.
fn fit(px: &[u8]) -> (out: (Endpoint, Endpoint))
    requires
        px@.len() == 64,
    ensures
        out == fitted(px@),
        out.0.in_range(),
        out.1.in_range(),
{
    let means = means(px);
    let offsets = all_offsets(px, &means);
    let matrix = covariances(Ghost(px@), &offsets);
    let axis = find_axis(Ghost(px@), &matrix, channel_extents(px));
    let mut low = Single::Finite { neg: false, mant: 0xff_ffff, exp: 104 };
    let mut high = Single::Finite { neg: true, mant: 0xff_ffff, exp: 104 };
    let mut i: usize = 0;
    while i < 16
        invariant
            i <= 16,
            offsets@.len() == 64,
            all_wf(offsets@),
            forall|k: int| 0 <= k < 64 ==> #[trigger] offsets@[k] == offset(px@, k / 4, k % 4),
            axis@.len() == 4,
            all_wf(axis@),
            low == least_position(px@, axis@, i as int),
            low.wf(),
            high == greatest_position(px@, axis@, i as int),
            high.wf(),
        decreases 16 - i,
    {
        let d = vstd::slice::slice_subrange(offsets.as_slice(), 4 * i, 4 * i + 4);
        proof {
            assert(forall|c: int| 0 <= c < 4 ==> #[trigger] d@[c] == offsets@[4 * i + c]);
            assert(d@ =~= offsets_of(px@, i as int));
        }
        let t = dot_exec(d, axis.as_slice());
        low = low.min(t);
        high = high.max(t);
        i = i + 1;
    }
    let first = point_exec(Ghost(px@), &means, &axis, low);
    let second = point_exec(Ghost(px@), &means, &axis, high);
    (quantize_ep(first.as_slice()), quantize_ep(second.as_slice()))
}

/// The palette entry `k` between two endpoints, in one channel.
pub open spec fn palette(first: Endpoint, second: Endpoint, k: int, c: int) -> int {
    let w = WEIGHTS4@[k] as int;
    ((64 - w) * first.level(c) + w * second.level(c) + 32) / 64
}

pub open spec fn square(v: int) -> int {
    v * v
}

/// The squared distance of pixel `i` from palette entry `k`.
pub open spec fn distance(px: Seq<u8>, i: int, first: Endpoint, second: Endpoint, k: int) -> int {
    square(px[4 * i] - palette(first, second, k, 0)) + square(
        px[4 * i + 1] - palette(first, second, k, 1),
    ) + square(px[4 * i + 2] - palette(first, second, k, 2)) + square(
        px[4 * i + 3] - palette(first, second, k, 3),
    )
}

/// The first of the closest entries to pixel `i` among the first `n` of the palette.
pub open spec fn closest(px: Seq<u8>, i: int, first: Endpoint, second: Endpoint, n: int) -> int
    decreases n,
{
    if n <= 1 {
        0
    } else {
        let best = closest(px, i, first, second, n - 1);
        if distance(px, i, first, second, n - 1) < distance(px, i, first, second, best) {
            n - 1
        } else {
            best
        }
    }
}

/// The palette index of every pixel.
pub open spec fn indices_of(px: Seq<u8>, first: Endpoint, second: Endpoint) -> Seq<u8> {
    Seq::new(16, |i: int| closest(px, i, first, second, 16) as u8)
}

/// A pixel is given the closest palette entry, and the first of those equally close.
pub proof fn law_closest(px: Seq<u8>, i: int, first: Endpoint, second: Endpoint, n: int, k: int)
    requires
        0 <= k < n <= 16,
    ensures
        ({
            let best = closest(px, i, first, second, n);
            &&& 0 <= best < n
            &&& distance(px, i, first, second, best) <= distance(px, i, first, second, k)
            &&& k < best ==> distance(px, i, first, second, best) < distance(
                px,
                i,
                first,
                second,
                k,
            )
        }),
    decreases n,
{
    if n > 1 {
        if k < n - 1 {
            law_closest(px, i, first, second, n - 1, k);
        } else {
            law_closest(px, i, first, second, n - 1, 0);
        }
        let before = closest(px, i, first, second, n - 1);
        if k < n - 1 && before < n - 1 {
            law_closest(px, i, first, second, n - 1, before);
        }
    }
}

proof fn lemma_palette(first: Endpoint, second: Endpoint, k: int, c: int)
    requires
        first.in_range(),
        second.in_range(),
        0 <= k < 16,
    ensures
        0 <= palette(first, second, k, c) <= 255,
        0 <= WEIGHTS4@[k] <= 64,
{
    let w = WEIGHTS4@[k] as int;
    assert(0 <= w <= 64);
    let a = first.level(c);
    let b = second.level(c);
    assert(0 <= a <= 255 && 0 <= b <= 255);
    assert(0 <= (64 - w) * a + w * b <= 64 * 255) by (nonlinear_arith)
        requires
            0 <= w <= 64,
            0 <= a <= 255,
            0 <= b <= 255,
    ;
}

/// The squared difference of a byte from a palette level.
fn squared(v: u8, level: i32) -> (r: i32)
    requires
        0 <= level <= 255,
    ensures
        r == square(v - level),
        0 <= r <= 65025,
{
    let d: i32 = v as i32 - level;
    assert(0 <= d * d <= 65025) by (nonlinear_arith)
        requires
            -255 <= d <= 255,
    ;
    d * d
}

/// The palette between two endpoints, entry by entry.
fn build_palette(first: Endpoint, second: Endpoint) -> (out: Vec<i32>)
    requires
        first.in_range(),
        second.in_range(),
    ensures
        out@.len() == 64,
        forall|j: int|
            0 <= j < 64 ==> #[trigger] out@[j] == palette(first, second, j / 4, j % 4) && 0
                <= out@[j] <= 255,
{
    let mut out: Vec<i32> = Vec::new();
    let mut j: usize = 0;
    while j < 64
        invariant
            j <= 64,
            first.in_range(),
            second.in_range(),
            out@.len() == j,
            forall|k: int|
                0 <= k < j ==> #[trigger] out@[k] == palette(first, second, k / 4, k % 4) && 0
                    <= out@[k] <= 255,
        decreases 64 - j,
    {
        proof {
            lemma_palette(first, second, j as int / 4, j as int % 4);
        }
        let w: i32 = WEIGHTS4[j / 4] as i32;
        let a: i32 = first.dequantize_channel(j % 4);
        let b: i32 = second.dequantize_channel(j % 4);
        assert(0 <= (64 - w) * a <= 64 * 255 && 0 <= w * b <= 64 * 255) by (nonlinear_arith)
            requires
                0 <= w <= 64,
                0 <= a <= 255,
                0 <= b <= 255,
        ;
        out.push(((64 - w) * a + w * b + 32) / 64);
        j = j + 1;
    }
    out
}

/// Gives every pixel its closest palette entry.
fn assign_indices(px: &[u8], first: Endpoint, second: Endpoint) -> (out: Vec<u8>)
    requires
        px@.len() == 64,
        first.in_range(),
        second.in_range(),
    ensures
        out@ == indices_of(px@, first, second),
        forall|i: int| 0 <= i < 16 ==> #[trigger] out@[i] < 16,
{
    let entries = build_palette(first, second);
    let mut out: Vec<u8> = Vec::new();
    let mut i: usize = 0;
    while i < 16
        invariant
            i <= 16,
            px@.len() == 64,
            entries@.len() == 64,
            forall|j: int|
                0 <= j < 64 ==> #[trigger] entries@[j] == palette(first, second, j / 4, j % 4) && 0
                    <= entries@[j] <= 255,
            out@.len() == i,
            forall|j: int|
                0 <= j < i ==> #[trigger] out@[j] == closest(px@, j, first, second, 16) && out@[j]
                    < 16,
        decreases 16 - i,
    {
        let mut best: usize = 0;
        let mut best_distance: i32 = i32::MAX;
        let mut k: usize = 0;
        while k < 16
            invariant
                k <= 16,
                i < 16,
                px@.len() == 64,
                entries@.len() == 64,
                forall|j: int|
                    0 <= j < 64 ==> #[trigger] entries@[j] == palette(first, second, j / 4, j % 4)
                        && 0 <= entries@[j] <= 255,
                best < 16,
                best == closest(px@, i as int, first, second, k as int),
                k == 0 ==> best_distance == i32::MAX,
                k > 0 ==> best_distance == distance(px@, i as int, first, second, best as int),
            decreases 16 - k,
        {
            let d: i32 = squared(px[4 * i], entries[4 * k]) + squared(
                px[4 * i + 1],
                entries[4 * k + 1],
            ) + squared(px[4 * i + 2], entries[4 * k + 2]) + squared(
                px[4 * i + 3],
                entries[4 * k + 3],
            );
            assert(d == distance(px@, i as int, first, second, k as int)) by {
                assert(entries@[4 * k as int] == palette(first, second, k as int, 0));
                assert(entries@[4 * k + 1] == palette(first, second, k as int, 1));
                assert(entries@[4 * k + 2] == palette(first, second, k as int, 2));
                assert(entries@[4 * k + 3] == palette(first, second, k as int, 3));
            }
            if d < best_distance {
                best_distance = d;
                best = k;
            }
            k = k + 1;
        }
        out.push(best as u8);
        i = i + 1;
    }
    assert(out@ =~= indices_of(px@, first, second));
    out
}

// ---------------------------------------------------------------------------------------------
// Refinement by least squares.
// ---------------------------------------------------------------------------------------------

/// The weight of pixel `i`, between 0 and 1.
pub open spec fn weight(indices: Seq<u8>, i: int) -> Single {
    crate::single::quotient(
        crate::single::whole_number(WEIGHTS4@[indices[i] as int] as int),
        crate::single::whole_number(64),
    )
}

/// The sum of the first `n` weights.
pub open spec fn weight_sum(indices: Seq<u8>, n: int) -> Single
    decreases n,
{
    if n <= 0 {
        crate::single::whole_number(0)
    } else {
        crate::single::sum(weight_sum(indices, n - 1), weight(indices, n - 1))
    }
}

/// The sum of the squares of the first `n` weights.
pub open spec fn square_sum(indices: Seq<u8>, n: int) -> Single
    decreases n,
{
    if n <= 0 {
        crate::single::whole_number(0)
    } else {
        crate::single::sum(
            square_sum(indices, n - 1),
            crate::single::product(weight(indices, n - 1), weight(indices, n - 1)),
        )
    }
}

/// The sum of a channel times its weight over the first `n` pixels.
pub open spec fn weighted_sum(px: Seq<u8>, indices: Seq<u8>, c: int, n: int) -> Single
    decreases n,
{
    if n <= 0 {
        crate::single::whole_number(0)
    } else {
        crate::single::sum(
            weighted_sum(px, indices, c, n - 1),
            crate::single::product(value(px, n - 1, c), weight(indices, n - 1)),
        )
    }
}

/// The determinant of the least-squares system.
pub open spec fn determinant(indices: Seq<u8>) -> Single {
    let w = weight_sum(indices, 16);
    crate::single::difference(
        crate::single::product(crate::single::whole_number(16), square_sum(indices, 16)),
        crate::single::product(w, w),
    )
}

/// The slope of a channel over the weights.
pub open spec fn slope(px: Seq<u8>, indices: Seq<u8>, c: int) -> Single {
    crate::single::quotient(
        crate::single::difference(
            crate::single::product(
                crate::single::whole_number(16),
                weighted_sum(px, indices, c, 16),
            ),
            crate::single::product(weight_sum(indices, 16), channel_sum(px, c, 16)),
        ),
        determinant(indices),
    )
}

/// The value of a channel at weight 0.
pub open spec fn intercept(px: Seq<u8>, indices: Seq<u8>, c: int) -> Single {
    crate::single::quotient(
        crate::single::difference(
            channel_sum(px, c, 16),
            crate::single::product(slope(px, indices, c), weight_sum(indices, 16)),
        ),
        crate::single::whole_number(16),
    )
}

/// The endpoints that fit the colours best, given their indices. Where all weights are equal both
/// are the mean.
pub open spec fn refitted(px: Seq<u8>, indices: Seq<u8>) -> (Endpoint, Endpoint) {
    if crate::single::less(
        crate::single::magnitude(determinant(indices)),
        crate::single::ratio(1, 10000),
    ) {
        let e = quantized(Seq::new(4, |c: int| mean(px, c)));
        (e, e)
    } else {
        (
            quantized(Seq::new(4, |c: int| in_byte_range(intercept(px, indices, c)))),
            quantized(
                Seq::new(
                    4,
                    |c: int|
                        in_byte_range(
                            crate::single::sum(intercept(px, indices, c), slope(px, indices, c)),
                        ),
                ),
            ),
        )
    }
}

/// The endpoints after `n` rounds of refinement.
pub open spec fn refined(px: Seq<u8>, ends: (Endpoint, Endpoint), n: int) -> (Endpoint, Endpoint)
    decreases n,
{
    if n <= 0 {
        ends
    } else {
        refined(px, refitted(px, indices_of(px, ends.0, ends.1)), n - 1)
    }
}

/// The weights of all pixels.
fn weights(indices: &Vec<u8>) -> (out: Vec<Single>)
    requires
        indices@.len() == 16,
        forall|i: int| 0 <= i < 16 ==> #[trigger] indices@[i] < 16,
    ensures
        out@.len() == 16,
        all_wf(out@),
        forall|i: int| 0 <= i < 16 ==> #[trigger] out@[i] == weight(indices@, i),
{
    let mut out: Vec<Single> = Vec::new();
    let mut i: usize = 0;
    while i < 16
        invariant
            i <= 16,
            indices@.len() == 16,
            forall|k: int| 0 <= k < 16 ==> #[trigger] indices@[k] < 16,
            out@.len() == i,
            all_wf(out@),
            forall|k: int| 0 <= k < i ==> #[trigger] out@[k] == weight(indices@, k),
        decreases 16 - i,
    {
        let w: u32 = WEIGHTS4[indices[i] as usize];
        out.push(Single::from_u32(w).over(Single::from_u32(64)));
        i = i + 1;
    }
    out
}

/// The endpoints that fit the colours best, given their indices.
fn refit_endpoints(px: &[u8], indices: &Vec<u8>) -> (out: (Endpoint, Endpoint))
    requires
        px@.len() == 64,
        indices@.len() == 16,
        forall|i: int| 0 <= i < 16 ==> #[trigger] indices@[i] < 16,
    ensures
        out == refitted(px@, indices@),
        out.0.in_range(),
        out.1.in_range(),
{
    let ws = weights(indices);
    let mut sum_w = Single::from_u32(0);
    let mut sum_w2 = Single::from_u32(0);
    let mut i: usize = 0;
    while i < 16
        invariant
            i <= 16,
            ws@.len() == 16,
            all_wf(ws@),
            forall|k: int| 0 <= k < 16 ==> #[trigger] ws@[k] == weight(indices@, k),
            sum_w == weight_sum(indices@, i as int),
            sum_w.wf(),
            sum_w2 == square_sum(indices@, i as int),
            sum_w2.wf(),
        decreases 16 - i,
    {
        sum_w = sum_w.plus(ws[i]);
        sum_w2 = sum_w2.plus(ws[i].times(ws[i]));
        i = i + 1;
    }
    let n = Single::from_u32(16);
    let denom = n.times(sum_w2).minus(sum_w.times(sum_w));
    if denom.abs().lt(Single::from_ratio(1, 10000)) {
        let means = means(px);
        assert(means@ =~= Seq::new(4, |c: int| mean(px@, c)));
        let e = quantize_ep(means.as_slice());
        return (e, e);
    }
    let mut first: Vec<Single> = Vec::new();
    let mut second: Vec<Single> = Vec::new();
    let mut c: usize = 0;
    while c < 4
        invariant
            c <= 4,
            px@.len() == 64,
            ws@.len() == 16,
            all_wf(ws@),
            forall|k: int| 0 <= k < 16 ==> #[trigger] ws@[k] == weight(indices@, k),
            sum_w == weight_sum(indices@, 16),
            sum_w.wf(),
            n == crate::single::whole_number(16),
            n.wf(),
            denom == determinant(indices@),
            denom.wf(),
            first@.len() == c,
            all_wf(first@),
            forall|k: int|
                0 <= k < c ==> #[trigger] first@[k] == in_byte_range(intercept(px@, indices@, k)),
            second@.len() == c,
            all_wf(second@),
            forall|k: int|
                0 <= k < c ==> #[trigger] second@[k] == in_byte_range(
                    crate::single::sum(intercept(px@, indices@, k), slope(px@, indices@, k)),
                ),
        decreases 4 - c,
    {
        let mut sum_p = Single::from_u32(0);
        let mut sum_pw = Single::from_u32(0);
        let mut i: usize = 0;
        while i < 16
            invariant
                i <= 16,
                c < 4,
                px@.len() == 64,
                ws@.len() == 16,
                all_wf(ws@),
                forall|k: int| 0 <= k < 16 ==> #[trigger] ws@[k] == weight(indices@, k),
                sum_p == channel_sum(px@, c as int, i as int),
                sum_p.wf(),
                sum_pw == weighted_sum(px@, indices@, c as int, i as int),
                sum_pw.wf(),
            decreases 16 - i,
        {
            let v = Single::from_u32(px[4 * i + c] as u32);
            sum_p = sum_p.plus(v);
            sum_pw = sum_pw.plus(v.times(ws[i]));
            i = i + 1;
        }
        let slope_c = n.times(sum_pw).minus(sum_w.times(sum_p)).over(denom);
        let intercept_c = sum_p.minus(slope_c.times(sum_w)).over(n);
        first.push(clamp_to_byte_range(intercept_c));
        second.push(clamp_to_byte_range(intercept_c.plus(slope_c)));
        c = c + 1;
    }
    assert(first@ =~= Seq::new(4, |c: int| in_byte_range(intercept(px@, indices@, c))));
    assert(second@ =~= Seq::new(
        4,
        |c: int|
            in_byte_range(
                crate::single::sum(intercept(px@, indices@, c), slope(px@, indices@, c)),
            ),
    ));
    (quantize_ep(first.as_slice()), quantize_ep(second.as_slice()))
}

// ---------------------------------------------------------------------------------------------
// The bits of a block.
// ---------------------------------------------------------------------------------------------

/// The low `count` bytes of a number, least significant first.
pub open spec fn little_endian(n: int, count: int) -> Seq<u8>
    decreases count,
{
    if count <= 0 {
        Seq::empty()
    } else {
        seq![(n % 256) as u8] + little_endian(n / 256, count - 1)
    }
}

/// The indices from `k` on as one number, four bits each.
pub open spec fn stacked(indices: Seq<u8>, k: int) -> int
    decreases 16 - k,
{
    if k >= 16 {
        0
    } else {
        indices[k] + 16 * stacked(indices, k + 1)
    }
}

/// A mode 6 block as a 128-bit number, from the lowest bit up: the mode (seven bits, the highest
/// set), the red, green, blue and alpha of either endpoint in turn (seven bits each), their shared
/// bits, the first index without its highest bit (three bits), and the other indices (four bits
/// each).
pub open spec fn block_number(first: Endpoint, second: Endpoint, indices: Seq<u8>) -> int {
    64 + 128 * (first.r + 128 * (second.r + 128 * (first.g + 128 * (second.g + 128 * (first.b + 128
        * (second.b + 128 * (first.a + 128 * (second.a + 128 * (first.p + 2 * (second.p + 2 * (
    indices[0] + 8 * stacked(indices, 1))))))))))))
}

/// The bytes of a mode 6 block.
#[verifier::opaque]
pub open spec fn block_bytes(first: Endpoint, second: Endpoint, indices: Seq<u8>) -> Seq<u8> {
    little_endian(block_number(first, second, indices), 16)
}

/// The fields of a mode 6 block are in range.
pub open spec fn mode6_fields(first: Endpoint, second: Endpoint, indices: Seq<u8>) -> bool {
    &&& first.in_range()
    &&& second.in_range()
    &&& indices.len() == 16
    &&& indices[0] < 8
    &&& forall|i: int| 0 <= i < 16 ==> #[trigger] indices[i] < 16
}

/// The number that bytes stand for, least significant first.
pub open spec fn from_little_endian(b: Seq<u8>) -> int
    decreases b.len(),
{
    if b.len() == 0 {
        0
    } else {
        b[0] + 256 * from_little_endian(b.subrange(1, b.len() as int))
    }
}

/// The largest number of `count` bytes, plus one.
pub open spec fn byte_limit(count: int) -> int
    decreases count,
{
    if count <= 0 {
        1
    } else {
        256 * byte_limit(count - 1)
    }
}

proof fn lemma_little_endian(n: int, count: int)
    requires
        0 <= n,
        0 <= count,
    ensures
        little_endian(n, count).len() == count,
        n < byte_limit(count) ==> from_little_endian(little_endian(n, count)) == n,
    decreases count,
{
    if count > 0 {
        lemma_little_endian(n / 256, count - 1);
        let b = little_endian(n, count);
        assert(b.subrange(1, b.len() as int) =~= little_endian(n / 256, count - 1));
    }
}

proof fn lemma_stacked(indices: Seq<u8>, k: int)
    requires
        indices.len() == 16,
        forall|i: int| 0 <= i < 16 ==> #[trigger] indices[i] < 16,
        0 <= k <= 16,
    ensures
        0 <= stacked(indices, k) < power16(16 - k),
    decreases 16 - k,
{
    if k < 16 {
        lemma_stacked(indices, k + 1);
    }
}

pub open spec fn power16(n: int) -> int
    decreases n,
{
    if n <= 0 {
        1
    } else {
        16 * power16(n - 1)
    }
}

/// The endpoints and indices of a block are recovered from its bytes.
pub proof fn law_block_fields(first: Endpoint, second: Endpoint, indices: Seq<u8>)
    requires
        mode6_fields(first, second, indices),
    ensures
        ({
            let n = from_little_endian(block_bytes(first, second, indices));
            &&& block_bytes(first, second, indices).len() == 16
            &&& n == block_number(first, second, indices)
            &&& n % 128 == 64
            &&& n / 128 % 128 == first.r
            &&& n / 128 / 128 % 128 == second.r
            &&& n / 128 / 128 / 128 % 128 == first.g
            &&& n / 128 / 128 / 128 / 128 % 128 == second.g
            &&& n / 128 / 128 / 128 / 128 / 128 % 128 == first.b
            &&& n / 128 / 128 / 128 / 128 / 128 / 128 % 128 == second.b
            &&& n / 128 / 128 / 128 / 128 / 128 / 128 / 128 % 128 == first.a
            &&& n / 128 / 128 / 128 / 128 / 128 / 128 / 128 / 128 % 128 == second.a
            &&& n / 128 / 128 / 128 / 128 / 128 / 128 / 128 / 128 / 128 % 2 == first.p
            &&& n / 128 / 128 / 128 / 128 / 128 / 128 / 128 / 128 / 128 / 2 % 2 == second.p
            &&& n / 128 / 128 / 128 / 128 / 128 / 128 / 128 / 128 / 128 / 2 / 2 % 8 == indices[0]
            &&& n / 128 / 128 / 128 / 128 / 128 / 128 / 128 / 128 / 128 / 2 / 2 / 8 == stacked(
                indices,
                1,
            )
        }),
{
    reveal(block_bytes);
    lemma_block_bound(first, second, indices);
    lemma_little_endian(block_number(first, second, indices), 16);
    let l = indices[0] + 8 * stacked(indices, 1);
    let k = second.p + 2 * l;
    let j = first.p + 2 * k;
    let h = second.a + 128 * j;
    let g = first.a + 128 * h;
    let f = second.b + 128 * g;
    let e = first.b + 128 * f;
    let d = second.g + 128 * e;
    let c = first.g + 128 * d;
    let b = second.r + 128 * c;
    let a = first.r + 128 * b;
    let n = 64 + 128 * a;
    assert(n == block_number(first, second, indices));
    assert(n / 128 == a);
    assert(a / 128 == b);
    assert(b / 128 == c);
    assert(c / 128 == d);
    assert(d / 128 == e);
    assert(e / 128 == f);
    assert(f / 128 == g);
    assert(g / 128 == h);
    assert(h / 128 == j);
    assert(j / 2 == k);
    assert(k / 2 == l);
    assert(l / 8 == stacked(indices, 1));
}

/// Each index but the first is recovered from the indices stacked up.
pub proof fn law_stacked_indices(indices: Seq<u8>, k: int)
    requires
        indices.len() == 16,
        forall|i: int| 0 <= i < 16 ==> #[trigger] indices[i] < 16,
        0 <= k < 16,
    ensures
        stacked(indices, k) % 16 == indices[k],
        stacked(indices, k) / 16 == stacked(indices, k + 1),
{
    lemma_stacked(indices, k + 1);
}

proof fn lemma_block_bound(first: Endpoint, second: Endpoint, indices: Seq<u8>)
    requires
        mode6_fields(first, second, indices),
    ensures
        0 <= block_number(first, second, indices) < 0x1_0000_0000_0000_0000_0000_0000_0000_0000,
        byte_limit(16) == 0x1_0000_0000_0000_0000_0000_0000_0000_0000int,
        0 <= stacked(indices, 1) < 0x1000_0000_0000_0000,
{
    lemma_stacked(indices, 1);
    reveal_with_fuel(power16, 16);
    reveal_with_fuel(byte_limit, 17);
}

/// Packs endpoints and indices into a block.
fn pack_mode6_block(first: Endpoint, second: Endpoint, indices: &Vec<u8>) -> (out: Vec<u8>)
    requires
        mode6_fields(first, second, indices@),
    ensures
        out@ == block_bytes(first, second, indices@),
        out@.len() == 16,
{
    proof {
        reveal(block_bytes);
        lemma_block_bound(first, second, indices@);
        lemma_little_endian(block_number(first, second, indices@), 16);
    }
    let mut stack: u64 = 0;
    let mut k: usize = 16;
    while k > 1
        invariant
            1 <= k <= 16,
            indices@.len() == 16,
            forall|i: int| 0 <= i < 16 ==> #[trigger] indices@[i] < 16,
            stack == stacked(indices@, k as int),
            stack < power16(16 - k),
        decreases k,
    {
        proof {
            lemma_power16(16 - k);
        }
        k = k - 1;
        stack = indices[k] as u64 + 16 * stack;
    }
    let low: u64 = 64 + 128 * (first.r as u64 + 128 * (second.r as u64 + 128 * (first.g as u64 + 128
        * (second.g as u64 + 128 * (first.b as u64 + 128 * (second.b as u64 + 128 * (first.a as u64
        + 128 * (second.a as u64))))))));
    let high: u128 = first.p as u128 + 2 * (second.p as u128 + 2 * (indices[0] as u128 + 8 * (
    stack as u128)));
    let mut rest: u128 = low as u128 + 0x8000_0000_0000_0000u128 * high;
    assert(rest == block_number(first, second, indices@));
    let mut out: Vec<u8> = Vec::new();
    let mut i: usize = 0;
    assert(out@ + little_endian(rest as int, 16) =~= block_bytes(first, second, indices@));
    while i < 16
        invariant
            i <= 16,
            out@.len() == i,
            out@ + little_endian(rest as int, 16 - i) == block_bytes(first, second, indices@),
        decreases 16 - i,
    {
        let ghost before = out@;
        let ghost r = rest as int;
        out.push((rest % 256) as u8);
        rest = rest / 256;
        i = i + 1;
        assert(out@ + little_endian(rest as int, 16 - i) =~= before + little_endian(
            r,
            16 - (i - 1),
        ));
    }
    assert(out@ + little_endian(rest as int, 0) =~= out@);
    out
}

proof fn lemma_power16(n: int)
    requires
        0 <= n < 15,
    ensures
        power16(n) <= 0x100_0000_0000_0000,
        power16(n + 1) == 16 * power16(n),
    decreases 15 - n,
{
    reveal_with_fuel(power16, 16);
}

/// The endpoints and indices, turned round if the first index would not fit in three bits.
pub open spec fn anchored(ends: (Endpoint, Endpoint), indices: Seq<u8>) -> (
    (Endpoint, Endpoint),
    Seq<u8>,
) {
    if indices[0] >= 8 {
        ((ends.1, ends.0), Seq::new(16, |i: int| (15 - indices[i]) as u8))
    } else {
        (ends, indices)
    }
}

/// The block that 4x4 pixels are encoded as.
#[verifier::opaque]
pub open spec fn encoded_block(px: Seq<u8>, refine_iters: int) -> Seq<u8> {
    let ends = refined(px, fitted(px), refine_iters);
    let (e, indices) = anchored(ends, indices_of(px, ends.0, ends.1));
    block_bytes(e.0, e.1, indices)
}

/// Turning a block round does not change what it shows: entry `15 - k` between the endpoints in
/// the other order is entry `k`.
pub proof fn law_palette_turned(first: Endpoint, second: Endpoint, k: int, c: int)
    requires
        0 <= k < 16,
    ensures
        palette(second, first, 15 - k, c) == palette(first, second, k, c),
{
    assert(WEIGHTS4@[k] + WEIGHTS4@[15 - k] == 64);
}

/// Encodes 4x4 pixels in BC7 mode 6.
fn encode_bc7_block_mode6(px: &[u8], refine_iters: u32) -> (out: Vec<u8>)
    requires
        px@.len() == 64,
    ensures
        out@ == encoded_block(px@, refine_iters as int),
        out@.len() == 16,
{
    proof {
        reveal(encoded_block);
    }
    let mut ends = fit(px);
    let mut left: u32 = refine_iters;
    let mut indices = assign_indices(px, ends.0, ends.1);
    while left > 0
        invariant
            px@.len() == 64,
            ends.0.in_range(),
            ends.1.in_range(),
            indices@ == indices_of(px@, ends.0, ends.1),
            forall|i: int| 0 <= i < 16 ==> #[trigger] indices@[i] < 16,
            refined(px@, ends, left as int) == refined(px@, fitted(px@), refine_iters as int),
        decreases left,
    {
        ends = refit_endpoints(px, &indices);
        indices = assign_indices(px, ends.0, ends.1);
        left = left - 1;
    }
    if indices[0] >= 8 {
        let mut turned: Vec<u8> = Vec::new();
        let mut i: usize = 0;
        while i < 16
            invariant
                i <= 16,
                indices@.len() == 16,
                forall|k: int| 0 <= k < 16 ==> #[trigger] indices@[k] < 16,
                turned@.len() == i,
                forall|k: int| 0 <= k < i ==> #[trigger] turned@[k] == 15 - indices@[k],
            decreases 16 - i,
        {
            turned.push(15 - indices[i]);
            i = i + 1;
        }
        assert(turned@ =~= Seq::new(16, |i: int| (15 - indices@[i]) as u8));
        pack_mode6_block(ends.1, ends.0, &turned)
    } else {
        pack_mode6_block(ends.0, ends.1, &indices)
    }
}

/// The 4x4 pixels that a mode 6 block shows.
pub open spec fn palette_pixels(first: Endpoint, second: Endpoint, indices: Seq<u8>) -> Seq<u8> {
    Seq::new(64, |k: int| palette(first, second, indices[k / 4] as int, k % 4) as u8)
}

// ---------------------------------------------------------------------------------------------
// Images.
// ---------------------------------------------------------------------------------------------

/// The 4x4 pixels of block `b` of an image.
pub open spec fn block_at(rgba: Seq<u8>, width: int, b: int) -> Seq<u8> {
    Seq::new(
        64,
        |k: int|
            rgba[4 * crate::ycocg::block_pixel(width, b % (width / 4), b / (width / 4), k / 4) + k
                % 4],
    )
}

/// The blocks of an image.
pub open spec fn encoded_image(rgba: Seq<u8>, width: int, height: int, refine_iters: int) -> Seq<
    u8,
> {
    Seq::new(
        ((width / 4) * (height / 4) * 16) as nat,
        |i: int| encoded_block(block_at(rgba, width, i / 16), refine_iters)[i % 16],
    )
}

/// An image of `len` bytes decoded from blocks.
pub open spec fn decoded_image(blocks: Seq<u8>, width: int, len: int) -> Seq<u8> {
    Seq::new(
        len as nat,
        |i: int|
            crate::blocks::decoded_value(
                Codec::Bc7,
                blocks,
                width,
                crate::parallel::column(i, width),
                crate::parallel::line(i, width),
                i % 4,
            ),
    )
}

/// The error of dimensions that are not multiples of 4.
pub open spec fn bad_dimensions(width: int, height: int) -> Bc7Error {
    Bc7Error::InvalidDimensions { width: width as usize, height: height as usize }
}

/// The error of a buffer of the wrong size.
pub open spec fn bad_size(expected: int, actual: int) -> Bc7Error {
    Bc7Error::BufferSizeMismatch { expected: expected as usize, actual: actual as usize }
}

/// What encoding an image gives.
pub open spec fn compressed(rgba: Seq<u8>, width: int, height: int, refine_iters: int) -> Result<
    Seq<u8>,
    Bc7Error,
> {
    if !crate::dxt::whole_blocks(width, height) {
        Err(bad_dimensions(width, height))
    } else if rgba.len() != width * height * 4 {
        Err(bad_size(width * height * 4, rgba.len() as int))
    } else {
        Ok(encoded_image(rgba, width, height, refine_iters))
    }
}

/// What decoding blocks gives. Bytes after the last block are not read.
pub open spec fn decompressed(blocks: Seq<u8>, width: int, height: int) -> Result<
    Seq<u8>,
    Bc7Error,
> {
    let need = (width / 4) * (height / 4) * 16;
    if !crate::dxt::whole_blocks(width, height) {
        Err(bad_dimensions(width, height))
    } else if blocks.len() < need {
        Err(bad_size(need, blocks.len() as int))
    } else {
        Ok(decoded_image(blocks, width, width * height * 4))
    }
}

/// The outcome is the one wanted.
pub open spec fn agrees(r: Result<Vec<u8>, Bc7Error>, want: Result<Seq<u8>, Bc7Error>) -> bool {
    match r {
        Ok(v) => want == Ok::<Seq<u8>, Bc7Error>(v@),
        Err(e) => want == Err::<Seq<u8>, Bc7Error>(e),
    }
}

/// Copies the 4x4 pixels of a block out of an image.
fn copy_block(rgba: &[u8], width: usize, height: usize, bx: usize, by: usize) -> (px: Vec<u8>)
    requires
        rgba@.len() == width * height * 4,
        width % 4 == 0,
        height % 4 == 0,
        bx < width / 4,
        by < height / 4,
    ensures
        px@ == block_at(rgba@, width as int, by * (width / 4) + bx),
        px@.len() == 64,
{
    assert(rgba@.len() == rgba.len());
    let ghost b = by * (width / 4) + bx;
    proof {
        vstd::arithmetic::div_mod::lemma_fundamental_div_mod_converse(
            b,
            width as int / 4,
            by as int,
            bx as int,
        );
    }
    let mut px: Vec<u8> = Vec::new();
    let mut i: usize = 0;
    while i < 16
        invariant
            i <= 16,
            rgba@.len() == width * height * 4,
            rgba@.len() <= usize::MAX,
            width % 4 == 0,
            height % 4 == 0,
            bx < width / 4,
            by < height / 4,
            b % (width as int / 4) == bx,
            b / (width as int / 4) == by,
            px@.len() == 4 * i,
            forall|k: int|
                0 <= k < 4 * i ==> #[trigger] px@[k] == block_at(rgba@, width as int, b)[k],
        decreases 16 - i,
    {
        proof {
            crate::ycocg::lemma_pixel_bound(
                width as int,
                height as int,
                4 * by + i / 4,
                4 * bx + i % 4,
                rgba@.len() as int,
            );
        }
        let p: usize = 4 * ((4 * by + i / 4) * width + (4 * bx + i % 4));
        px.push(rgba[p]);
        px.push(rgba[p + 1]);
        px.push(rgba[p + 2]);
        px.push(rgba[p + 3]);
        i = i + 1;
    }
    assert(px@ =~= block_at(rgba@, width as int, b));
    px
}

/// The blocks of a block row.
fn encode_block_row(
    rgba: &[u8],
    width: usize,
    height: usize,
    by: usize,
    refine_iters: u32,
) -> (out: Vec<u8>)
    requires
        rgba@.len() == width * height * 4,
        width % 4 == 0,
        height % 4 == 0,
        by < height / 4,
    ensures
        out@.len() == 16 * (width / 4),
        forall|k: int|
            0 <= k < 16 * (width / 4) ==> #[trigger] out@[k] == encoded_block(
                block_at(rgba@, width as int, by * (width / 4) + k / 16),
                refine_iters as int,
            )[k % 16],
{
    let blocks_x: usize = width / 4;
    let mut out: Vec<u8> = Vec::new();
    let mut bx: usize = 0;
    while bx < blocks_x
        invariant
            bx <= blocks_x,
            blocks_x == width / 4,
            rgba@.len() == width * height * 4,
            width % 4 == 0,
            height % 4 == 0,
            by < height / 4,
            out@.len() == 16 * bx,
            forall|k: int|
                0 <= k < 16 * bx ==> #[trigger] out@[k] == encoded_block(
                    block_at(rgba@, width as int, by * (width / 4) + k / 16),
                    refine_iters as int,
                )[k % 16],
        decreases blocks_x - bx,
    {
        let px = copy_block(rgba, width, height, bx, by);
        let block = encode_bc7_block_mode6(px.as_slice(), refine_iters);
        let ghost before = out@;
        crate::bytes::push_all(&mut out, block.as_slice());
        assert forall|k: int| 0 <= k < 16 * (bx + 1) implies #[trigger] out@[k] == encoded_block(
            block_at(rgba@, width as int, by * (width / 4) + k / 16),
            refine_iters as int,
        )[k % 16] by {
            if k < 16 * bx {
                assert(out@[k] == before[k]);
            } else {
                assert(k / 16 == bx);
                assert(out@[k] == block@[k - 16 * bx]);
            }
        }
        bx = bx + 1;
    }
    out
}

/// Encodes an RGBA8 image to BC7 mode 6, 16 bytes per 4x4 block.
pub fn compress_bc7(rgba: &[u8], width: usize, height: usize) -> (r: Result<Vec<u8>, Bc7Error>)
    requires
        crate::dxt::addressable(width as int, height as int),
    ensures
        agrees(r, compressed(rgba@, width as int, height as int, 2)),
        r matches Ok(v) ==> v@.len() == (width / 4) * (height / 4) * 16,
{
    compress_bc7_with_refinement(rgba, width, height, 2)
}

/// Encodes an RGBA8 image to BC7 mode 6 with the given number of refinement rounds.
pub fn compress_bc7_with_refinement(
    rgba: &[u8],
    width: usize,
    height: usize,
    refine_iters: u32,
) -> (r: Result<Vec<u8>, Bc7Error>)
    requires
        crate::dxt::addressable(width as int, height as int),
    ensures
        agrees(r, compressed(rgba@, width as int, height as int, refine_iters as int)),
        r matches Ok(v) ==> v@.len() == (width / 4) * (height / 4) * 16,
{
    if width % 4 != 0 || height % 4 != 0 {
        return Err(Bc7Error::InvalidDimensions { width, height });
    }
    proof {
        crate::dxt::lemma_sizes(width as int, height as int);
        assert(rgba@.len() == rgba.len());
    }
    let expected: usize = width * height * 4;
    if rgba.len() != expected {
        return Err(Bc7Error::BufferSizeMismatch { expected, actual: rgba.len() });
    }
    let rows_n: usize = height / 4;
    let ghost per_row = 16 * (width as int / 4);
    let ghost want = encoded_image(rgba@, width as int, height as int, refine_iters as int);
    proof {
        assert((width as int / 4) * (height as int / 4) * 16 == rows_n * per_row)
            by (nonlinear_arith)
            requires
                per_row == 16 * (width as int / 4),
                rows_n == height as int / 4,
        ;
    }
    if width == 0 || height == 0 {
        let out: Vec<u8> = Vec::new();
        assert(out@ =~= want);
        return Ok(out);
    }
    let make = |by: usize| -> (row: Vec<u8>)
        requires
            by < height / 4,
        ensures
            row@.len() == 16 * (width / 4),
            forall|k: int|
                0 <= k < 16 * (width / 4) ==> #[trigger] row@[k] == encoded_block(
                    block_at(rgba@, width as int, by * (width / 4) + k / 16),
                    refine_iters as int,
                )[k % 16],
    {
        encode_block_row(rgba, width, height, by, refine_iters)
    };
    let rows = map_indices(rows_n, make);
    proof {
        assert(per_row <= rows_n * per_row) by (nonlinear_arith)
            requires
                rows_n >= 1,
                per_row >= 0,
        ;
    }
    let out: Vec<u8> = join_rows(&rows, 16 * (width / 4));
    proof {
        assert forall|i: int| 0 <= i < want.len() implies #[trigger] out@[i] == want[i] by {
            let by = i / per_row;
            let k = i % per_row;
            let n = width as int / 4;
            assert(0 <= k < per_row && i == by * per_row + k && 0 <= by < rows_n)
                by (nonlinear_arith)
                requires
                    by == i / per_row,
                    k == i % per_row,
                    per_row > 0,
                    0 <= i < rows_n * per_row,
            ;
            assert(i == 16 * (by * n) + k) by (nonlinear_arith)
                requires
                    i == by * per_row + k,
                    per_row == 16 * n,
            ;
            assert(i / 16 == by * n + k / 16);
            assert(rows@[by]@[k] == out@[by * per_row + k]);
        }
        assert(out@ =~= want);
    }
    Ok(out)
}

/// One line of a decoded image.
fn decoded_line(blocks: Ghost<Seq<u8>>, decoded: &Vec<u8>, width: usize, y: usize) -> (row: Vec<u8>)
    requires
        width % 4 == 0,
        width * 16 <= usize::MAX,
        decoded@.len() == 64 * (width / 4),
        forall|bx: int, k: int|
            #![trigger decoded@[64 * bx + k]]
            0 <= bx < width / 4 && 0 <= k < 64 ==> decoded@[64 * bx + k] == crate::blocks::pixels_of(
                Codec::Bc7,
                blocks@.subrange(
                    16 * ((y / 4) * (width / 4) + bx),
                    16 * ((y / 4) * (width / 4) + bx) + 16,
                ),
            )[k],
    ensures
        row@.len() == width * 4,
        forall|k: int|
            0 <= k < width * 4 ==> #[trigger] row@[k] == crate::blocks::decoded_value(
                Codec::Bc7,
                blocks@,
                width as int,
                k / 4,
                y as int,
                k % 4,
            ),
{
    let row = block_row_line(decoded, width, y);
    proof {
        assert forall|k: int| 0 <= k < width * 4 implies #[trigger] row@[k]
            == crate::blocks::decoded_value(
            Codec::Bc7,
            blocks@,
            width as int,
            k / 4,
            y as int,
            k % 4,
        ) by {
            let x = k / 4;
            let j = ((y as int % 4) * 4 + x % 4) * 4 + k % 4;
            assert(crate::blocks::place(x, y as int) + k % 4 == 64 * (x / 4) + j);
            assert(decoded@[64 * (x / 4) + j] == crate::blocks::pixels_of(
                Codec::Bc7,
                blocks@.subrange(
                    16 * ((y as int / 4) * (width as int / 4) + x / 4),
                    16 * ((y as int / 4) * (width as int / 4) + x / 4) + 16,
                ),
            )[j]);
        }
    }
    row
}

/// Decodes BC7 blocks to RGBA8 on all cores.
///
/// A block of mode 6 shows the palette entries of its indices.
pub fn decompress_bc7(bc7: &[u8], width: usize, height: usize) -> (r: Result<Vec<u8>, Bc7Error>)
    requires
        crate::dxt::addressable(width as int, height as int),
    ensures
        agrees(r, decompressed(bc7@, width as int, height as int)),
        r matches Ok(v) ==> v@.len() == width * height * 4,
        r is Ok ==> forall|b: int|
            0 <= b < (width / 4) * (height / 4) ==> #[trigger] crate::blocks::shows_block(bc7@, b),
{
    if width % 4 != 0 || height % 4 != 0 {
        return Err(Bc7Error::InvalidDimensions { width, height });
    }
    proof {
        crate::dxt::lemma_sizes(width as int, height as int);
        assert(bc7@.len() == bc7.len());
    }
    let blocks_x: usize = width / 4;
    let count: usize = height / 4;
    let expected: usize = blocks_x * count * 16;
    if bc7.len() < expected {
        return Err(Bc7Error::BufferSizeMismatch { expected, actual: bc7.len() });
    }
    let ghost want = decoded_image(bc7@, width as int, width * height * 4);
    if width == 0 || height == 0 {
        let out: Vec<u8> = Vec::new();
        assert(out@ =~= want);
        assert((width / 4) * (height / 4) == 0) by (nonlinear_arith)
            requires
                width == 0 || height == 0,
        ;
        return Ok(out);
    }
    let unpack = |by: usize| -> (decoded: Vec<u8>)
        requires
            by < height / 4,
        ensures
            decoded@.len() == 64 * (width / 4),
            forall|bx: int, k: int|
                #![trigger decoded@[64 * bx + k]]
                0 <= bx < width / 4 && 0 <= k < 64 ==> decoded@[64 * bx + k]
                    == crate::blocks::pixels_of(
                    Codec::Bc7,
                    bc7@.subrange(
                        16 * (by * (width / 4) + bx),
                        16 * (by * (width / 4) + bx) + 16,
                    ),
                )[k],
            crate::blocks::shows_row(bc7@, width as int / 4, by as int),
    {
        proof {
            assert((by + 1) * blocks_x * 16 <= blocks_x * count * 16) by (nonlinear_arith)
                requires
                    by + 1 <= count,
                    blocks_x >= 0,
            ;
            assert(blocks_x * 64 <= usize::MAX) by (nonlinear_arith)
                requires
                    blocks_x * 4 == width,
                    width * height * 4 <= usize::MAX,
                    height >= 4,
            ;
        }
        decode_blocks(Codec::Bc7, bc7, blocks_x, by)
    };
    let decoded = map_indices(count, unpack);
    let decoded_ref = &decoded;
    proof {
        assert(width * 16 <= width * height * 4) by (nonlinear_arith)
            requires
                height >= 4,
                width >= 0,
        ;
    }
    let make = |y: usize| -> (row: Vec<u8>)
        requires
            y < height,
        ensures
            row@.len() == width * 4,
            forall|k: int|
                0 <= k < width * 4 ==> #[trigger] row@[k] == crate::blocks::decoded_value(
                    Codec::Bc7,
                    bc7@,
                    width as int,
                    k / 4,
                    y as int,
                    k % 4,
                ),
    {
        decoded_line(Ghost(bc7@), &decoded_ref[y / 4], width, y)
    };
    let rows = map_indices(height, make);
    let out: Vec<u8> = join_rows(&rows, width * 4);
    proof {
        assert(height * (width * 4) == width * height * 4) by (nonlinear_arith);
        assert forall|i: int| 0 <= i < want.len() implies #[trigger] out@[i] == want[i] by {
            crate::parallel::lemma_locate(i, width as int, height as int);
            let y = i / (width * 4);
            let k = i % (width * 4);
            crate::parallel::lemma_position(y, k, width as int);
            assert(rows@[y]@[k] == out@[y * (width * 4) + k]);
        }
        assert(out@ =~= want);
        assert forall|b: int| 0 <= b < (width / 4) * (height / 4) implies #[trigger]
            crate::blocks::shows_block(bc7@, b) by {
            let n = blocks_x as int;
            let by = b / n;
            let bx = b % n;
            assert(0 <= bx < n && b == by * n + bx && 0 <= by < count) by (nonlinear_arith)
                requires
                    by == b / n,
                    bx == b % n,
                    n > 0,
                    0 <= b < n * count,
            ;
            assert(decoded@[by]@.len() == 64 * n);
            assert(crate::blocks::shows_row(bc7@, n, by));
            assert(crate::blocks::shows_block(bc7@, by * n + bx));
        }
    }
    Ok(out)
}

// ---------------------------------------------------------------------------------------------
// What an encoded block shows.
// ---------------------------------------------------------------------------------------------

/// Quantised endpoints are in range.
proof fn lemma_endpoints(px: Seq<u8>, ends: (Endpoint, Endpoint), n: int)
    requires
        n <= 0 ==> ends.0.in_range() && ends.1.in_range(),
    ensures
        fitted(px).0.in_range(),
        fitted(px).1.in_range(),
        refined(px, ends, n).0.in_range(),
        refined(px, ends, n).1.in_range(),
    decreases n,
{
    if n > 0 {
        lemma_endpoints(px, refitted(px, indices_of(px, ends.0, ends.1)), n - 1);
    }
}

/// The endpoints that a block is encoded with.
pub open spec fn block_ends(px: Seq<u8>, refine_iters: int) -> (Endpoint, Endpoint) {
    refined(px, fitted(px), refine_iters)
}

/// The fields that a block is packed from.
proof fn lemma_block_fields(px: Seq<u8>, refine_iters: int)
    requires
        px.len() == 64,
    ensures
        ({
            let ends = block_ends(px, refine_iters);
            let (e, turned) = anchored(ends, indices_of(px, ends.0, ends.1));
            &&& ends.0.in_range()
            &&& ends.1.in_range()
            &&& mode6_fields(e.0, e.1, turned)
            &&& encoded_block(px, refine_iters) == block_bytes(e.0, e.1, turned)
            &&& encoded_block(px, refine_iters).len() == 16
        }),
{
    reveal(encoded_block);
    let ends = block_ends(px, refine_iters);
    lemma_endpoints(px, fitted(px), 0);
    lemma_endpoints(px, fitted(px), refine_iters);
    let indices = indices_of(px, ends.0, ends.1);
    assert forall|j: int| 0 <= j < 16 implies #[trigger] indices[j] < 16 by {
        law_closest(px, j, ends.0, ends.1, 16, 0);
    }
    let (e, turned) = anchored(ends, indices);
    lemma_block_len(e.0, e.1, turned);
}

proof fn lemma_block_len(first: Endpoint, second: Endpoint, indices: Seq<u8>)
    requires
        mode6_fields(first, second, indices),
    ensures
        block_bytes(first, second, indices).len() == 16,
{
    reveal(block_bytes);
    lemma_block_bound(first, second, indices);
    lemma_little_endian(block_number(first, second, indices), 16);
}

/// An encoded block shows, for each pixel, the palette entry closest to it.
proof fn lemma_block_shown(px: Seq<u8>, refine_iters: int, i: int, c: int)
    requires
        px.len() == 64,
        0 <= i < 16,
        0 <= c < 4,
    ensures
        encoded_block(px, refine_iters).len() == 16,
        crate::blocks::shows_mode6(
            encoded_block(px, refine_iters),
            crate::blocks::bc7_pixels(encoded_block(px, refine_iters)),
        ) ==> crate::blocks::bc7_pixels(encoded_block(px, refine_iters))[4 * i + c] == palette(
            block_ends(px, refine_iters).0,
            block_ends(px, refine_iters).1,
            closest(
                px,
                i,
                block_ends(px, refine_iters).0,
                block_ends(px, refine_iters).1,
                16,
            ),
            c,
        ),
{
    let ends = block_ends(px, refine_iters);
    let indices = indices_of(px, ends.0, ends.1);
    let k = closest(px, i, ends.0, ends.1, 16);
    lemma_block_fields(px, refine_iters);
    law_closest(px, i, ends.0, ends.1, 16, 0);
    assert(indices[i] == k);
    let (e, turned) = anchored(ends, indices);
    let block = encoded_block(px, refine_iters);
    let shown = palette_pixels(e.0, e.1, turned);
    assert((4 * i + c) / 4 == i && (4 * i + c) % 4 == c);
    lemma_palette(e.0, e.1, turned[i] as int, c);
    if indices[0] >= 8 {
        law_palette_turned(ends.0, ends.1, k, c);
        assert(turned[i] == 15 - k);
    }
    assert(shown[4 * i + c] == palette(ends.0, ends.1, k, c));
    if crate::blocks::shows_mode6(block, crate::blocks::bc7_pixels(block)) {
        assert(block == block_bytes(e.0, e.1, turned));
        assert(crate::blocks::bc7_pixels(block) == shown);
    }
}

/// Where a pixel lies in its block.
proof fn lemma_block_position(rgba: Seq<u8>, width: int, height: int, x: int, y: int, c: int)
    requires
        crate::dxt::whole_blocks(width, height),
        0 <= x < width,
        0 <= y < height,
        0 <= c < 4,
    ensures
        ({
            let b = (y / 4) * (width / 4) + x / 4;
            let i = (y % 4) * 4 + x % 4;
            &&& 0 <= b < (width / 4) * (height / 4)
            &&& 0 <= i < 16
            &&& block_at(rgba, width, b)[4 * i + c] == rgba[4 * (y * width + x) + c]
        }),
{
    let n = width / 4;
    let m = height / 4;
    let by = y / 4;
    let bx = x / 4;
    let b = by * n + bx;
    assert(0 <= b && b + 1 <= n * m) by (nonlinear_arith)
        requires
            b == by * n + bx,
            0 <= bx < n,
            0 <= by < m,
    ;
    vstd::arithmetic::div_mod::lemma_fundamental_div_mod_converse(b, n, by, bx);
    let i = (y % 4) * 4 + x % 4;
    assert(i / 4 == y % 4 && i % 4 == x % 4);
    assert(4 * by + i / 4 == y && 4 * bx + i % 4 == x);
    assert((4 * i + c) / 4 == i && (4 * i + c) % 4 == c);
    assert(crate::ycocg::block_pixel(width, bx, by, i) == y * width + x);
}

/// The bytes of block `b` of an encoded image.
proof fn lemma_image_block(rgba: Seq<u8>, width: int, height: int, refine_iters: int, b: int)
    requires
        0 <= b < (width / 4) * (height / 4),
        encoded_block(block_at(rgba, width, b), refine_iters).len() == 16,
    ensures
        encoded_image(rgba, width, height, refine_iters).subrange(16 * b, 16 * b + 16)
            == encoded_block(block_at(rgba, width, b), refine_iters),
{
    let blocks = encoded_image(rgba, width, height, refine_iters);
    let block = encoded_block(block_at(rgba, width, b), refine_iters);
    assert forall|k: int| 0 <= k < 16 implies #[trigger] blocks.subrange(16 * b, 16 * b + 16)[k]
        == block[k] by {
        assert((16 * b + k) / 16 == b);
        assert((16 * b + k) % 16 == k);
    }
    assert(blocks.subrange(16 * b, 16 * b + 16) =~= block);
}

/// An image that was encoded and is decoded again shows, for each pixel, the entry of its block's
/// palette that is closest to it.
pub proof fn law_image_round_trip(
    rgba: Seq<u8>,
    width: int,
    height: int,
    refine_iters: int,
    x: int,
    y: int,
    c: int,
)
    requires
        crate::dxt::whole_blocks(width, height),
        rgba.len() == width * height * 4,
        0 <= x < width,
        0 <= y < height,
        0 <= c < 4,
    ensures
        ({
            let blocks = encoded_image(rgba, width, height, refine_iters);
            let b = (y / 4) * (width / 4) + x / 4;
            let px = block_at(rgba, width, b);
            let ends = block_ends(px, refine_iters);
            let i = (y % 4) * 4 + x % 4;
            &&& 0 <= b < (width / 4) * (height / 4)
            &&& px[4 * i + c] == rgba[4 * (y * width + x) + c]
            &&& crate::blocks::shows_block(blocks, b) ==> crate::blocks::decoded_value(
                Codec::Bc7,
                blocks,
                width,
                x,
                y,
                c,
            ) == palette(ends.0, ends.1, closest(px, i, ends.0, ends.1, 16), c)
        }),
{
    let b = (y / 4) * (width / 4) + x / 4;
    let i = (y % 4) * 4 + x % 4;
    let px = block_at(rgba, width, b);
    lemma_block_position(rgba, width, height, x, y, c);
    lemma_block_shown(px, refine_iters, i, c);
    lemma_image_block(rgba, width, height, refine_iters, b);
}

/// Pixel `i` has the same value in channel `c` as the first.
pub open spec fn like_first(px: Seq<u8>, i: int, c: int) -> bool {
    px[4 * i + c] == px[c]
}

/// The pixels of a block are all the same in channel `c`.
pub open spec fn steady(px: Seq<u8>, c: int) -> bool {
    px.len() == 64 && forall|i: int| 0 <= i < 16 ==> #[trigger] like_first(px, i, c)
}

/// The pixels of a block are all the same.
pub open spec fn uniform(px: Seq<u8>) -> bool {
    px.len() == 64 && forall|i: int, c: int|
        0 <= i < 16 && 0 <= c < 4 ==> #[trigger] like_first(px, i, c)
}

proof fn lemma_steady_value(px: Seq<u8>, i: int, c: int)
    requires
        steady(px, c),
        0 <= i < 16,
        0 <= c < 4,
    ensures
        crate::single::is_exactly(value(px, i, c), px[c] as int, 0),
{
    vstd::arithmetic::power2::lemma2_to64();
    assert(like_first(px, i, c));
    let v = px[c] as int;
    let one = crate::single::pow2(0);
    assert(v * one == v) by (nonlinear_arith)
        requires
            one == 1,
    ;
    crate::single::lemma_whole_number(v, 0);
}

proof fn lemma_steady_sum(px: Seq<u8>, c: int, n: int)
    requires
        steady(px, c),
        0 <= n <= 16,
        0 <= c < 4,
    ensures
        crate::single::is_exactly(channel_sum(px, c, n), n * px[c], 0),
    decreases n,
{
    if n == 0 {
        lemma_whole_zero();
        assert(0 * px[c] == 0);
    } else {
        lemma_steady_sum(px, c, n - 1);
        lemma_steady_value(px, n - 1, c);
        let v = px[c] as int;
        assert((n - 1) * v + v == n * v && 0 <= n * v <= 4080) by (nonlinear_arith)
            requires
                0 <= v <= 255,
                1 <= n <= 16,
        ;
        crate::single::lemma_sum_exact(
            channel_sum(px, c, n - 1),
            (n - 1) * v,
            value(px, n - 1, c),
            v,
            0,
        );
    }
}

proof fn lemma_whole_zero()
    ensures
        crate::single::is_zero(crate::single::whole_number(0)),
{
    vstd::arithmetic::power2::lemma2_to64();
    crate::single::lemma_whole_number(0, 0);
}

proof fn lemma_steady_mean(px: Seq<u8>, c: int)
    requires
        steady(px, c),
        0 <= c < 4,
    ensures
        crate::single::is_exactly(mean(px, c), px[c] as int, 0),
{
    vstd::arithmetic::power2::lemma2_to64();
    lemma_steady_sum(px, c, 16);
    let v = px[c] as int;
    crate::single::lemma_quotient_power(channel_sum(px, c, 16), 16 * v, 4);
    vstd::arithmetic::power2::lemma_pow2_adds(4, 145);
    let p = crate::single::pow2(145);
    assert((16 * v) * p == v * (16 * p)) by (nonlinear_arith);
}

proof fn lemma_steady_offset(px: Seq<u8>, i: int, c: int)
    requires
        steady(px, c),
        0 <= i < 16,
        0 <= c < 4,
    ensures
        crate::single::is_zero(offset(px, i, c)),
{
    lemma_steady_value(px, i, c);
    lemma_steady_mean(px, c);
    let v = px[c] as int;
    crate::single::lemma_difference_exact(value(px, i, c), v, mean(px, c), v, 0);
}

proof fn lemma_steady_extremes(px: Seq<u8>, c: int, n: int)
    requires
        steady(px, c),
        0 <= c < 4,
        0 <= n <= 16,
    ensures
        crate::single::is_exactly(
            lowest(px, c, n),
            if n == 0 {
                255
            } else {
                px[c] as int
            },
            0,
        ),
        crate::single::is_exactly(
            highest(px, c, n),
            if n == 0 {
                0
            } else {
                px[c] as int
            },
            0,
        ),
    decreases n,
{
    vstd::arithmetic::power2::lemma2_to64();
    crate::single::lemma_whole_number(255, 0);
    lemma_whole_zero();
    if n > 0 {
        lemma_steady_extremes(px, c, n - 1);
        lemma_steady_value(px, n - 1, c);
        let v = px[c] as int;
        let u = value(px, n - 1, c);
        let l = if n == 1 {
            255
        } else {
            v
        };
        let h = if n == 1 {
            0
        } else {
            v
        };
        crate::single::lemma_less_units(u, v, lowest(px, c, n - 1), l, 0);
        crate::single::lemma_less_units(highest(px, c, n - 1), h, u, v, 0);
    }
}

/// Four zeros.
pub open spec fn all_zero(v: Seq<Single>) -> bool {
    v.len() == 4 && forall|c: int| 0 <= c < 4 ==> crate::single::is_zero(#[trigger] v[c])
}

proof fn lemma_zero_dot(a: Seq<Single>, b: Seq<Single>)
    requires
        all_zero(a),
        all_zero(b),
    ensures
        crate::single::is_zero(dot(a, b)),
{
    crate::single::lemma_zero_arithmetic(a[0], b[0]);
    crate::single::lemma_zero_arithmetic(a[1], b[1]);
    crate::single::lemma_zero_arithmetic(a[2], b[2]);
    crate::single::lemma_zero_arithmetic(a[3], b[3]);
    let p0 = crate::single::product(a[0], b[0]);
    let p1 = crate::single::product(a[1], b[1]);
    let p2 = crate::single::product(a[2], b[2]);
    let p3 = crate::single::product(a[3], b[3]);
    crate::single::lemma_zero_arithmetic(p0, p1);
    crate::single::lemma_zero_arithmetic(crate::single::sum(p0, p1), p2);
    crate::single::lemma_zero_arithmetic(
        crate::single::sum(crate::single::sum(p0, p1), p2),
        p3,
    );
}

proof fn lemma_uniform_stretched(px: Seq<u8>, axis: Seq<Single>, i: int, n: int)
    requires
        uniform(px),
        all_zero(axis),
        0 <= i < 4,
        0 <= n <= 4,
    ensures
        crate::single::is_zero(stretched(px, axis, i, n)),
    decreases n,
{
    lemma_whole_zero();
    if n > 0 {
        lemma_uniform_stretched(px, axis, i, n - 1);
        lemma_steady_covariance(px, i, n - 1, 16);
        let x = covariance(px, i, n - 1, 16);
        crate::single::lemma_zero_arithmetic(x, axis[n - 1]);
        crate::single::lemma_zero_arithmetic(
            stretched(px, axis, i, n - 1),
            crate::single::product(x, axis[n - 1]),
        );
    }
}

/// The principal axis of a uniform block vanishes.
proof fn lemma_uniform_axis(px: Seq<u8>)
    requires
        uniform(px),
    ensures
        all_zero(principal_axis(px)),
{
    let start = extents(px);
    assert forall|c: int| 0 <= c < 4 implies crate::single::is_zero(#[trigger] start[c]) by {
        lemma_steady_extremes(px, c, 16);
        let v = px[c] as int;
        crate::single::lemma_difference_exact(highest(px, c, 16), v, lowest(px, c, 16), v, 0);
    }
    let next = stretch(px, start);
    assert forall|c: int| 0 <= c < 4 implies crate::single::is_zero(#[trigger] next[c]) by {
        lemma_uniform_stretched(px, start, c, 4);
    }
    lemma_zero_dot(next, next);
    let d = dot(next, next);
    crate::single::lemma_small_ratio();
    crate::single::lemma_zero_arithmetic(d, d);
    crate::single::lemma_zero_arithmetic(crate::single::root(d), crate::single::ratio(1, 10000));
    assert(iterated(px, start, 8) == start);
}

proof fn lemma_uniform_positions(px: Seq<u8>, axis: Seq<Single>, n: int)
    requires
        uniform(px),
        all_zero(axis),
        0 <= n <= 16,
    ensures
        n > 0 ==> crate::single::is_zero(least_position(px, axis, n)),
        n > 0 ==> crate::single::is_zero(greatest_position(px, axis, n)),
    decreases n,
{
    if n > 0 {
        lemma_uniform_positions(px, axis, n - 1);
        let o = offsets_of(px, n - 1);
        assert forall|c: int| 0 <= c < 4 implies crate::single::is_zero(#[trigger] o[c]) by {
            lemma_steady_offset(px, n - 1, c);
        }
        lemma_zero_dot(o, axis);
        let d = dot(o, axis);
        crate::single::lemma_zero_arithmetic(d, largest());
        crate::single::lemma_zero_arithmetic(d, crate::single::negated(largest()));
        if n > 1 {
            crate::single::lemma_zero(least_position(px, axis, n - 1));
            crate::single::lemma_zero(greatest_position(px, axis, n - 1));
            crate::single::lemma_zero_arithmetic(d, least_position(px, axis, n - 1));
            crate::single::lemma_zero_arithmetic(d, greatest_position(px, axis, n - 1));
        }
    }
}

/// A value that is exactly an integer of a byte stays what it is, and is its own level.
proof fn lemma_byte_level(x: Single, v: int)
    requires
        crate::single::is_exactly(x, v, 0),
        0 <= v <= 255,
    ensures
        in_byte_range(x) == x,
        level_of(x) == v,
{
    vstd::arithmetic::power2::lemma2_to64();
    crate::single::lemma_whole_number(255, 0);
    lemma_whole_zero();
    crate::single::lemma_less_units(x, v, crate::single::whole_number(0), 0, 0);
    crate::single::lemma_less_units(crate::single::whole_number(255), 255, x, v, 0);
    crate::single::lemma_nearest_exact(x, v, i32::MIN as int, i32::MAX as int);
}

/// The endpoint of a colour.
pub open spec fn colour_endpoint(px: Seq<u8>) -> Endpoint {
    Endpoint {
        r: px[0] / 2,
        g: px[1] / 2,
        b: px[2] / 2,
        a: px[3] / 2,
        p: if px[0] % 2 != 0 || px[1] % 2 != 0 || px[2] % 2 != 0 || px[3] % 2 != 0 {
            1
        } else {
            0
        },
    }
}

proof fn lemma_uniform_quantized(px: Seq<u8>, point: Seq<Single>)
    requires
        uniform(px),
        point.len() == 4,
        forall|c: int|
            0 <= c < 4 ==> crate::single::is_exactly(#[trigger] point[c], px[c] as int, 0),
    ensures
        quantized(point) == colour_endpoint(px),
{
    lemma_byte_level(point[0], px[0] as int);
    lemma_byte_level(point[1], px[1] as int);
    lemma_byte_level(point[2], px[2] as int);
    lemma_byte_level(point[3], px[3] as int);
}

proof fn lemma_uniform_point(px: Seq<u8>, axis: Seq<Single>, t: Single, c: int)
    requires
        uniform(px),
        all_zero(axis),
        crate::single::is_zero(t),
        0 <= c < 4,
    ensures
        crate::single::is_exactly(point_at(px, axis, t)[c], px[c] as int, 0),
{
    lemma_steady_mean(px, c);
    let v = px[c] as int;
    crate::single::lemma_zero_arithmetic(t, axis[c]);
    let p = crate::single::product(t, axis[c]);
    crate::single::lemma_sum_exact(mean(px, c), v, p, 0, 0);
    lemma_byte_level(crate::single::sum(mean(px, c), p), v);
}

proof fn lemma_uniform_fitted(px: Seq<u8>)
    requires
        uniform(px),
    ensures
        fitted(px) == (colour_endpoint(px), colour_endpoint(px)),
{
    lemma_uniform_axis(px);
    let axis = principal_axis(px);
    lemma_uniform_positions(px, axis, 16);
    let low = least_position(px, axis, 16);
    let high = greatest_position(px, axis, 16);
    lemma_uniform_end(px, axis, low);
    lemma_uniform_end(px, axis, high);
}

proof fn lemma_uniform_end(px: Seq<u8>, axis: Seq<Single>, t: Single)
    requires
        uniform(px),
        all_zero(axis),
        crate::single::is_zero(t),
    ensures
        quantized(point_at(px, axis, t)) == colour_endpoint(px),
{
    let point = point_at(px, axis, t);
    assert forall|c: int| 0 <= c < 4 implies crate::single::is_exactly(
        #[trigger] point[c],
        px[c] as int,
        0,
    ) by {
        lemma_uniform_point(px, axis, t, c);
    }
    lemma_uniform_quantized(px, point);
}

/// Between two equal endpoints the palette is one colour, and every pixel gets its first entry.
proof fn lemma_flat_palette(px: Seq<u8>, e: Endpoint, i: int, n: int)
    requires
        e.in_range(),
        0 <= n <= 16,
    ensures
        closest(px, i, e, e, n) == 0,
        forall|k: int, c: int| 0 <= k < 16 ==> #[trigger] palette(e, e, k, c) == e.level(c),
    decreases n,
{
    assert forall|k: int, c: int| 0 <= k < 16 implies #[trigger] palette(e, e, k, c) == e.level(c)
        by {
        let w = WEIGHTS4@[k] as int;
        let l = e.level(c);
        assert((64 - w) * l + w * l == 64 * l) by (nonlinear_arith);
    }
    if n > 1 {
        lemma_flat_palette(px, e, i, n - 1);
    }
}

proof fn lemma_flat_sums(indices: Seq<u8>, n: int)
    requires
        indices.len() == 16,
        forall|i: int| 0 <= i < 16 ==> #[trigger] indices[i] == 0,
        0 <= n <= 16,
    ensures
        crate::single::is_zero(weight_sum(indices, n)),
        crate::single::is_zero(square_sum(indices, n)),
    decreases n,
{
    lemma_whole_zero();
    if n > 0 {
        lemma_flat_sums(indices, n - 1);
        vstd::arithmetic::power2::lemma2_to64();
        crate::single::lemma_whole_number(64, 0);
        let w = weight(indices, n - 1);
        assert(indices[n - 1] == 0);
        assert(WEIGHTS4@[0] == 0);
        let z = crate::single::whole_number(0);
        let d = crate::single::whole_number(64);
        assert(!crate::single::is_zero(d)) by {
            let q = crate::single::pow2(149);
            vstd::arithmetic::power2::lemma_pow2_pos(149);
            assert(64 * q != 0 * q) by (nonlinear_arith)
                requires
                    q > 0,
            ;
        }
        crate::single::lemma_zero_arithmetic(z, d);
        crate::single::lemma_zero_arithmetic(w, w);
        crate::single::lemma_zero_arithmetic(weight_sum(indices, n - 1), w);
        crate::single::lemma_zero_arithmetic(
            square_sum(indices, n - 1),
            crate::single::product(w, w),
        );
    }
}

proof fn lemma_uniform_refined(px: Seq<u8>, n: int)
    requires
        uniform(px),
    ensures
        refined(px, (colour_endpoint(px), colour_endpoint(px)), n) == (
            colour_endpoint(px),
            colour_endpoint(px),
        ),
    decreases n,
{
    if n > 0 {
        let e = colour_endpoint(px);
        let indices = indices_of(px, e, e);
        assert forall|i: int| 0 <= i < 16 implies #[trigger] indices[i] == 0 by {
            lemma_flat_palette(px, e, i, 16);
        }
        lemma_flat_sums(indices, 16);
        vstd::arithmetic::power2::lemma2_to64();
        crate::single::lemma_whole_number(16, 0);
        let s = crate::single::whole_number(16);
        let w = weight_sum(indices, 16);
        let w2 = square_sum(indices, 16);
        crate::single::lemma_zero_arithmetic(w2, s);
        crate::single::lemma_zero_arithmetic(w, w);
        let d = determinant(indices);
        crate::single::lemma_zero_arithmetic(
            crate::single::product(s, w2),
            crate::single::product(w, w),
        );
        crate::single::lemma_small_ratio();
        crate::single::lemma_zero_arithmetic(d, d);
        crate::single::lemma_zero_arithmetic(
            crate::single::magnitude(d),
            crate::single::ratio(1, 10000),
        );
        let means = Seq::new(4, |c: int| mean(px, c));
        assert forall|c: int| 0 <= c < 4 implies crate::single::is_exactly(
            #[trigger] means[c],
            px[c] as int,
            0,
        ) by {
            lemma_steady_mean(px, c);
        }
        lemma_uniform_quantized(px, means);
        assert(refitted(px, indices) == (e, e));
        lemma_uniform_refined(px, n - 1);
    }
}

/// A block of one colour is encoded to within one level of it, and exactly if its channels are
/// all even or all odd.
pub proof fn law_uniform_block(px: Seq<u8>, refine_iters: int, i: int, c: int)
    requires
        uniform(px),
        0 <= i < 16,
        0 <= c < 4,
    ensures
        ({
            let ends = block_ends(px, refine_iters);
            let shown = palette(ends.0, ends.1, closest(px, i, ends.0, ends.1, 16), c);
            &&& 0 <= shown - px[c] <= 1
            &&& px[0] % 2 == px[1] % 2 && px[1] % 2 == px[2] % 2 && px[2] % 2 == px[3] % 2
                ==> shown == px[c]
        }),
{
    lemma_uniform_fitted(px);
    lemma_uniform_refined(px, refine_iters);
    let e = colour_endpoint(px);
    lemma_flat_palette(px, e, i, 16);
    assert(palette(e, e, 0, c) == e.level(c));
}

/// The indices are those of palette entries.
spec fn all_indices(indices: Seq<u8>) -> bool {
    indices.len() == 16 && forall|i: int| 0 <= i < 16 ==> #[trigger] indices[i] < 16
}

/// The sum of the first `n` weights, in units of 1/64.
spec fn weight_total(indices: Seq<u8>, n: int) -> int
    decreases n,
{
    if n <= 0 {
        0
    } else {
        weight_total(indices, n - 1) + WEIGHTS4@[indices[n - 1] as int]
    }
}

/// The sum of the squares of the first `n` weights, in units of 1/4096.
spec fn square_total(indices: Seq<u8>, n: int) -> int
    decreases n,
{
    if n <= 0 {
        0
    } else {
        square_total(indices, n - 1) + square(WEIGHTS4@[indices[n - 1] as int] as int)
    }
}

/// A weight is exact.
proof fn lemma_weight(indices: Seq<u8>, i: int)
    requires
        all_indices(indices),
        0 <= i < 16,
    ensures
        0 <= WEIGHTS4@[indices[i] as int] <= 64,
        crate::single::is_exactly(weight(indices, i), WEIGHTS4@[indices[i] as int] as int, -6),
{
    vstd::arithmetic::power2::lemma2_to64();
    let k = WEIGHTS4@[indices[i] as int] as int;
    assert(indices[i] < 16);
    assert(0 <= k <= 64);
    assert(k * crate::single::pow2(0) == k) by (nonlinear_arith)
        requires
            crate::single::pow2(0) == 1,
    ;
    crate::single::lemma_whole_number(k, 0);
    crate::single::lemma_quotient_power(crate::single::whole_number(k), k, 6);
}

/// Zero is exact in every unit.
proof fn lemma_zero_units(k: int)
    requires
        -149 <= k,
    ensures
        crate::single::is_exactly(crate::single::whole_number(0), 0, k),
{
    lemma_whole_zero();
    assert(0 * crate::single::pow2(149) == 0);
    assert(0 * crate::single::pow2(k + 149) == 0);
}

/// The sums of the weights and of their squares are exact.
proof fn lemma_weight_sums(indices: Seq<u8>, n: int)
    requires
        all_indices(indices),
        0 <= n <= 16,
    ensures
        0 <= weight_total(indices, n) <= 64 * n,
        0 <= square_total(indices, n) <= 4096 * n,
        crate::single::is_exactly(weight_sum(indices, n), weight_total(indices, n), -6),
        crate::single::is_exactly(square_sum(indices, n), square_total(indices, n), -12),
    decreases n,
{
    if n == 0 {
        lemma_zero_units(-6);
        lemma_zero_units(-12);
    } else {
        lemma_weight_sums(indices, n - 1);
        lemma_weight(indices, n - 1);
        let k = WEIGHTS4@[indices[n - 1] as int] as int;
        let w = weight(indices, n - 1);
        assert(0 <= k * k <= 4096) by (nonlinear_arith)
            requires
                0 <= k <= 64,
        ;
        crate::single::lemma_product_units(w, k, -6, w, k, -6);
        crate::single::lemma_sum_exact(
            weight_sum(indices, n - 1),
            weight_total(indices, n - 1),
            w,
            k,
            -6,
        );
        crate::single::lemma_sum_exact(
            square_sum(indices, n - 1),
            square_total(indices, n - 1),
            crate::single::product(w, w),
            k * k,
            -12,
        );
    }
}

/// The determinant is finite, and where it is not small it is not 0.
proof fn lemma_determinant(indices: Seq<u8>)
    requires
        all_indices(indices),
    ensures
        determinant(indices) is Finite,
        determinant(indices).wf(),
        crate::single::is_zero(determinant(indices)) ==> crate::single::less(
            crate::single::magnitude(determinant(indices)),
            crate::single::ratio(1, 10000),
        ),
{
    vstd::arithmetic::power2::lemma2_to64();
    crate::single::lemma_whole_number(16, 0);
    lemma_weight_sums(indices, 16);
    let k = weight_total(indices, 16);
    let q = square_total(indices, 16);
    let w = weight_sum(indices, 16);
    let s = crate::single::whole_number(16);
    assert(0 <= k * k <= 0x10_0000) by (nonlinear_arith)
        requires
            0 <= k <= 1024,
    ;
    crate::single::lemma_product_units(w, k, -6, w, k, -6);
    crate::single::lemma_product_units(s, 16, 0, square_sum(indices, 16), q, -12);
    crate::single::lemma_difference_exact(
        crate::single::product(s, square_sum(indices, 16)),
        16 * q,
        crate::single::product(w, w),
        k * k,
        -12,
    );
    let d = determinant(indices);
    crate::single::lemma_small_ratio();
    if crate::single::is_zero(d) {
        crate::single::lemma_zero_arithmetic(d, d);
        crate::single::lemma_zero_arithmetic(
            crate::single::magnitude(d),
            crate::single::ratio(1, 10000),
        );
    }
}

/// The weighted sum of a steady channel is exact.
proof fn lemma_steady_weighted(px: Seq<u8>, indices: Seq<u8>, c: int, n: int)
    requires
        steady(px, c),
        all_indices(indices),
        0 <= c < 4,
        0 <= n <= 16,
    ensures
        0 <= px[c] * weight_total(indices, n) <= 255 * (64 * n),
        crate::single::is_exactly(
            weighted_sum(px, indices, c, n),
            px[c] * weight_total(indices, n),
            -6,
        ),
    decreases n,
{
    let v = px[c] as int;
    lemma_weight_sums(indices, n);
    assert(0 <= v * weight_total(indices, n) <= 255 * (64 * n)) by (nonlinear_arith)
        requires
            0 <= v <= 255,
            0 <= weight_total(indices, n) <= 64 * n,
    ;
    if n == 0 {
        lemma_zero_units(-6);
        assert(v * 0 == 0);
    } else {
        lemma_steady_weighted(px, indices, c, n - 1);
        lemma_weight(indices, n - 1);
        lemma_steady_value(px, n - 1, c);
        let k = WEIGHTS4@[indices[n - 1] as int] as int;
        let before = weight_total(indices, n - 1);
        assert(0 <= v * k <= 255 * 64 && v * (before + k) == v * before + v * k)
            by (nonlinear_arith)
            requires
                0 <= v <= 255,
                0 <= k <= 64,
        ;
        let x = value(px, n - 1, c);
        let w = weight(indices, n - 1);
        crate::single::lemma_product_units(x, v, 0, w, k, -6);
        crate::single::lemma_sum_exact(
            weighted_sum(px, indices, c, n - 1),
            v * before,
            crate::single::product(x, w),
            v * k,
            -6,
        );
    }
}

/// A steady channel has no slope, and its value at every weight is the one it has.
proof fn lemma_steady_fit(px: Seq<u8>, indices: Seq<u8>, c: int)
    requires
        steady(px, c),
        all_indices(indices),
        0 <= c < 4,
        !crate::single::is_zero(determinant(indices)),
    ensures
        crate::single::is_exactly(intercept(px, indices, c), px[c] as int, 0),
        crate::single::is_exactly(
            crate::single::sum(intercept(px, indices, c), slope(px, indices, c)),
            px[c] as int,
            0,
        ),
{
    vstd::arithmetic::power2::lemma2_to64();
    crate::single::lemma_whole_number(16, 0);
    lemma_determinant(indices);
    lemma_weight_sums(indices, 16);
    lemma_steady_weighted(px, indices, c, 16);
    lemma_steady_sum(px, c, 16);
    let v = px[c] as int;
    let k = weight_total(indices, 16);
    let s = crate::single::whole_number(16);
    let total = channel_sum(px, c, 16);
    let weighted = weighted_sum(px, indices, c, 16);
    let w = weight_sum(indices, 16);
    assert(16 * (v * k) == k * (16 * v) && 0 <= k * (16 * v) <= 1024 * 4080) by (nonlinear_arith)
        requires
            0 <= v <= 255,
            0 <= k <= 1024,
    ;
    crate::single::lemma_product_units(s, 16, 0, weighted, v * k, -6);
    crate::single::lemma_product_units(w, k, -6, total, 16 * v, 0);
    let rise = crate::single::difference(
        crate::single::product(s, weighted),
        crate::single::product(w, total),
    );
    crate::single::lemma_difference_exact(
        crate::single::product(s, weighted),
        16 * (v * k),
        crate::single::product(w, total),
        k * (16 * v),
        -6,
    );
    assert(crate::single::is_zero(rise)) by {
        assert(0 * crate::single::pow2(143) == 0);
        assert(0 * crate::single::pow2(149) == 0);
    }
    crate::single::lemma_zero_arithmetic(rise, determinant(indices));
    let flat = slope(px, indices, c);
    crate::single::lemma_zero_arithmetic(flat, w);
    let part = crate::single::product(flat, w);
    crate::single::lemma_difference_exact(total, 16 * v, part, 0, 0);
    crate::single::lemma_quotient_power(crate::single::difference(total, part), 16 * v, 4);
    vstd::arithmetic::power2::lemma_pow2_adds(4, 145);
    let p = crate::single::pow2(145);
    assert((16 * v) * p == v * (16 * p)) by (nonlinear_arith);
    crate::single::lemma_sum_exact(intercept(px, indices, c), v, flat, 0, 0);
}

/// A point that is at an odd level in a channel becomes an endpoint at that level.
proof fn lemma_odd_level(point: Seq<Single>, c: int, v: int)
    requires
        0 <= c < 4,
        0 <= v <= 255,
        v % 2 == 1,
        crate::single::is_exactly(point[c], v, 0),
    ensures
        quantized(point).level(c) == v,
{
    lemma_byte_level(point[c], v);
}

/// The refitted endpoints are at the odd level of a steady channel.
proof fn lemma_steady_refitted(px: Seq<u8>, indices: Seq<u8>, c: int)
    requires
        steady(px, c),
        all_indices(indices),
        0 <= c < 4,
        px[c] % 2 == 1,
    ensures
        refitted(px, indices).0.level(c) == px[c],
        refitted(px, indices).1.level(c) == px[c],
{
    let v = px[c] as int;
    lemma_determinant(indices);
    if crate::single::less(
        crate::single::magnitude(determinant(indices)),
        crate::single::ratio(1, 10000),
    ) {
        lemma_steady_mean(px, c);
        lemma_odd_level(Seq::new(4, |d: int| mean(px, d)), c, v);
    } else {
        lemma_steady_fit(px, indices, c);
        let low = Seq::new(4, |d: int| in_byte_range(intercept(px, indices, d)));
        let high = Seq::new(
            4,
            |d: int|
                in_byte_range(
                    crate::single::sum(intercept(px, indices, d), slope(px, indices, d)),
                ),
        );
        lemma_byte_level(intercept(px, indices, c), v);
        lemma_byte_level(
            crate::single::sum(intercept(px, indices, c), slope(px, indices, c)),
            v,
        );
        lemma_odd_level(low, c, v);
        lemma_odd_level(high, c, v);
    }
}

/// Refinement keeps the odd level of a steady channel.
proof fn lemma_steady_refined(px: Seq<u8>, ends: (Endpoint, Endpoint), n: int, c: int)
    requires
        steady(px, c),
        0 <= c < 4,
        px[c] % 2 == 1,
        ends.0.level(c) == px[c],
        ends.1.level(c) == px[c],
    ensures
        refined(px, ends, n).0.level(c) == px[c],
        refined(px, ends, n).1.level(c) == px[c],
    decreases n,
{
    if n > 0 {
        let indices = indices_of(px, ends.0, ends.1);
        assert forall|i: int| 0 <= i < 16 implies #[trigger] indices[i] < 16 by {
            law_closest(px, i, ends.0, ends.1, 16, 0);
        }
        lemma_steady_refitted(px, indices, c);
        lemma_steady_refined(px, refitted(px, indices), n - 1, c);
    }
}

/// The sum of a channel over the first `n` pixels, as an integer.
spec fn channel_total(px: Seq<u8>, c: int, n: int) -> int
    decreases n,
{
    if n <= 0 {
        0
    } else {
        channel_total(px, c, n - 1) + px[4 * (n - 1) + c]
    }
}

/// A byte is exact, and within 256.
proof fn lemma_value(px: Seq<u8>, i: int, c: int)
    requires
        px.len() == 64,
        0 <= i < 16,
        0 <= c < 4,
    ensures
        crate::single::is_exactly(value(px, i, c), px[4 * i + c] as int, 0),
        crate::single::within(value(px, i, c), 8),
{
    vstd::arithmetic::power2::lemma2_to64();
    let v = px[4 * i + c] as int;
    assert(v * crate::single::pow2(0) == v) by (nonlinear_arith)
        requires
            crate::single::pow2(0) == 1,
    ;
    crate::single::lemma_whole_number(v, 0);
    crate::single::lemma_exact_within(value(px, i, c), v, 0, 8);
}

/// The sum of a channel is exact.
proof fn lemma_channel_sum(px: Seq<u8>, c: int, n: int)
    requires
        px.len() == 64,
        0 <= c < 4,
        0 <= n <= 16,
    ensures
        0 <= channel_total(px, c, n) <= 255 * n,
        crate::single::is_exactly(channel_sum(px, c, n), channel_total(px, c, n), 0),
    decreases n,
{
    if n == 0 {
        lemma_zero_units(0);
    } else {
        lemma_channel_sum(px, c, n - 1);
        lemma_value(px, n - 1, c);
        crate::single::lemma_sum_exact(
            channel_sum(px, c, n - 1),
            channel_total(px, c, n - 1),
            value(px, n - 1, c),
            px[4 * (n - 1) + c] as int,
            0,
        );
    }
}

/// An offset is within 256.
proof fn lemma_offset(px: Seq<u8>, i: int, c: int)
    requires
        px.len() == 64,
        0 <= i < 16,
        0 <= c < 4,
    ensures
        crate::single::within(offset(px, i, c), 8),
{
    vstd::arithmetic::power2::lemma2_to64();
    lemma_channel_sum(px, c, 16);
    lemma_value(px, i, c);
    let total = channel_total(px, c, 16);
    let v = px[4 * i + c] as int;
    crate::single::lemma_quotient_power(channel_sum(px, c, 16), total, 4);
    crate::single::lemma_finer_units(value(px, i, c), v, 0, 4);
    assert(v * crate::single::pow2(4) == 16 * v) by (nonlinear_arith)
        requires
            crate::single::pow2(4) == 16,
    ;
    crate::single::lemma_difference_exact(value(px, i, c), 16 * v, mean(px, c), total, -4);
    crate::single::lemma_exact_within(offset(px, i, c), 16 * v - total, -4, 8);
}

/// A covariance is within `2^32`.
proof fn lemma_covariance(px: Seq<u8>, a: int, b: int, n: int)
    requires
        px.len() == 64,
        0 <= a < 4,
        0 <= b < 4,
        0 <= n <= 16,
    ensures
        crate::single::within(covariance(px, a, b, n), 16 + n),
    decreases n,
{
    if n == 0 {
        lemma_whole_zero();
        crate::single::lemma_zero_within(crate::single::whole_number(0), 16);
    } else {
        lemma_covariance(px, a, b, n - 1);
        lemma_offset(px, n - 1, a);
        lemma_offset(px, n - 1, b);
        let (x, y) = (offset(px, n - 1, a), offset(px, n - 1, b));
        crate::single::lemma_product_within(x, y, 8, 8);
        crate::single::lemma_within_more(crate::single::product(x, y), 16, 15 + n);
        crate::single::lemma_sum_within(
            covariance(px, a, b, n - 1),
            crate::single::product(x, y),
            15 + n,
        );
    }
}

/// The covariance of a steady channel with any other vanishes.
proof fn lemma_steady_covariance(px: Seq<u8>, a: int, b: int, n: int)
    requires
        steady(px, a),
        0 <= a < 4,
        0 <= b < 4,
        0 <= n <= 16,
    ensures
        crate::single::is_zero(covariance(px, a, b, n)),
    decreases n,
{
    lemma_whole_zero();
    if n > 0 {
        lemma_steady_covariance(px, a, b, n - 1);
        lemma_steady_offset(px, n - 1, a);
        lemma_offset(px, n - 1, b);
        let (x, y) = (offset(px, n - 1, a), offset(px, n - 1, b));
        crate::single::lemma_zero_arithmetic(x, y);
        crate::single::lemma_zero_arithmetic(
            covariance(px, a, b, n - 1),
            crate::single::product(x, y),
        );
    }
}

/// The extremes of a channel are within 256.
proof fn lemma_extremes(px: Seq<u8>, c: int, n: int)
    requires
        px.len() == 64,
        0 <= c < 4,
        0 <= n <= 16,
    ensures
        crate::single::within(lowest(px, c, n), 8),
        crate::single::within(highest(px, c, n), 8),
    decreases n,
{
    if n == 0 {
        vstd::arithmetic::power2::lemma2_to64();
        crate::single::lemma_whole_number(255, 0);
        crate::single::lemma_exact_within(crate::single::whole_number(255), 255, 0, 8);
        lemma_whole_zero();
        crate::single::lemma_zero_within(crate::single::whole_number(0), 8);
    } else {
        lemma_extremes(px, c, n - 1);
        lemma_value(px, n - 1, c);
    }
}

/// A vector whose entries are within 512, and 0 in channel `c`.
spec fn is_tame(axis: Seq<Single>, c: int) -> bool {
    &&& axis.len() == 4
    &&& forall|d: int| 0 <= d < 4 ==> crate::single::within(#[trigger] axis[d], 9)
    &&& crate::single::is_zero(axis[c])
}

/// The extents of a block with a steady channel.
proof fn lemma_tame_extents(px: Seq<u8>, c: int)
    requires
        steady(px, c),
        0 <= c < 4,
    ensures
        is_tame(extents(px), c),
{
    let axis = extents(px);
    assert forall|d: int| 0 <= d < 4 implies crate::single::within(#[trigger] axis[d], 9) by {
        lemma_extremes(px, d, 16);
        crate::single::lemma_sum_within(
            highest(px, d, 16),
            crate::single::negated(lowest(px, d, 16)),
            8,
        );
    }
    lemma_steady_extremes(px, c, 16);
    let v = px[c] as int;
    crate::single::lemma_difference_exact(highest(px, c, 16), v, lowest(px, c, 16), v, 0);
}

/// The covariance matrix keeps a tame vector within bounds, and its steady channel at 0.
proof fn lemma_tame_stretched(px: Seq<u8>, axis: Seq<Single>, c: int, i: int, n: int)
    requires
        steady(px, c),
        is_tame(axis, c),
        0 <= c < 4,
        0 <= i < 4,
        0 <= n <= 4,
    ensures
        crate::single::within(stretched(px, axis, i, n), 41 + n),
        i == c ==> crate::single::is_zero(stretched(px, axis, i, n)),
    decreases n,
{
    lemma_whole_zero();
    if n == 0 {
        crate::single::lemma_zero_within(crate::single::whole_number(0), 41);
    } else {
        lemma_tame_stretched(px, axis, c, i, n - 1);
        lemma_covariance(px, i, n - 1, 16);
        let x = covariance(px, i, n - 1, 16);
        let y = axis[n - 1];
        let before = stretched(px, axis, i, n - 1);
        crate::single::lemma_product_within(x, y, 32, 9);
        crate::single::lemma_within_more(crate::single::product(x, y), 41, 40 + n);
        crate::single::lemma_sum_within(before, crate::single::product(x, y), 40 + n);
        if i == c {
            lemma_steady_covariance(px, c, n - 1, 16);
            crate::single::lemma_zero_arithmetic(x, y);
            crate::single::lemma_zero_arithmetic(before, crate::single::product(x, y));
        }
    }
}

/// A scalar product keeps within bounds.
proof fn lemma_dot_within(a: Seq<Single>, b: Seq<Single>, t: int, u: int)
    requires
        forall|d: int| 0 <= d < 4 ==> crate::single::within(#[trigger] a[d], t),
        forall|d: int| 0 <= d < 4 ==> crate::single::within(#[trigger] b[d], u),
        -149 <= t,
        -149 <= u,
        -149 <= t + u <= 124,
    ensures
        crate::single::within(dot(a, b), t + u + 3),
{
    let p = |d: int| crate::single::product(a[d], b[d]);
    assert forall|d: int| 0 <= d < 4 implies crate::single::within(#[trigger] p(d), t + u) by {
        crate::single::lemma_product_within(a[d], b[d], t, u);
    }
    let (p0, p1, p2, p3) = (p(0), p(1), p(2), p(3));
    crate::single::lemma_sum_within(p0, p1, t + u);
    crate::single::lemma_within_more(p2, t + u, t + u + 1);
    crate::single::lemma_sum_within(crate::single::sum(p0, p1), p2, t + u + 1);
    crate::single::lemma_within_more(p3, t + u, t + u + 2);
    crate::single::lemma_sum_within(
        crate::single::sum(crate::single::sum(p0, p1), p2),
        p3,
        t + u + 2,
    );
}

/// A vector times itself is not negative, and as large as the square of an entry.
proof fn lemma_dot_least(v: Seq<Single>, t: int, d: int)
    requires
        forall|k: int| 0 <= k < 4 ==> crate::single::within(#[trigger] v[k], t),
        -74 <= t <= 62,
        0 <= d < 4,
    ensures
        !dot(v, v)->Finite_neg,
        v[d]->mant >= 0x80_0000 && 2 * v[d]->exp + 23 > -149 ==> dot(v, v)->exp >= 2 * v[d]->exp
            + 23,
{
    let p = |k: int| crate::single::product(v[k], v[k]);
    assert forall|k: int| 0 <= k < 4 implies crate::single::within(#[trigger] p(k), 2 * t)
        && !p(k)->Finite_neg && (v[k]->mant >= 0x80_0000 ==> p(k)->exp >= 2 * v[k]->exp + 23) by {
        crate::single::lemma_product_within(v[k], v[k], t, t);
        crate::single::lemma_square_least(v[k]);
    }
    let (p0, p1, p2, p3) = (p(0), p(1), p(2), p(3));
    let s1 = crate::single::sum(p0, p1);
    let s2 = crate::single::sum(s1, p2);
    let s3 = crate::single::sum(s2, p3);
    crate::single::lemma_sum_within(p0, p1, 2 * t);
    crate::single::lemma_within_more(p2, 2 * t, 2 * t + 1);
    crate::single::lemma_sum_within(s1, p2, 2 * t + 1);
    crate::single::lemma_within_more(p3, 2 * t, 2 * t + 2);
    crate::single::lemma_sum_within(s2, p3, 2 * t + 2);
    crate::single::lemma_sum_least(p0, p1);
    crate::single::lemma_sum_least(s1, p2);
    crate::single::lemma_sum_least(s2, p3);
    assert(s3 == dot(v, v));
    assert(d == 0 || d == 1 || d == 2 || d == 3);
}

/// An entry with the largest exponent.
spec fn is_longest(v: Seq<Single>, d: int) -> bool {
    0 <= d < 4 && forall|k: int| 0 <= k < 4 ==> (#[trigger] v[k])->exp <= v[d]->exp
}

proof fn lemma_longest(v: Seq<Single>) -> (d: int)
    ensures
        is_longest(v, d),
{
    let a = if v[0]->exp >= v[1]->exp {
        0int
    } else {
        1
    };
    let b = if v[2]->exp >= v[3]->exp {
        2int
    } else {
        3
    };
    let d = if v[a]->exp >= v[b]->exp {
        a
    } else {
        b
    };
    assert forall|k: int| 0 <= k < 4 implies (#[trigger] v[k])->exp <= v[d]->exp by {
        assert(k == 0 || k == 1 || k == 2 || k == 3);
    }
    d
}

/// A vector that is not very short, divided by its length, has entries within 2.
proof fn lemma_shortened(next: Seq<Single>)
    requires
        forall|d: int| 0 <= d < 4 ==> crate::single::within(#[trigger] next[d], 45),
        crate::single::less(
            crate::single::ratio(1, 10000),
            crate::single::root(dot(next, next)),
        ),
    ensures
        ({
            let length = crate::single::root(dot(next, next));
            &&& length is Finite
            &&& length.wf()
            &&& length->mant > 0
            &&& forall|d: int|
                0 <= d < 4 ==> crate::single::within(#[trigger] shortened(next, length)[d], 1)
        }),
{
    let l = lemma_longest(next);
    let e = next[l]->exp as int;
    let d = dot(next, next);
    let length = crate::single::root(d);
    lemma_dot_within(next, next, 45, 45);
    lemma_dot_least(next, 45, l);
    crate::single::lemma_small_ratio();
    crate::single::lemma_zero(d);
    if d->mant == 0 {
        crate::single::lemma_zero_arithmetic(d, d);
        crate::single::lemma_zero_arithmetic(length, crate::single::ratio(1, 10000));
    } else {
        crate::single::lemma_root(d);
        crate::single::lemma_within_exponent(d, 93);
        assert forall|k: int| 0 <= k < 4 implies crate::single::within(
            #[trigger] next[k],
            e + 24,
        ) by {
            crate::single::lemma_exponent_within(next[k], e);
        }
        if e < -85 {
            assert forall|k: int| 0 <= k < 4 implies crate::single::within(
                #[trigger] next[k],
                -62,
            ) by {
                crate::single::lemma_within_more(next[k], e + 24, -62);
            }
            lemma_dot_within(next, next, -62, -62);
            crate::single::lemma_within_exponent(d, -121);
            crate::single::lemma_not_less(crate::single::ratio(1, 10000), length);
        } else {
            assert forall|k: int| 0 <= k < 4 implies crate::single::within(
                #[trigger] shortened(next, length)[k],
                1,
            ) by {
                assert(crate::single::within(next[k], e + 24));
                crate::single::lemma_quotient_within(next[k], length, e + 24, e + 23);
            }
        }
    }
}

/// Power iteration keeps a vector tame.
proof fn lemma_tame_iterated(px: Seq<u8>, axis: Seq<Single>, c: int, n: int)
    requires
        steady(px, c),
        is_tame(axis, c),
        0 <= c < 4,
    ensures
        is_tame(iterated(px, axis, n), c),
    decreases n,
{
    if n > 0 {
        let next = stretch(px, axis);
        let length = crate::single::root(dot(next, next));
        if crate::single::less(crate::single::ratio(1, 10000), length) {
            assert forall|d: int| 0 <= d < 4 implies crate::single::within(
                #[trigger] next[d],
                45,
            ) by {
                lemma_tame_stretched(px, axis, c, d, 4);
            }
            lemma_shortened(next);
            let short = shortened(next, length);
            assert forall|d: int| 0 <= d < 4 implies crate::single::within(
                #[trigger] short[d],
                9,
            ) by {
                crate::single::lemma_within_more(short[d], 1, 9);
            }
            lemma_tame_stretched(px, axis, c, c, 4);
            crate::single::lemma_zero(length);
            crate::single::lemma_zero_arithmetic(next[c], length);
            lemma_tame_iterated(px, short, c, n - 1);
        }
    }
}

/// The positions along a tame axis are finite.
proof fn lemma_tame_positions(px: Seq<u8>, axis: Seq<Single>, c: int, n: int)
    requires
        px.len() == 64,
        is_tame(axis, c),
        0 <= n <= 16,
    ensures
        least_position(px, axis, n) is Finite,
        least_position(px, axis, n).wf(),
        greatest_position(px, axis, n) is Finite,
        greatest_position(px, axis, n).wf(),
    decreases n,
{
    if n > 0 {
        lemma_tame_positions(px, axis, c, n - 1);
        let o = offsets_of(px, n - 1);
        assert forall|d: int| 0 <= d < 4 implies crate::single::within(#[trigger] o[d], 8) by {
            lemma_offset(px, n - 1, d);
        }
        lemma_dot_within(o, axis, 8, 9);
    }
}

/// A point on a tame axis has the odd level of a steady channel.
proof fn lemma_tame_point(px: Seq<u8>, axis: Seq<Single>, t: Single, c: int)
    requires
        steady(px, c),
        is_tame(axis, c),
        t is Finite,
        t.wf(),
        0 <= c < 4,
        px[c] % 2 == 1,
    ensures
        quantized(point_at(px, axis, t)).level(c) == px[c],
{
    lemma_steady_mean(px, c);
    let v = px[c] as int;
    crate::single::lemma_zero_arithmetic(axis[c], t);
    let p = crate::single::product(t, axis[c]);
    crate::single::lemma_sum_exact(mean(px, c), v, p, 0, 0);
    lemma_byte_level(crate::single::sum(mean(px, c), p), v);
    lemma_odd_level(point_at(px, axis, t), c, v);
}

/// The first endpoints are at the odd level of a steady channel.
proof fn lemma_steady_fitted(px: Seq<u8>, c: int)
    requires
        steady(px, c),
        0 <= c < 4,
        px[c] % 2 == 1,
    ensures
        fitted(px).0.level(c) == px[c],
        fitted(px).1.level(c) == px[c],
{
    lemma_tame_extents(px, c);
    lemma_tame_iterated(px, extents(px), c, 8);
    let axis = principal_axis(px);
    lemma_tame_positions(px, axis, c, 16);
    lemma_tame_point(px, axis, least_position(px, axis, 16), c);
    lemma_tame_point(px, axis, greatest_position(px, axis, 16), c);
}

/// A channel that is at one odd level in all pixels of a block comes back at that level. So an
/// opaque block stays opaque.
pub proof fn law_steady_channel(px: Seq<u8>, refine_iters: int, i: int, c: int)
    requires
        steady(px, c),
        px[c] % 2 == 1,
        0 <= c < 4,
        0 <= i < 16,
    ensures
        ({
            let ends = block_ends(px, refine_iters);
            palette(ends.0, ends.1, closest(px, i, ends.0, ends.1, 16), c) == px[c]
        }),
{
    lemma_steady_fitted(px, c);
    lemma_steady_refined(px, fitted(px), refine_iters, c);
    let ends = block_ends(px, refine_iters);
    law_closest(px, i, ends.0, ends.1, 16, 0);
    let k = closest(px, i, ends.0, ends.1, 16);
    let w = WEIGHTS4@[k] as int;
    let v = px[c] as int;
    assert((64 - w) * v + w * v == 64 * v) by (nonlinear_arith);
}

/// Every pixel of an image is opaque.
pub open spec fn is_opaque(rgba: Seq<u8>) -> bool {
    forall|p: int| 0 <= p && 4 * p + 3 < rgba.len() ==> #[trigger] rgba[4 * p + 3] == 255
}

/// The block of a pixel of an opaque image is opaque.
pub proof fn lemma_opaque_block(rgba: Seq<u8>, width: int, height: int, x: int, y: int)
    requires
        crate::dxt::whole_blocks(width, height),
        rgba.len() == width * height * 4,
        is_opaque(rgba),
        0 <= x < width,
        0 <= y < height,
    ensures
        ({
            let px = block_at(rgba, width, (y / 4) * (width / 4) + x / 4);
            steady(px, 3) && px[3] == 255
        }),
{
    let px = block_at(rgba, width, (y / 4) * (width / 4) + x / 4);
    assert forall|j: int| 0 <= j < 16 implies #[trigger] px[4 * j + 3] == 255 by {
        let u = 4 * (x / 4) + j % 4;
        let v = 4 * (y / 4) + j / 4;
        lemma_block_position(rgba, width, height, u, v, 3);
        let p = v * width + u;
        assert(0 <= p < width * height) by (nonlinear_arith)
            requires
                p == v * width + u,
                0 <= u < width,
                0 <= v < height,
        ;
        assert(rgba[4 * p + 3] == 255);
    }
    assert(px[4 * 0int + 3] == 255);
    assert forall|j: int| 0 <= j < 16 implies #[trigger] like_first(px, j, 3) by {
        assert(px[4 * j + 3] == 255);
    }
}

// ---------------------------------------------------------------------------------------------
// Laws of the parts.
// ---------------------------------------------------------------------------------------------

/// The palette divides the way between the endpoints into fifteen steps, in 64ths to the nearest:
/// it begins at one and ends at the other, and each entry is its share of both, rounded.
pub proof fn law_palette(first: Endpoint, second: Endpoint, k: int, c: int)
    requires
        0 <= k < 16,
        0 <= c < 4,
    ensures
        palette(first, second, 0, c) == first.level(c),
        palette(first, second, 15, c) == second.level(c),
        ({
            let w = WEIGHTS4@[k] as int;
            let v = palette(first, second, k, c);
            &&& -15 <= 2 * (15 * w - 64 * k) <= 15
            &&& -64 < 2 * (64 * v - ((64 - w) * first.level(c) + w * second.level(c))) <= 64
        }),
        first.level(c) == second.level(c) ==> palette(first, second, k, c) == first.level(c),
{
    let w = WEIGHTS4@[k] as int;
    let a = first.level(c);
    let b = second.level(c);
    assert(k == 0 || k == 1 || k == 2 || k == 3 || k == 4 || k == 5 || k == 6 || k == 7 || k == 8
        || k == 9 || k == 10 || k == 11 || k == 12 || k == 13 || k == 14 || k == 15);
    assert(a == b ==> (64 - w) * a + w * b == 64 * a) by (nonlinear_arith);
    assert((64 - 0) * a + 0 * b == 64 * a && (64 - 64) * a + 64 * b == 64 * b) by (nonlinear_arith);
}

/// An endpoint keeps the seven high bits of the byte nearest to each channel, and one bit for all:
/// it is set exactly if a channel is odd. Of whole numbers the channels are kept to within one
/// level, and exactly if all are even or all odd.
pub proof fn law_quantized(v: Seq<int>, c: int)
    requires
        v.len() == 4,
        forall|i: int| 0 <= i < 4 ==> 0 <= #[trigger] v[i] <= 255,
        0 <= c < 4,
    ensures
        ({
            let e = quantized(Seq::new(4, |i: int| crate::single::whole_number(v[i])));
            let odd = v[0] % 2 + v[1] % 2 + v[2] % 2 + v[3] % 2;
            &&& e.in_range()
            &&& e.p == 1 <==> odd > 0
            &&& -1 <= e.level(c) - v[c] <= 1
            &&& odd == 0 || odd == 4 ==> e.level(c) == v[c]
        }),
{
    lemma_whole_level(v[0]);
    lemma_whole_level(v[1]);
    lemma_whole_level(v[2]);
    lemma_whole_level(v[3]);
}

proof fn lemma_whole_level(n: int)
    requires
        0 <= n <= 255,
    ensures
        level_of(crate::single::whole_number(n)) == n,
        high_bits_of(crate::single::whole_number(n)) == n / 2,
{
    vstd::arithmetic::power2::lemma2_to64();
    assert(n * crate::single::pow2(0) == n) by (nonlinear_arith)
        requires
            crate::single::pow2(0) == 1,
    ;
    crate::single::lemma_whole_number(n, 0);
    crate::single::lemma_nearest_exact(
        crate::single::whole_number(n),
        n,
        i32::MIN as int,
        i32::MAX as int,
    );
}

/// The lowest and the highest value of a channel are those that no pixel is below or above, and
/// the extent is what lies between them.
pub proof fn law_extent(px: Seq<u8>, c: int, lo: int, hi: int)
    requires
        px.len() == 64,
        0 <= c < 4,
        forall|i: int| 0 <= i < 16 ==> lo <= #[trigger] px[4 * i + c] <= hi,
        exists|i: int| 0 <= i < 16 && #[trigger] px[4 * i + c] == lo,
        exists|i: int| 0 <= i < 16 && #[trigger] px[4 * i + c] == hi,
    ensures
        crate::single::is_exactly(lowest(px, c, 16), lo, 0),
        crate::single::is_exactly(highest(px, c, 16), hi, 0),
        crate::single::is_exactly(extent(px, c), hi - lo, 0),
{
    let (l, i) = lemma_lowest(px, c, 16);
    let (h, j) = lemma_highest(px, c, 16);
    let low = choose|i: int| 0 <= i < 16 && #[trigger] px[4 * i + c] == lo;
    let high = choose|i: int| 0 <= i < 16 && #[trigger] px[4 * i + c] == hi;
    assert(px[4 * low + c] == lo && px[4 * high + c] == hi);
    assert(l == lo && h == hi);
    crate::single::lemma_difference_exact(highest(px, c, 16), hi, lowest(px, c, 16), lo, 0);
}

proof fn lemma_lowest(px: Seq<u8>, c: int, n: int) -> (r: (int, int))
    requires
        px.len() == 64,
        0 <= c < 4,
        0 <= n <= 16,
    ensures
        crate::single::is_exactly(lowest(px, c, n), r.0, 0),
        0 <= r.0 <= 255,
        forall|i: int| 0 <= i < n ==> r.0 <= #[trigger] px[4 * i + c],
        r.0 == 255 || 0 <= r.1 < n && px[4 * r.1 + c] == r.0,
    decreases n,
{
    if n == 0 {
        vstd::arithmetic::power2::lemma2_to64();
        assert(255 * crate::single::pow2(0) == 255);
        crate::single::lemma_whole_number(255, 0);
        (255, 0)
    } else {
        let (v, at) = lemma_lowest(px, c, n - 1);
        lemma_value(px, n - 1, c);
        let w = px[4 * (n - 1) + c] as int;
        crate::single::lemma_less_units(value(px, n - 1, c), w, lowest(px, c, n - 1), v, 0);
        if w < v {
            (w, n - 1)
        } else {
            (v, at)
        }
    }
}

proof fn lemma_highest(px: Seq<u8>, c: int, n: int) -> (r: (int, int))
    requires
        px.len() == 64,
        0 <= c < 4,
        0 <= n <= 16,
    ensures
        crate::single::is_exactly(highest(px, c, n), r.0, 0),
        0 <= r.0 <= 255,
        forall|i: int| 0 <= i < n ==> #[trigger] px[4 * i + c] <= r.0,
        r.0 == 0 || 0 <= r.1 < n && px[4 * r.1 + c] == r.0,
    decreases n,
{
    if n == 0 {
        vstd::arithmetic::power2::lemma2_to64();
        crate::single::lemma_whole_number(0, 0);
        (0, 0)
    } else {
        let (v, at) = lemma_highest(px, c, n - 1);
        lemma_value(px, n - 1, c);
        let w = px[4 * (n - 1) + c] as int;
        crate::single::lemma_less_units(highest(px, c, n - 1), v, value(px, n - 1, c), w, 0);
        if v < w {
            (w, n - 1)
        } else {
            (v, at)
        }
    }
}

/// When blocks are made and read, and when not: dimensions that are not multiples of 4 come first,
/// then a buffer of another size than four bytes for each pixel. Blocks have 16 bytes each, and
/// bytes after the last of them do not count.
pub proof fn law_outcomes(bytes: Seq<u8>, width: int, height: int, rounds: int)
    ensures
        ({
            let whole = width % 4 == 0 && height % 4 == 0;
            let need = 16 * ((width / 4) * (height / 4));
            let made = compressed(bytes, width, height, rounds);
            let read = decompressed(bytes, width, height);
            &&& !whole ==> made == Err::<Seq<u8>, Bc7Error>(bad_dimensions(width, height))
            &&& !whole ==> read == Err::<Seq<u8>, Bc7Error>(bad_dimensions(width, height))
            &&& whole && bytes.len() != 4 * (width * height) ==> made == Err::<Seq<u8>, Bc7Error>(
                bad_size(4 * (width * height), bytes.len() as int),
            )
            &&& whole && bytes.len() < need ==> read == Err::<Seq<u8>, Bc7Error>(
                bad_size(need, bytes.len() as int),
            )
            &&& whole && bytes.len() == 4 * (width * height) ==> made is Ok
            &&& whole && bytes.len() >= need ==> read is Ok
        }),
{
    assert(width * height * 4 == 4 * (width * height));
    assert((width / 4) * (height / 4) * 16 == 16 * ((width / 4) * (height / 4)));
}

/// The covariance of two channels is the same in either order.
pub proof fn law_covariance_even(px: Seq<u8>, a: int, b: int, n: int)
    ensures
        covariance(px, a, b, n) == covariance(px, b, a, n),
    decreases n,
{
    if n > 0 {
        law_covariance_even(px, a, b, n - 1);
        reveal(crate::single::product);
        let x = offset(px, n - 1, a);
        let y = offset(px, n - 1, b);
        if x is Finite && y is Finite {
            let m = x->mant;
            let w = y->mant;
            assert(m * w == w * m) by (nonlinear_arith);
        }
        assert(crate::single::product(x, y) == crate::single::product(y, x));
    }
}

/// Rounds of refinement add up: none changes nothing, and some rounds after others are all of them.
/// A round gives every pixel its closest entry and fits the endpoints to that.
pub proof fn law_refinement(px: Seq<u8>, ends: (Endpoint, Endpoint), m: int, n: int)
    requires
        0 <= m,
        0 <= n,
    ensures
        refined(px, ends, 0) == ends,
        refined(px, ends, 1) == refitted(px, indices_of(px, ends.0, ends.1)),
        refined(px, refined(px, ends, m), n) == refined(px, ends, m + n),
    decreases m,
{
    reveal_with_fuel(refined, 2);
    if m > 0 {
        law_refinement(px, refitted(px, indices_of(px, ends.0, ends.1)), m - 1, n);
    }
}

} // verus!
