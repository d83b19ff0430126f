//! Integers stored as bytes, in either byte order.

use vstd::prelude::*;

verus! {

/// The three-byte integer at `i`, least significant byte first.
pub open spec fn le24(s: Seq<u8>, i: int) -> int {
    s[i] + s[i + 1] * 0x100 + s[i + 2] * 0x1_0000
}

/// The four-byte integer at `i`, least significant byte first.
pub open spec fn le32(s: Seq<u8>, i: int) -> int {
    s[i] + s[i + 1] * 0x100 + s[i + 2] * 0x1_0000 + s[i + 3] * 0x100_0000
}

/// The two-byte integer at `i`, most significant byte first.
pub open spec fn be16(s: Seq<u8>, i: int) -> int {
    s[i] * 0x100 + s[i + 1]
}

/// The four-byte integer at `i`, most significant byte first.
pub open spec fn be32(s: Seq<u8>, i: int) -> int {
    s[i] * 0x100_0000 + s[i + 1] * 0x1_0000 + s[i + 2] * 0x100 + s[i + 3]
}

/// The eight-byte integer at `i`, most significant byte first.
pub open spec fn be64(s: Seq<u8>, i: int) -> int {
    be32(s, i) * 0x1_0000_0000 + be32(s, i + 4)
}

/// The low four bytes of `v`, least significant byte first.
pub open spec fn le32_bytes(v: int) -> Seq<u8> {
    seq![
        (v % 0x100) as u8,
        (v / 0x100 % 0x100) as u8,
        (v / 0x1_0000 % 0x100) as u8,
        (v / 0x100_0000 % 0x100) as u8,
    ]
}

/// The low two bytes of `v`, most significant byte first.
pub open spec fn be16_bytes(v: int) -> Seq<u8> {
    seq![(v / 0x100 % 0x100) as u8, (v % 0x100) as u8]
}

/// The low four bytes of `v`, most significant byte first.
pub open spec fn be32_bytes(v: int) -> Seq<u8> {
    seq![
        (v / 0x100_0000 % 0x100) as u8,
        (v / 0x1_0000 % 0x100) as u8,
        (v / 0x100 % 0x100) as u8,
        (v % 0x100) as u8,
    ]
}

/// The low eight bytes of `v`, most significant byte first.
pub open spec fn be64_bytes(v: int) -> Seq<u8> {
    be32_bytes(v / 0x1_0000_0000) + be32_bytes(v)
}

/// Integers of the right size are recovered from their bytes.
pub proof fn law_bytes_round_trip(v: int)
    ensures
        0 <= v < 0x1_0000 ==> be16(be16_bytes(v), 0) == v,
        0 <= v < 0x1_0000_0000 ==> le32(le32_bytes(v), 0) == v,
        0 <= v < 0x1_0000_0000 ==> be32(be32_bytes(v), 0) == v,
        0 <= v < 0x1_0000_0000_0000_0000 ==> be64(be64_bytes(v), 0) == v,
{
    lemma_be32_bytes(v);
    lemma_low_bytes(v);
    if 0 <= v < 0x1_0000_0000_0000_0000 {
        lemma_be32_bytes(v / 0x1_0000_0000);
        let b = be64_bytes(v);
        assert(forall|i: int| 0 <= i < 4 ==> b[i] == be32_bytes(v / 0x1_0000_0000)[i]);
        assert(forall|i: int| 0 <= i < 4 ==> b[i + 4] == #[trigger] be32_bytes(v)[i]);
    }
}

/// The low 32 bits of an integer, byte by byte.
pub proof fn lemma_low_bytes(v: int)
    ensures
        v % 0x1_0000_0000 == v % 0x100 + (v / 0x100 % 0x100) * 0x100 + (v / 0x1_0000 % 0x100)
            * 0x1_0000 + (v / 0x100_0000 % 0x100) * 0x100_0000,
        ({
            let r = v % 0x1_0000_0000;
            &&& r % 0x100 == v % 0x100
            &&& r / 0x100 % 0x100 == v / 0x100 % 0x100
            &&& r / 0x1_0000 % 0x100 == v / 0x1_0000 % 0x100
            &&& r / 0x100_0000 % 0x100 == v / 0x100_0000 % 0x100
        }),
{
    let a = v / 0x100;
    let b = a / 0x100;
    let c = b / 0x100;
    let d = c / 0x100;
    let r0 = v % 0x100;
    let r1 = a % 0x100;
    let r2 = b % 0x100;
    let r3 = c % 0x100;
    assert(v / 0x1_0000 == b);
    assert(v / 0x100_0000 == c);
    assert(v / 0x1_0000_0000 == d);
    let r = v % 0x1_0000_0000;
    assert(r == r0 + r1 * 0x100 + r2 * 0x1_0000 + r3 * 0x100_0000);
    assert(r / 0x100 == r1 + r2 * 0x100 + r3 * 0x1_0000);
    assert(r / 0x1_0000 == r2 + r3 * 0x100);
    assert(r / 0x100_0000 == r3);
}

proof fn lemma_be32_bytes(v: int)
    ensures
        be32(be32_bytes(v), 0) == v % 0x1_0000_0000,
        be32_bytes(v).len() == 4,
{
    lemma_low_bytes(v);
}

/// What an integer read from the middle of a buffer depends on.
pub proof fn lemma_read_at(s: Seq<u8>, i: int, part: Seq<u8>)
    requires
        0 <= i,
        i + part.len() <= s.len(),
        part == s.subrange(i, i + part.len()),
    ensures
        part.len() >= 2 ==> be16(s, i) == be16(part, 0),
        part.len() >= 4 ==> be32(s, i) == be32(part, 0),
        part.len() >= 4 ==> le32(s, i) == le32(part, 0),
        part.len() >= 8 ==> be64(s, i) == be64(part, 0),
{
    assert(forall|j: int| 0 <= j < part.len() ==> part[j] == s[i + j]);
}

/// The four-byte integer at `i`, least significant byte first.
pub fn read_le32(s: &[u8], i: usize) -> (r: u32)
    requires
        i + 4 <= s@.len(),
    ensures
        r == le32(s@, i as int),
{
    s[i] as u32 + s[i + 1] as u32 * 0x100 + s[i + 2] as u32 * 0x1_0000 + s[i + 3] as u32
        * 0x100_0000
}

/// The two-byte integer at `i`, most significant byte first.
pub fn read_be16(s: &[u8], i: usize) -> (r: u16)
    requires
        i + 2 <= s@.len(),
    ensures
        r == be16(s@, i as int),
{
    s[i] as u16 * 0x100 + s[i + 1] as u16
}

/// The four-byte integer at `i`, most significant byte first.
pub fn read_be32(s: &[u8], i: usize) -> (r: u32)
    requires
        i + 4 <= s@.len(),
    ensures
        r == be32(s@, i as int),
{
    s[i] as u32 * 0x100_0000 + s[i + 1] as u32 * 0x1_0000 + s[i + 2] as u32 * 0x100 + s[i
        + 3] as u32
}

/// The eight-byte integer at `i`, most significant byte first.
pub fn read_be64(s: &[u8], i: usize) -> (r: u64)
    requires
        i + 8 <= s@.len(),
    ensures
        r == be64(s@, i as int),
{
    assert(s@.len() == s.len());
    read_be32(s, i) as u64 * 0x1_0000_0000 + read_be32(s, i + 4) as u64
}

/// Appends the four bytes of `v`, least significant byte first.
pub fn push_le32(out: &mut Vec<u8>, v: u32)
    ensures
        final(out)@ == old(out)@ + le32_bytes(v as int),
{
    out.push((v % 0x100) as u8);
    out.push((v / 0x100 % 0x100) as u8);
    out.push((v / 0x1_0000 % 0x100) as u8);
    out.push((v / 0x100_0000 % 0x100) as u8);
}

/// Appends the two bytes of `v`, most significant byte first.
pub fn push_be16(out: &mut Vec<u8>, v: u16)
    ensures
        final(out)@ == old(out)@ + be16_bytes(v as int),
{
    out.push((v / 0x100 % 0x100) as u8);
    out.push((v % 0x100) as u8);
}

/// Appends the four bytes of `v`, most significant byte first.
pub fn push_be32(out: &mut Vec<u8>, v: u32)
    ensures
        final(out)@ == old(out)@ + be32_bytes(v as int),
{
    out.push((v / 0x100_0000 % 0x100) as u8);
    out.push((v / 0x1_0000 % 0x100) as u8);
    out.push((v / 0x100 % 0x100) as u8);
    out.push((v % 0x100) as u8);
}

/// Appends the eight bytes of `v`, most significant byte first.
pub fn push_be64(out: &mut Vec<u8>, v: u64)
    ensures
        final(out)@ == old(out)@ + be64_bytes(v as int),
{
    push_be32(out, (v / 0x1_0000_0000) as u32);
    push_be32(out, (v % 0x1_0000_0000) as u32);
    proof {
        lemma_low_half(v as int);
    }
}

proof fn lemma_low_half(v: int)
    requires
        v >= 0,
    ensures
        be32_bytes(v % 0x1_0000_0000) == be32_bytes(v),
{
    lemma_low_bytes(v);
    assert(be32_bytes(v % 0x1_0000_0000) =~= be32_bytes(v));
}

/// Appends a run of bytes.
pub fn push_all(out: &mut Vec<u8>, s: &[u8])
    ensures
        final(out)@ == old(out)@ + s@,
{
    let ghost before = out@;
    out.extend_from_slice(s);
    assert(out@ =~= before + s@);
}

/// `count` bytes of the value 0.
pub open spec fn zeros(count: int) -> Seq<u8> {
    Seq::new(count as nat, |i: int| 0u8)
}

/// Appends `count` bytes of the value 0.
pub fn push_zeros(out: &mut Vec<u8>, count: usize)
    ensures
        final(out)@ == old(out)@ + zeros(count as int),
{
    let mut i: usize = 0;
    while i < count
        invariant
            i <= count,
            out@ == old(out)@ + zeros(i as int),
        decreases count - i,
    {
        out.push(0);
        i = i + 1;
        assert(zeros(i as int) =~= zeros(i - 1).push(0));
    }
}

/// The order of bytes: each byte counts 256 times the one before it, from the first on in one order
/// and from the last on in the other.
pub proof fn law_byte_orders(s: Seq<u8>, i: int)
    ensures
        le24(s, i) == s[i] + 256 * (s[i + 1] + 256 * s[i + 2]),
        le32(s, i) == s[i] + 256 * (s[i + 1] + 256 * (s[i + 2] + 256 * s[i + 3])),
        be16(s, i) == 256 * s[i] + s[i + 1],
        be32(s, i) == 256 * (256 * (256 * s[i] + s[i + 1]) + s[i + 2]) + s[i + 3],
        be64(s, i) == 256 * (256 * (256 * (256 * (256 * (256 * (256 * s[i] + s[i + 1]) + s[i + 2])
            + s[i + 3]) + s[i + 4]) + s[i + 5]) + s[i + 6]) + s[i + 7],
{
}

/// The bytes of an integer, in either order, are as many as its width, and count as they should.
pub proof fn law_integer_bytes(v: int)
    requires
        0 <= v,
    ensures
        ({
            let b = be16_bytes(v);
            b.len() == 2 && 256 * b[0] + b[1] == v % 0x1_0000
        }),
        ({
            let b = be32_bytes(v);
            b.len() == 4 && 256 * (256 * (256 * b[0] + b[1]) + b[2]) + b[3] == v % 0x1_0000_0000
        }),
        ({
            let b = le32_bytes(v);
            b.len() == 4 && 256 * (256 * (256 * b[3] + b[2]) + b[1]) + b[0] == v % 0x1_0000_0000
        }),
        be64_bytes(v).len() == 8,
        be64_bytes(v).subrange(0, 4) == be32_bytes(v / 0x1_0000_0000),
        be64_bytes(v).subrange(4, 8) == be32_bytes(v),
{
    lemma_low_bytes(v);
    assert(be64_bytes(v).subrange(0, 4) =~= be32_bytes(v / 0x1_0000_0000));
    assert(be64_bytes(v).subrange(4, 8) =~= be32_bytes(v));
    assert(v % 0x1_0000 == (v / 0x100 % 0x100) * 0x100 + v % 0x100);
}

} // verus!
