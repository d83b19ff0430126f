//! QuickTime atoms: their names, and how they lie in a buffer.

use crate::bytes::{push_all, push_be32, read_be32};
use vstd::prelude::*;

verus! {

pub const ATOM_FTYP: [u8; 4] = [0x66, 0x74, 0x79, 0x70];
pub const ATOM_MOOV: [u8; 4] = [0x6D, 0x6F, 0x6F, 0x76];
pub const ATOM_MVHD: [u8; 4] = [0x6D, 0x76, 0x68, 0x64];
pub const ATOM_TRAK: [u8; 4] = [0x74, 0x72, 0x61, 0x6B];
pub const ATOM_TKHD: [u8; 4] = [0x74, 0x6B, 0x68, 0x64];
pub const ATOM_MDIA: [u8; 4] = [0x6D, 0x64, 0x69, 0x61];
pub const ATOM_MDHD: [u8; 4] = [0x6D, 0x64, 0x68, 0x64];
pub const ATOM_HDLR: [u8; 4] = [0x68, 0x64, 0x6C, 0x72];
pub const ATOM_MINF: [u8; 4] = [0x6D, 0x69, 0x6E, 0x66];
pub const ATOM_VMHD: [u8; 4] = [0x76, 0x6D, 0x68, 0x64];
pub const ATOM_DINF: [u8; 4] = [0x64, 0x69, 0x6E, 0x66];
pub const ATOM_DREF: [u8; 4] = [0x64, 0x72, 0x65, 0x66];
pub const ATOM_ALIS: [u8; 4] = [0x61, 0x6C, 0x69, 0x73];
pub const ATOM_STBL: [u8; 4] = [0x73, 0x74, 0x62, 0x6C];
pub const ATOM_STSD: [u8; 4] = [0x73, 0x74, 0x73, 0x64];
pub const ATOM_STTS: [u8; 4] = [0x73, 0x74, 0x74, 0x73];
pub const ATOM_STSC: [u8; 4] = [0x73, 0x74, 0x73, 0x63];
pub const ATOM_STSZ: [u8; 4] = [0x73, 0x74, 0x73, 0x7A];
pub const ATOM_STCO: [u8; 4] = [0x73, 0x74, 0x63, 0x6F];
pub const ATOM_CO64: [u8; 4] = [0x63, 0x6F, 0x36, 0x34];
pub const ATOM_MDAT: [u8; 4] = [0x6D, 0x64, 0x61, 0x74];

pub const BRAND_QT: [u8; 4] = [0x71, 0x74, 0x20, 0x20];
pub const HANDLER_VIDE: [u8; 4] = [0x76, 0x69, 0x64, 0x65];

/// The name of an atom as one number, most significant byte first.
pub open spec fn tag(kind: [u8; 4]) -> int {
    crate::bytes::be32(kind@, 0)
}

/// The name of an atom as one number.
pub fn tag_of(kind: [u8; 4]) -> (r: u32)
    ensures
        r == tag(kind),
{
    read_be32(kind.as_slice(), 0)
}

/// An atom with the given payload: the size with the header, the name, the payload.
pub open spec fn atom(kind: [u8; 4], payload: Seq<u8>) -> Seq<u8> {
    crate::bytes::be32_bytes(payload.len() as int + 8) + kind@ + payload
}

/// Appends the 8-byte header of an atom.
pub fn write_atom_header(atom_type: [u8; 4], total_size: u32, out: &mut Vec<u8>)
    ensures
        final(out)@ == old(out)@ + crate::bytes::be32_bytes(total_size as int) + atom_type@,
{
    push_be32(out, total_size);
    push_all(out, atom_type.as_slice());
}

/// Wraps a payload into an atom. The size field keeps the low four bytes of the size.
pub fn create_atom(atom_type: [u8; 4], payload: &[u8]) -> (out: Vec<u8>)
    ensures
        out@ == atom(atom_type, payload@),
{
    assert(payload@.len() == payload.len());
    let low: u64 = payload.len() as u64 % 0x1_0000_0000 + 8;
    let total_size: u32 = (low % 0x1_0000_0000) as u32;
    let mut out: Vec<u8> = Vec::new();
    write_atom_header(atom_type, total_size, &mut out);
    push_all(&mut out, payload);
    proof {
        let n = payload@.len() as int + 8;
        assert(total_size == n % 0x1_0000_0000);
        crate::bytes::lemma_low_bytes(n);
        assert(crate::bytes::be32_bytes(total_size as int) =~= crate::bytes::be32_bytes(n));
        assert(out@ =~= atom(atom_type, payload@));
    }
    out
}

/// An atom found in a buffer.
pub struct Atom {
    pub tag: int,
    pub payload: Seq<u8>,
}

/// The size of the atom at the start of a buffer. A size field of 0 means all that is left.
pub open spec fn atom_size(buf: Seq<u8>) -> int {
    if crate::bytes::be32(buf, 0) == 0 {
        buf.len() as int
    } else {
        crate::bytes::be32(buf, 0)
    }
}

/// The atoms that a buffer holds one after the other, up to the first that is cut short or
/// smaller than its header.
#[verifier::opaque]
pub open spec fn atoms_of(buf: Seq<u8>) -> Seq<Atom>
    decreases buf.len(),
{
    if buf.len() < 8 || atom_size(buf) < 8 || atom_size(buf) > buf.len() {
        Seq::empty()
    } else {
        seq![
            Atom {
                tag: crate::bytes::be32(buf, 4),
                payload: buf.subrange(8, atom_size(buf)),
            },
        ] + atoms_of(buf.subrange(atom_size(buf), buf.len() as int))
    }
}

/// An atom that was written is found again, and then what follows it.
pub proof fn law_atom_found(kind: [u8; 4], payload: Seq<u8>, rest: Seq<u8>)
    requires
        payload.len() + 8 <= u32::MAX,
    ensures
        atoms_of(atom(kind, payload) + rest) == seq![Atom { tag: tag(kind), payload }] + atoms_of(
            rest,
        ),
{
    reveal(atoms_of);
    let b = atom(kind, payload) + rest;
    let n = payload.len() as int + 8;
    let size = crate::bytes::be32_bytes(n);
    crate::bytes::law_bytes_round_trip(n);
    assert(b.subrange(0, 4) =~= size);
    crate::bytes::lemma_read_at(b, 0, size);
    assert(b.subrange(4, 8) =~= kind@);
    crate::bytes::lemma_read_at(b, 4, kind@);
    assert(b.subrange(8, n) =~= payload);
    assert(b.subrange(n, b.len() as int) =~= rest);
}

/// Where an atom was found.
#[derive(Debug, Clone, Copy)]
pub struct AtomSpan {
    /// The name as one number, most significant byte first.
    pub tag: u32,
    /// Where the payload begins.
    pub start: usize,
    /// Where the payload ends.
    pub end: usize,
}

/// The span is that of the atom.
pub open spec fn spans(s: AtomSpan, buf: Seq<u8>, a: Atom) -> bool {
    &&& s.start <= s.end <= buf.len()
    &&& a == (Atom { tag: s.tag as int, payload: buf.subrange(s.start as int, s.end as int) })
}

/// Finds the atoms that a buffer holds one after the other.
pub fn find_atoms(buf: &[u8]) -> (out: Vec<AtomSpan>)
    ensures
        out@.len() == atoms_of(buf@).len(),
        forall|i: int|
            0 <= i < out@.len() ==> spans(#[trigger] out@[i], buf@, atoms_of(buf@)[i]),
{
    let mut out: Vec<AtomSpan> = Vec::new();
    assert(buf@.len() == buf.len());
    let mut offset: usize = 0;
    assert(buf@.subrange(0, buf@.len() as int) =~= buf@);
    let ghost mut done: Seq<Atom> = Seq::empty();
    assert(done + atoms_of(buf@) =~= atoms_of(buf@));
    loop
        invariant_except_break
            atoms_of(buf@) == done + atoms_of(buf@.subrange(offset as int, buf@.len() as int)),
        invariant
            offset <= buf@.len(),
            buf@.len() <= usize::MAX,
            done.len() == out@.len(),
            forall|i: int| 0 <= i < out@.len() ==> spans(#[trigger] out@[i], buf@, done[i]),
        ensures
            atoms_of(buf@) == done,
        decreases buf@.len() - offset,
    {
        proof {
            reveal(atoms_of);
        }
        let ghost rest = buf@.subrange(offset as int, buf@.len() as int);
        if buf.len() - offset < 8 {
            assert(done + atoms_of(rest) =~= done);
            break;
        }
        let size: u32 = read_be32(buf, offset);
        let tag: u32 = read_be32(buf, offset + 4);
        proof {
            assert(rest.subrange(0, 4) =~= buf@.subrange(offset as int, offset + 4));
            assert(rest.subrange(4, 8) =~= buf@.subrange(offset + 4, offset + 8));
            crate::bytes::lemma_read_at(rest, 0, rest.subrange(0, 4));
            crate::bytes::lemma_read_at(rest, 4, rest.subrange(4, 8));
            crate::bytes::lemma_read_at(buf@, offset as int, rest.subrange(0, 4));
            crate::bytes::lemma_read_at(buf@, offset + 4, rest.subrange(4, 8));
        }
        let actual: usize = if size == 0 { buf.len() - offset } else { size as usize };
        assert(actual == atom_size(rest));
        if actual < 8 || actual > buf.len() - offset {
            assert(done + atoms_of(rest) =~= done);
            break;
        }
        let span = AtomSpan { tag, start: offset + 8, end: offset + actual };
        proof {
            assert(rest.subrange(8, actual as int) =~= buf@.subrange(offset + 8, offset + actual));
            let a = Atom { tag: tag as int, payload: rest.subrange(8, actual as int) };
            let after = rest.subrange(actual as int, rest.len() as int);
            assert(after =~= buf@.subrange(offset + actual, buf@.len() as int));
            assert(done + (seq![a] + atoms_of(after)) =~= done.push(a) + atoms_of(after));
            assert(spans(span, buf@, a));
            done = done.push(a);
        }
        out.push(span);
        offset = offset + actual;
    }
    out
}

/// The name is the four characters.
pub open spec fn spells(kind: [u8; 4], a: char, b: char, c: char, d: char) -> bool {
    kind@ == seq![a as u8, b as u8, c as u8, d as u8]
}

/// The names of the atoms of a movie.
pub proof fn law_atom_names()
    ensures
        spells(ATOM_FTYP, 'f', 't', 'y', 'p'),
        spells(ATOM_MOOV, 'm', 'o', 'o', 'v'),
        spells(ATOM_MVHD, 'm', 'v', 'h', 'd'),
        spells(ATOM_TRAK, 't', 'r', 'a', 'k'),
        spells(ATOM_TKHD, 't', 'k', 'h', 'd'),
        spells(ATOM_MDIA, 'm', 'd', 'i', 'a'),
        spells(ATOM_MDHD, 'm', 'd', 'h', 'd'),
        spells(ATOM_HDLR, 'h', 'd', 'l', 'r'),
        spells(ATOM_MINF, 'm', 'i', 'n', 'f'),
        spells(ATOM_VMHD, 'v', 'm', 'h', 'd'),
        spells(ATOM_DINF, 'd', 'i', 'n', 'f'),
        spells(ATOM_DREF, 'd', 'r', 'e', 'f'),
        spells(ATOM_ALIS, 'a', 'l', 'i', 's'),
        spells(ATOM_STBL, 's', 't', 'b', 'l'),
        spells(ATOM_STSD, 's', 't', 's', 'd'),
        spells(ATOM_STTS, 's', 't', 't', 's'),
        spells(ATOM_STSC, 's', 't', 's', 'c'),
        spells(ATOM_STSZ, 's', 't', 's', 'z'),
        spells(ATOM_STCO, 's', 't', 'c', 'o'),
        spells(ATOM_CO64, 'c', 'o', '6', '4'),
        spells(ATOM_MDAT, 'm', 'd', 'a', 't'),
        spells(BRAND_QT, 'q', 't', ' ', ' '),
        spells(HANDLER_VIDE, 'v', 'i', 'd', 'e'),
{
    assert(ATOM_FTYP@ =~= seq!['f' as u8, 't' as u8, 'y' as u8, 'p' as u8]);
    assert(ATOM_MOOV@ =~= seq!['m' as u8, 'o' as u8, 'o' as u8, 'v' as u8]);
    assert(ATOM_MVHD@ =~= seq!['m' as u8, 'v' as u8, 'h' as u8, 'd' as u8]);
    assert(ATOM_TRAK@ =~= seq!['t' as u8, 'r' as u8, 'a' as u8, 'k' as u8]);
    assert(ATOM_TKHD@ =~= seq!['t' as u8, 'k' as u8, 'h' as u8, 'd' as u8]);
    assert(ATOM_MDIA@ =~= seq!['m' as u8, 'd' as u8, 'i' as u8, 'a' as u8]);
    assert(ATOM_MDHD@ =~= seq!['m' as u8, 'd' as u8, 'h' as u8, 'd' as u8]);
    assert(ATOM_HDLR@ =~= seq!['h' as u8, 'd' as u8, 'l' as u8, 'r' as u8]);
    assert(ATOM_MINF@ =~= seq!['m' as u8, 'i' as u8, 'n' as u8, 'f' as u8]);
    assert(ATOM_VMHD@ =~= seq!['v' as u8, 'm' as u8, 'h' as u8, 'd' as u8]);
    assert(ATOM_DINF@ =~= seq!['d' as u8, 'i' as u8, 'n' as u8, 'f' as u8]);
    assert(ATOM_DREF@ =~= seq!['d' as u8, 'r' as u8, 'e' as u8, 'f' as u8]);
    assert(ATOM_ALIS@ =~= seq!['a' as u8, 'l' as u8, 'i' as u8, 's' as u8]);
    assert(ATOM_STBL@ =~= seq!['s' as u8, 't' as u8, 'b' as u8, 'l' as u8]);
    assert(ATOM_STSD@ =~= seq!['s' as u8, 't' as u8, 's' as u8, 'd' as u8]);
    assert(ATOM_STTS@ =~= seq!['s' as u8, 't' as u8, 't' as u8, 's' as u8]);
    assert(ATOM_STSC@ =~= seq!['s' as u8, 't' as u8, 's' as u8, 'c' as u8]);
    assert(ATOM_STSZ@ =~= seq!['s' as u8, 't' as u8, 's' as u8, 'z' as u8]);
    assert(ATOM_STCO@ =~= seq!['s' as u8, 't' as u8, 'c' as u8, 'o' as u8]);
    assert(ATOM_CO64@ =~= seq!['c' as u8, 'o' as u8, '6' as u8, '4' as u8]);
    assert(ATOM_MDAT@ =~= seq!['m' as u8, 'd' as u8, 'a' as u8, 't' as u8]);
    assert(BRAND_QT@ =~= seq!['q' as u8, 't' as u8, ' ' as u8, ' ' as u8]);
    assert(HANDLER_VIDE@ =~= seq!['v' as u8, 'i' as u8, 'd' as u8, 'e' as u8]);
}

/// An atom is its size in four bytes, the highest first, its name, and its payload; the size
/// counts all of it.
pub proof fn law_atom_layout(kind: [u8; 4], payload: Seq<u8>)
    requires
        payload.len() + 8 <= u32::MAX,
    ensures
        ({
            let a = atom(kind, payload);
            &&& a.len() == payload.len() + 8
            &&& 256 * (256 * (256 * a[0] + a[1]) + a[2]) + a[3] == a.len()
            &&& a.subrange(4, 8) == kind@
            &&& a.subrange(8, a.len() as int) == payload
            &&& tag(kind) == 256 * (256 * (256 * kind@[0] + kind@[1]) + kind@[2]) + kind@[3]
        }),
{
    let a = atom(kind, payload);
    crate::bytes::law_integer_bytes(payload.len() as int + 8);
    let size = crate::bytes::be32_bytes(payload.len() as int + 8);
    assert(a[0] == size[0] && a[1] == size[1] && a[2] == size[2] && a[3] == size[3]);
    assert(a.subrange(4, 8) =~= kind@);
    assert(a.subrange(8, a.len() as int) =~= payload);
}

/// What a buffer of atoms holds: the atom at its start, as long as its size says, or as all that is
/// left where that is 0, and the atoms after it. An atom that is cut short, or smaller than its
/// header, ends the list.
pub proof fn law_atoms_in_turn(buf: Seq<u8>)
    ensures
        ({
            let field = 256 * (256 * (256 * buf[0] + buf[1]) + buf[2]) + buf[3];
            let size = if field == 0 {
                buf.len() as int
            } else {
                field
            };
            if buf.len() < 8 || size < 8 || size > buf.len() {
                atoms_of(buf).len() == 0
            } else {
                let first = Atom {
                    tag: 256 * (256 * (256 * buf[4] + buf[5]) + buf[6]) + buf[7],
                    payload: buf.subrange(8, size),
                };
                atoms_of(buf) == seq![first] + atoms_of(buf.subrange(size, buf.len() as int))
            }
        }),
{
    reveal(atoms_of);
}

} // verus!
