//! The flavours of HAP: their names, four-character codes and block layout.

use vstd::prelude::*;

verus! {

/// All supported flavours of the HAP video codec.
#[derive(Debug, Clone, Copy, PartialEq, Eq, Hash, Structural)]
pub enum HapFormat {
    /// Standard Hap: RGB DXT1/BC1, 8 bytes per 4x4 block, no alpha.
    Hap1,
    /// Hap Alpha: RGBA DXT5/BC3, 16 bytes per 4x4 block, smooth 8-bit alpha.
    Hap5,
    /// Hap Q: RGB as scaled YCoCg stored in DXT5/BC3 blocks.
    HapY,
    /// Hap Q Alpha: a multi-image container with YCoCg DXT5 (colour) and BC4/RGTC1 (alpha).
    HapM,
    /// Hap Alpha-Only: BC4/RGTC1 single-channel 8-bit matte.
    HapA,
    /// Hap R (Hap 7): RGBA BPTC/BC7.
    Hap7,
    /// Hap HDR: RGB BPTC/BC6H float for high-dynamic-range video.
    HapH,
}

impl HapFormat {
    /// All supported formats.
    pub const ALL: [HapFormat; 7] = [
        HapFormat::Hap1,
        HapFormat::Hap5,
        HapFormat::HapY,
        HapFormat::HapM,
        HapFormat::HapA,
        HapFormat::Hap7,
        HapFormat::HapH,
    ];

    /// The display name.
    pub open spec fn title(self) -> Seq<char> {
        match self {
            HapFormat::Hap1 => "Hap (Hap 1)"@,
            HapFormat::Hap5 => "Hap Alpha (Hap 5)"@,
            HapFormat::HapY => "Hap Q"@,
            HapFormat::HapM => "Hap Q Alpha"@,
            HapFormat::HapA => "Hap Alpha-Only"@,
            HapFormat::Hap7 => "Hap R (Hap 7 / BC7)"@,
            HapFormat::HapH => "Hap HDR (BC6H)"@,
        }
    }

    /// The four-character code: `Hap` and one more letter or digit.
    pub open spec fn code(self) -> Seq<u8> {
        seq![
            0x48u8,
            0x61u8,
            0x70u8,
            match self {
                HapFormat::Hap1 => 0x31u8,
                HapFormat::Hap5 => 0x35u8,
                HapFormat::HapY => 0x59u8,
                HapFormat::HapM => 0x4du8,
                HapFormat::HapA => 0x41u8,
                HapFormat::Hap7 => 0x37u8,
                HapFormat::HapH => 0x48u8,
            },
        ]
    }

    /// The format that a four-character code stands for. `HapR` and `hapr` are other spellings
    /// of `Hap7`.
    pub open spec fn of_code(code: Seq<u8>) -> Option<HapFormat> {
        if code == HapFormat::Hap1.code() {
            Some(HapFormat::Hap1)
        } else if code == HapFormat::Hap5.code() {
            Some(HapFormat::Hap5)
        } else if code == HapFormat::HapY.code() {
            Some(HapFormat::HapY)
        } else if code == HapFormat::HapM.code() {
            Some(HapFormat::HapM)
        } else if code == HapFormat::HapA.code() {
            Some(HapFormat::HapA)
        } else if code == HapFormat::Hap7.code() || code == seq![0x48u8, 0x61u8, 0x70u8, 0x52u8]
            || code == seq![0x68u8, 0x61u8, 0x70u8, 0x72u8] {
            Some(HapFormat::Hap7)
        } else if code == HapFormat::HapH.code() {
            Some(HapFormat::HapH)
        } else {
            None
        }
    }

    /// The four-character code as text.
    pub open spec fn code_chars(self) -> Seq<char> {
        match self {
            HapFormat::Hap1 => "Hap1"@,
            HapFormat::Hap5 => "Hap5"@,
            HapFormat::HapY => "HapY"@,
            HapFormat::HapM => "HapM"@,
            HapFormat::HapA => "HapA"@,
            HapFormat::Hap7 => "Hap7"@,
            HapFormat::HapH => "HapH"@,
        }
    }

    /// The low half of the section type byte, for the formats of one texture.
    pub open spec fn texture_nibble(self) -> int {
        match self {
            HapFormat::Hap1 => 0xB,
            HapFormat::Hap5 => 0xE,
            HapFormat::HapY => 0xF,
            HapFormat::HapM => 0xD,
            HapFormat::HapA => 0x1,
            HapFormat::Hap7 => 0xC,
            HapFormat::HapH => 0x2,
        }
    }

    /// The section type byte for a texture stored with the given compressor: the compressor in
    /// the high half, the texture in the low half. The multi-image container has a type of its
    /// own.
    pub open spec fn type_byte(self, compressor: int) -> int {
        if self == HapFormat::HapM {
            0x0D
        } else {
            compressor * 16 + self.texture_nibble()
        }
    }

    /// The bytes of one 4x4 block.
    pub open spec fn block_bytes(self) -> int {
        match self {
            HapFormat::Hap1 | HapFormat::HapA => 8,
            HapFormat::HapM => 24,
            _ => 16,
        }
    }

    /// The format stores alpha.
    pub open spec fn alpha(self) -> bool {
        self == HapFormat::Hap5 || self == HapFormat::HapM || self == HapFormat::HapA || self
            == HapFormat::Hap7
    }

    /// The human-readable display name.
    pub fn name(&self) -> (r: &'static str)
        ensures
            r@ == self.title(),
    {
        match self {
            HapFormat::Hap1 => "Hap (Hap 1)",
            HapFormat::Hap5 => "Hap Alpha (Hap 5)",
            HapFormat::HapY => "Hap Q",
            HapFormat::HapM => "Hap Q Alpha",
            HapFormat::HapA => "Hap Alpha-Only",
            HapFormat::Hap7 => "Hap R (Hap 7 / BC7)",
            HapFormat::HapH => "Hap HDR (BC6H)",
        }
    }

    /// The QuickTime four-character code.
    pub fn fourcc(&self) -> (r: [u8; 4])
        ensures
            r@ == self.code(),
    {
        let last: u8 = match self {
            HapFormat::Hap1 => 0x31,
            HapFormat::Hap5 => 0x35,
            HapFormat::HapY => 0x59,
            HapFormat::HapM => 0x4d,
            HapFormat::HapA => 0x41,
            HapFormat::Hap7 => 0x37,
            HapFormat::HapH => 0x48,
        };
        let r: [u8; 4] = [0x48, 0x61, 0x70, last];
        assert(r@ =~= self.code());
        r
    }

    /// The four-character code as text.
    pub fn fourcc_text(&self) -> (r: &'static str)
        ensures
            r@ == self.code_chars(),
    {
        match self {
            HapFormat::Hap1 => "Hap1",
            HapFormat::Hap5 => "Hap5",
            HapFormat::HapY => "HapY",
            HapFormat::HapM => "HapM",
            HapFormat::HapA => "HapA",
            HapFormat::Hap7 => "Hap7",
            HapFormat::HapH => "HapH",
        }
    }

    /// The format that a four-character code stands for.
    pub fn from_fourcc(fourcc: &[u8; 4]) -> (r: Option<Self>)
        ensures
            r == HapFormat::of_code(fourcc@),
    {
        proof {
            assert(forall|c: Seq<u8>| #![trigger c.len()]
                c.len() == 4 && c[0] == fourcc[0] && c[1] == fourcc[1] && c[2] == fourcc[2] && c[3]
                    == fourcc[3] ==> c =~= fourcc@);
            assert(HapFormat::Hap1.code().len() == 4);
            assert(HapFormat::Hap5.code().len() == 4);
            assert(HapFormat::HapY.code().len() == 4);
            assert(HapFormat::HapM.code().len() == 4);
            assert(HapFormat::HapA.code().len() == 4);
            assert(HapFormat::Hap7.code().len() == 4);
            assert(HapFormat::HapH.code().len() == 4);
            assert(seq![0x48u8, 0x61u8, 0x70u8, 0x52u8].len() == 4);
            assert(seq![0x68u8, 0x61u8, 0x70u8, 0x72u8].len() == 4);
        }
        if fourcc[0] == 0x68 && fourcc[1] == 0x61 && fourcc[2] == 0x70 && fourcc[3] == 0x72 {
            return Some(HapFormat::Hap7);
        }
        if fourcc[0] != 0x48 || fourcc[1] != 0x61 || fourcc[2] != 0x70 {
            return None;
        }
        match fourcc[3] {
            0x31 => Some(HapFormat::Hap1),
            0x35 => Some(HapFormat::Hap5),
            0x59 => Some(HapFormat::HapY),
            0x4d => Some(HapFormat::HapM),
            0x41 => Some(HapFormat::HapA),
            0x37 => Some(HapFormat::Hap7),
            0x52 => Some(HapFormat::Hap7),
            0x48 => Some(HapFormat::HapH),
            _ => None,
        }
    }

    /// The top-level section type byte of uncompressed frames.
    pub fn uncompressed_type_byte(&self) -> (r: u8)
        ensures
            r == self.type_byte(0xA),
    {
        match self {
            HapFormat::Hap1 => 0xAB,
            HapFormat::Hap5 => 0xAE,
            HapFormat::HapY => 0xAF,
            HapFormat::HapM => 0x0D,
            HapFormat::HapA => 0xA1,
            HapFormat::Hap7 => 0xAC,
            HapFormat::HapH => 0xA2,
        }
    }

    /// The top-level section type byte of Snappy compressed frames.
    pub fn snappy_type_byte(&self) -> (r: u8)
        ensures
            r == self.type_byte(0xB),
    {
        match self {
            HapFormat::Hap1 => 0xBB,
            HapFormat::Hap5 => 0xBE,
            HapFormat::HapY => 0xBF,
            HapFormat::HapM => 0x0D,
            HapFormat::HapA => 0xB1,
            HapFormat::Hap7 => 0xBC,
            HapFormat::HapH => 0xB2,
        }
    }

    /// The top-level section type byte of frames with decode instructions.
    pub fn chunked_type_byte(&self) -> (r: u8)
        ensures
            r == self.type_byte(0xC),
    {
        match self {
            HapFormat::Hap1 => 0xCB,
            HapFormat::Hap5 => 0xCE,
            HapFormat::HapY => 0xCF,
            HapFormat::HapM => 0x0D,
            HapFormat::HapA => 0xC1,
            HapFormat::Hap7 => 0xCC,
            HapFormat::HapH => 0xC2,
        }
    }

    /// The number of bytes per 4x4 pixel block.
    pub fn bytes_per_block(&self) -> (r: usize)
        ensures
            r == self.block_bytes(),
    {
        match self {
            HapFormat::Hap1 => 8,
            HapFormat::Hap5 => 16,
            HapFormat::HapY => 16,
            HapFormat::HapM => 24,
            HapFormat::HapA => 8,
            HapFormat::Hap7 => 16,
            HapFormat::HapH => 16,
        }
    }

    /// Whether the format stores an alpha channel.
    pub fn has_alpha(&self) -> (r: bool)
        ensures
            r == self.alpha(),
    {
        matches!(self, HapFormat::Hap5 | HapFormat::HapM | HapFormat::HapA | HapFormat::Hap7)
    }

    /// Whether this is a high dynamic range format.
    pub fn is_hdr(&self) -> (r: bool)
        ensures
            r == (*self == HapFormat::HapH),
    {
        matches!(self, HapFormat::HapH)
    }

    /// The bit depth: 24 without alpha, 32 with it.
    pub fn bits_per_pixel(&self) -> (r: u16)
        ensures
            r == if self.alpha() {
                32int
            } else {
                24
            },
    {
        if self.has_alpha() {
            32
        } else {
            24
        }
    }
}

/// `ALL` lists every format, each once.
pub proof fn law_all_formats(f: HapFormat)
    ensures
        exists|i: int| 0 <= i < 7 && #[trigger] HapFormat::ALL@[i] == f,
        forall|i: int, j: int|
            0 <= i < j < 7 ==> #[trigger] HapFormat::ALL@[i] != #[trigger] HapFormat::ALL@[j],
{
    let i: int = match f {
        HapFormat::Hap1 => 0,
        HapFormat::Hap5 => 1,
        HapFormat::HapY => 2,
        HapFormat::HapM => 3,
        HapFormat::HapA => 4,
        HapFormat::Hap7 => 5,
        HapFormat::HapH => 6,
    };
    assert(HapFormat::ALL@[i] == f);
}

/// The text of a four-character code is the code, letter by letter.
pub proof fn law_code_text(f: HapFormat, i: int)
    requires
        0 <= i < 4,
    ensures
        f.code_chars().len() == 4,
        f.code_chars()[i] as u8 == f.code()[i],
{
    reveal_strlit("Hap1");
    reveal_strlit("Hap5");
    reveal_strlit("HapY");
    reveal_strlit("HapM");
    reveal_strlit("HapA");
    reveal_strlit("Hap7");
    reveal_strlit("HapH");
}

/// A format is recovered from its four-character code.
pub proof fn law_fourcc_round_trip(f: HapFormat)
    ensures
        HapFormat::of_code(f.code()) == Some(f),
{
    assert(f.code()[3] == HapFormat::Hap1.code()[3] ==> f == HapFormat::Hap1);
    assert(f.code()[3] == HapFormat::Hap5.code()[3] ==> f == HapFormat::Hap5);
    assert(f.code()[3] == HapFormat::HapY.code()[3] ==> f == HapFormat::HapY);
    assert(f.code()[3] == HapFormat::HapM.code()[3] ==> f == HapFormat::HapM);
    assert(f.code()[3] == HapFormat::HapA.code()[3] ==> f == HapFormat::HapA);
    assert(f.code()[3] == HapFormat::Hap7.code()[3] ==> f == HapFormat::Hap7);
    assert(f.code()[3] == HapFormat::HapH.code()[3] ==> f == HapFormat::HapH);
    assert(f.code()[3] != seq![0x48u8, 0x61u8, 0x70u8, 0x52u8][3]);
    assert(f.code()[3] != seq![0x68u8, 0x61u8, 0x70u8, 0x72u8][3]);
}

/// A code stands for a format exactly if it is its code, or one of the two other spellings of
/// Hap R; no two formats share a code.
pub proof fn law_codes(code: Seq<u8>, f: HapFormat, g: HapFormat)
    ensures
        HapFormat::of_code(code) == Some(f) <==> code == f.code() || f == HapFormat::Hap7 && (code
            == seq!['H' as u8, 'a' as u8, 'p' as u8, 'R' as u8] || code == seq![
            'h' as u8,
            'a' as u8,
            'p' as u8,
            'r' as u8,
        ]),
        f.code() == g.code() ==> f == g,
        f.code().len() == 4,
        f.code()[0] == 'H' as u8,
        f.code()[1] == 'a' as u8,
        f.code()[2] == 'p' as u8,
{
    law_fourcc_round_trip(f);
    law_fourcc_round_trip(g);
    assert(seq!['H' as u8, 'a' as u8, 'p' as u8, 'R' as u8] =~= seq![0x48u8, 0x61u8, 0x70u8, 0x52u8]);
    assert(seq!['h' as u8, 'a' as u8, 'p' as u8, 'r' as u8] =~= seq![0x68u8, 0x61u8, 0x70u8, 0x72u8]);
    let r = seq![0x48u8, 0x61u8, 0x70u8, 0x52u8];
    let s = seq![0x68u8, 0x61u8, 0x70u8, 0x72u8];
    assert(r[3] == 0x52 && s[3] == 0x72);
    assert(forall|h: HapFormat| #[trigger] h.code()[3] != 0x52 && h.code()[3] != 0x72);
}

/// The section type of a texture: the compressor in the high half, 0xA for none, 0xB for Snappy
/// and 0xC for chunks; the texture in the low half. A Hap Q Alpha frame is a container of its own
/// type. The low half tells the formats of one texture apart.
pub proof fn law_type_bytes(f: HapFormat, g: HapFormat, compressor: int)
    requires
        0 <= compressor < 16,
    ensures
        f == HapFormat::HapM <==> f.type_byte(compressor) == 0x0D,
        f != HapFormat::HapM ==> f.type_byte(compressor) / 16 == compressor,
        f != HapFormat::HapM ==> 0 <= f.type_byte(compressor) < 256,
        f.type_byte(compressor) % 16 == g.type_byte(compressor) % 16 ==> f == g,
        ({
            let n = f.type_byte(compressor) % 16;
            match f {
                HapFormat::Hap1 => n == 0x0B,
                HapFormat::Hap5 => n == 0x0E,
                HapFormat::HapY => n == 0x0F,
                HapFormat::HapM => n == 0x0D,
                HapFormat::HapA => n == 0x01,
                HapFormat::Hap7 => n == 0x0C,
                HapFormat::HapH => n == 0x02,
            }
        }),
{
}

/// A format that stores alpha has 32 bits for a pixel, the others 24; a block of Hap Q Alpha is one
/// of Hap Q and one of alpha alone.
pub proof fn law_block_bytes(f: HapFormat)
    ensures
        HapFormat::HapM.block_bytes() == HapFormat::HapY.block_bytes()
            + HapFormat::HapA.block_bytes(),
        f.block_bytes() == 8 <==> f == HapFormat::Hap1 || f == HapFormat::HapA,
        f.block_bytes() == 8 || f.block_bytes() == 16 || f.block_bytes() == 24,
        f.alpha() <==> f != HapFormat::Hap1 && f != HapFormat::HapY && f != HapFormat::HapH,
{
}

/// The letter or digit that a code ends in: that of the name, and `H` for the HDR format.
pub proof fn law_code_letters(f: HapFormat)
    ensures
        ({
            let last = f.code()[3] as char;
            &&& last == '1' <==> f == HapFormat::Hap1
            &&& last == '5' <==> f == HapFormat::Hap5
            &&& last == 'Y' <==> f == HapFormat::HapY
            &&& last == 'M' <==> f == HapFormat::HapM
            &&& last == 'A' <==> f == HapFormat::HapA
            &&& last == '7' <==> f == HapFormat::Hap7
            &&& last == 'H' <==> f == HapFormat::HapH
        }),
{
}

} // verus!
