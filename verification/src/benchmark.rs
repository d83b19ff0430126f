//! The benchmark suite: its tests, what one round of each does, and what the results are called.

use crate::color::{AlphaMode, ColorRange, DitherMode, EncodeOptions, QualityPreset};
use crate::decoder::{decode_frame_to_rgba, decode_frame_to_texture, DecodeError, DecodeFault};
use crate::encoder::{encode_frame, encode_frame_with_options, EncodeError, EncodeFault};
use crate::format::HapFormat;
use vstd::prelude::*;

verus! {

/// The tests, in the order in which they run.
#[derive(Debug, Clone, Copy, PartialEq, Eq, Structural)]
pub enum BenchmarkTest {
    HdDecode,
    UhdDecode,
    HdEncode,
    TextureStreaming,
}

impl BenchmarkTest {
    /// The dimensions of the frames.
    pub open spec fn extent(self) -> (int, int) {
        if self == BenchmarkTest::UhdDecode {
            (3840, 2160)
        } else {
            (1920, 1080)
        }
    }

    /// The chunks that the frames have.
    pub open spec fn chunk_count(self) -> int {
        if self == BenchmarkTest::UhdDecode {
            8
        } else {
            4
        }
    }

    /// The name of the test.
    pub fn name(&self) -> (r: &'static str)
        ensures
            r@ == match *self {
                BenchmarkTest::HdDecode => "1080p Hap Q Decode"@,
                BenchmarkTest::UhdDecode => "4K UHD Hap Q CPU Decode"@,
                BenchmarkTest::HdEncode => "1080p Ingest Encode"@,
                BenchmarkTest::TextureStreaming => "Texture Streaming"@,
            },
    {
        match self {
            BenchmarkTest::HdDecode => "1080p Hap Q Decode",
            BenchmarkTest::UhdDecode => "4K UHD Hap Q CPU Decode",
            BenchmarkTest::HdEncode => "1080p Ingest Encode",
            BenchmarkTest::TextureStreaming => "Texture Streaming",
        }
    }

    /// The dimensions of the frames.
    pub fn size(&self) -> (r: (usize, usize))
        ensures
            (r.0 as int, r.1 as int) == self.extent(),
    {
        if *self == BenchmarkTest::UhdDecode {
            (3840, 2160)
        } else {
            (1920, 1080)
        }
    }

    /// The chunks that the frames have.
    pub fn chunks(&self) -> (r: usize)
        ensures
            r == self.chunk_count(),
    {
        if *self == BenchmarkTest::UhdDecode {
            8
        } else {
            4
        }
    }

    /// The rounds of the test.
    pub fn rounds(&self) -> (r: usize)
        ensures
            r == match *self {
                BenchmarkTest::HdDecode => 60int,
                BenchmarkTest::UhdDecode => 20,
                BenchmarkTest::HdEncode => 30,
                BenchmarkTest::TextureStreaming => 120,
            },
    {
        match self {
            BenchmarkTest::HdDecode => 60,
            BenchmarkTest::UhdDecode => 20,
            BenchmarkTest::HdEncode => 30,
            BenchmarkTest::TextureStreaming => 120,
        }
    }

    /// The test that runs next.
    pub open spec fn successor(self) -> Option<BenchmarkTest> {
        match self {
            BenchmarkTest::HdDecode => Some(BenchmarkTest::UhdDecode),
            BenchmarkTest::UhdDecode => Some(BenchmarkTest::HdEncode),
            BenchmarkTest::HdEncode => Some(BenchmarkTest::TextureStreaming),
            BenchmarkTest::TextureStreaming => None,
        }
    }

    /// The test that runs next.
    pub fn next(&self) -> (r: Option<BenchmarkTest>)
        ensures
            r == self.successor(),
    {
        match self {
            BenchmarkTest::HdDecode => Some(BenchmarkTest::UhdDecode),
            BenchmarkTest::UhdDecode => Some(BenchmarkTest::HdEncode),
            BenchmarkTest::HdEncode => Some(BenchmarkTest::TextureStreaming),
            BenchmarkTest::TextureStreaming => None,
        }
    }

    /// The bytes that one round moves: the pixels, or for streaming the packet.
    pub fn bytes_per_round(&self, packet_len: usize) -> (r: usize)
        ensures
            r == if *self == BenchmarkTest::TextureStreaming {
                packet_len as int
            } else {
                self.extent().0 * self.extent().1 * 4
            },
    {
        match self {
            BenchmarkTest::TextureStreaming => packet_len,
            BenchmarkTest::UhdDecode => 3840 * 2160 * 4,
            _ => 1920 * 1080 * 4,
        }
    }

    /// What a speed is called, given the whole frames per second.
    pub open spec fn grade(self, fps: int) -> Seq<char> {
        match self {
            BenchmarkTest::HdDecode => if fps >= 240 {
                "Elite (240+ FPS)"@
            } else if fps >= 120 {
                "High (120+ FPS)"@
            } else if fps >= 60 {
                "Smooth (60+ FPS)"@
            } else {
                "Standard"@
            },
            BenchmarkTest::UhdDecode => if fps >= 120 {
                "Elite (120+ FPS)"@
            } else if fps >= 60 {
                "Broadcast (60+ FPS)"@
            } else if fps >= 30 {
                "Smooth (30+ FPS)"@
            } else {
                "Entry-Level"@
            },
            BenchmarkTest::HdEncode => if fps >= 60 {
                "Broadcast (60+ FPS)"@
            } else if fps >= 30 {
                "Real-Time (30+ FPS)"@
            } else {
                "Near Real-Time"@
            },
            BenchmarkTest::TextureStreaming => "Ultra (>500 FPS)"@,
        }
    }

    /// What a speed is called, given the whole frames per second.
    pub fn rating(&self, fps: u64) -> (r: &'static str)
        ensures
            r@ == self.grade(fps as int),
    {
        match self {
            BenchmarkTest::HdDecode => rate_decode_fps(fps, false),
            BenchmarkTest::UhdDecode => rate_decode_fps(fps, true),
            BenchmarkTest::HdEncode => if fps >= 60 {
                "Broadcast (60+ FPS)"
            } else if fps >= 30 {
                "Real-Time (30+ FPS)"
            } else {
                "Near Real-Time"
            },
            BenchmarkTest::TextureStreaming => "Ultra (>500 FPS)",
        }
    }
}

/// What a decoding speed is called, given the whole frames per second.
pub fn rate_decode_fps(fps: u64, is_4k: bool) -> (r: &'static str)
    ensures
        r@ == if is_4k {
            BenchmarkTest::UhdDecode.grade(fps as int)
        } else {
            BenchmarkTest::HdDecode.grade(fps as int)
        },
{
    if is_4k {
        if fps >= 120 {
            "Elite (120+ FPS)"
        } else if fps >= 60 {
            "Broadcast (60+ FPS)"
        } else if fps >= 30 {
            "Smooth (30+ FPS)"
        } else {
            "Entry-Level"
        }
    } else {
        if fps >= 240 {
            "Elite (240+ FPS)"
        } else if fps >= 120 {
            "High (120+ FPS)"
        } else if fps >= 60 {
            "Smooth (60+ FPS)"
        } else {
            "Standard"
        }
    }
}

/// How a speed is marked in the table of results.
#[derive(Debug, Clone, Copy, PartialEq, Eq, Structural)]
pub enum SpeedClass {
    Excellent,
    Good,
    Fair,
    Poor,
}

/// The class of a speed, given the whole frames per second.
pub open spec fn class_of(fps: int) -> SpeedClass {
    if fps >= 120 {
        SpeedClass::Excellent
    } else if fps >= 60 {
        SpeedClass::Good
    } else if fps >= 30 {
        SpeedClass::Fair
    } else {
        SpeedClass::Poor
    }
}

/// The class of a speed, given the whole frames per second.
pub fn speed_class(fps: u64) -> (r: SpeedClass)
    ensures
        r == class_of(fps as int),
{
    if fps >= 120 {
        SpeedClass::Excellent
    } else if fps >= 60 {
        SpeedClass::Good
    } else if fps >= 30 {
        SpeedClass::Fair
    } else {
        SpeedClass::Poor
    }
}

/// The suite runs all four tests, each once.
pub proof fn law_suite_runs_all()
    ensures
        ({
            let first = BenchmarkTest::HdDecode;
            let second = first.successor();
            let third = second->0.successor();
            let fourth = third->0.successor();
            &&& second == Some(BenchmarkTest::UhdDecode)
            &&& third == Some(BenchmarkTest::HdEncode)
            &&& fourth == Some(BenchmarkTest::TextureStreaming)
            &&& fourth->0.successor() is None
        }),
{
}

// ---------------------------------------------------------------------------------------------
// The picture.
// ---------------------------------------------------------------------------------------------

/// A channel of a pixel of the test picture: red grows to the right, green to the bottom, blue
/// towards the lower right corner.
pub open spec fn pattern_value(x: int, y: int, c: int, w: int, h: int) -> int {
    if c == 0 {
        x * 255 / w
    } else if c == 1 {
        y * 255 / h
    } else if c == 2 {
        (x + y) * 128 / (w + h)
    } else {
        255
    }
}

/// The test picture.
pub open spec fn pattern(w: int, h: int) -> Seq<u8> {
    Seq::new(
        (h * (w * 4)) as nat,
        |i: int|
            pattern_value(
                crate::parallel::column(i, w),
                crate::parallel::line(i, w),
                i % 4,
                w,
                h,
            ) as u8,
    )
}

/// A share of `limit` is at most `limit`.
proof fn lemma_share(a: int, limit: int, b: int)
    requires
        0 <= a <= b,
        0 < b,
        0 <= limit,
    ensures
        0 <= a * limit / b <= limit,
        0 <= a * limit <= b * limit,
{
    assert(0 <= a * limit <= b * limit) by (nonlinear_arith)
        requires
            0 <= a <= b,
            0 <= limit,
    ;
    assert(0 <= a * limit / b <= limit) by (nonlinear_arith)
        requires
            0 <= a * limit <= b * limit,
            0 < b,
    ;
}

/// The test picture.
pub fn generate_pattern(w: usize, h: usize) -> (out: Vec<u8>)
    requires
        h * (w * 4) <= usize::MAX,
        (w + h) * 255 <= usize::MAX,
    ensures
        out@ == pattern(w as int, h as int),
{
    let mut out: Vec<u8> = Vec::new();
    let mut y: usize = 0;
    while y < h
        invariant
            y <= h,
            h * (w * 4) <= usize::MAX,
            (w + h) * 255 <= usize::MAX,
            out@.len() == y * (w * 4),
            forall|i: int| 0 <= i < out@.len() ==> out@[i] == pattern(w as int, h as int)[i],
        decreases h - y,
    {
        proof {
            lemma_share(y as int, 255, h as int);
        }
        let green: u8 = (y * 255 / h) as u8;
        let ghost before = out@;
        let mut x: usize = 0;
        while x < w
            invariant
                x <= w,
                y < h,
                h * (w * 4) <= usize::MAX,
                (w + h) * 255 <= usize::MAX,
                green == y * 255 / h as int,
                before.len() == y * (w * 4),
                out@.len() == y * (w * 4) + 4 * x,
                forall|i: int| 0 <= i < out@.len() ==> out@[i] == pattern(w as int, h as int)[i],
            decreases w - x,
        {
            let ghost filled = out@;
            proof {
                lemma_share(x as int, 255, w as int);
                lemma_share(x + y, 128, w + h);
            }
            out.push((x * 255 / w) as u8);
            out.push(green);
            out.push(((x + y) * 128 / (w + h)) as u8);
            out.push(255);
            proof {
                let start = y * (w * 4);
                assert(start + w * 4 <= h * (w * 4)) by (nonlinear_arith)
                    requires
                        start == y * (w * 4),
                        y + 1 <= h,
                ;
                crate::parallel::lemma_position(y as int, 4 * x as int, w as int);
                crate::parallel::lemma_position(y as int, 4 * x + 1, w as int);
                crate::parallel::lemma_position(y as int, 4 * x + 2, w as int);
                crate::parallel::lemma_position(y as int, 4 * x + 3, w as int);
                assert forall|i: int| 0 <= i < out@.len() implies out@[i] == pattern(
                    w as int,
                    h as int,
                )[i] by {
                    if i < filled.len() {
                        assert(out@[i] == filled[i]);
                    } else if i == start + 4 * x {
                    } else if i == start + 4 * x + 1 {
                    } else if i == start + 4 * x + 2 {
                    } else {
                        assert(i == start + 4 * x + 3);
                    }
                }
            }
            x = x + 1;
        }
        assert((y + 1) * (w * 4) == y * (w * 4) + w * 4) by (nonlinear_arith);
        y = y + 1;
    }
    assert(out@ =~= pattern(w as int, h as int));
    out
}

// ---------------------------------------------------------------------------------------------
// Rounds.
// ---------------------------------------------------------------------------------------------

/// Errors of a round.
#[derive(Debug)]
pub enum RoundError {
    Decoding(DecodeError),
    Encoding(EncodeError),
}

/// The error of a round, without the words of its part.
pub enum RoundFault {
    Decoding(DecodeFault),
    Encoding(EncodeFault),
}

impl View for RoundError {
    type V = RoundFault;

    open spec fn view(&self) -> RoundFault {
        match *self {
            RoundError::Decoding(e) => RoundFault::Decoding(e@),
            RoundError::Encoding(e) => RoundFault::Encoding(e@),
        }
    }
}

/// The options that the encoding test uses.
pub open spec fn ingest_options() -> EncodeOptions {
    EncodeOptions {
        quality: QualityPreset::Draft,
        ..crate::still::still_options(HapFormat::HapY, true)
    }
}

/// The picture of a test and the packet of it.
#[derive(Debug)]
pub struct BenchmarkData {
    pub picture: Vec<u8>,
    pub packet: Vec<u8>,
}

/// The packet that a test decodes.
pub open spec fn test_packet(test: BenchmarkTest) -> Result<Seq<u8>, EncodeFault> {
    let (w, h) = test.extent();
    crate::encoder::encoded(
        pattern(w, h),
        w,
        h,
        crate::encoder::plain_options(HapFormat::HapY, test.chunk_count() as usize, true),
    )
}

/// The picture of a test and the packet of it.
pub fn prepare(test: BenchmarkTest) -> (r: Result<BenchmarkData, EncodeError>)
    ensures
        match r {
            Ok(d) => {
                &&& d.picture@ == pattern(test.extent().0, test.extent().1)
                &&& test_packet(test) == Ok::<Seq<u8>, EncodeFault>(d.packet@)
            },
            Err(e) => test_packet(test) == Err::<Seq<u8>, EncodeFault>(e@),
        },
{
    let (w, h) = test.size();
    let picture = generate_pattern(w, h);
    match encode_frame(picture.as_slice(), w, h, HapFormat::HapY, test.chunks(), true) {
        Ok(packet) => Ok(BenchmarkData { picture, packet }),
        Err(e) => Err(e),
    }
}

/// The fault of a round, if it has one.
pub open spec fn round_fault(test: BenchmarkTest, picture: Seq<u8>, packet: Seq<u8>) -> Option<
    RoundFault,
> {
    let (w, h) = test.extent();
    match test {
        BenchmarkTest::HdDecode | BenchmarkTest::UhdDecode => match crate::decoder::rgba_of(
            packet,
            w,
            h,
        ) {
            Ok(_) => None,
            Err(e) => Some(RoundFault::Decoding(e)),
        },
        BenchmarkTest::HdEncode => match crate::encoder::encoded(picture, w, h, ingest_options()) {
            Ok(_) => None,
            Err(e) => Some(RoundFault::Encoding(e)),
        },
        BenchmarkTest::TextureStreaming => None,
    }
}

/// One round of a test: its result is dropped. A texture that cannot be read is no fault.
pub fn run_round(test: BenchmarkTest, data: &BenchmarkData) -> (r: Result<(), RoundError>)
    ensures
        match r {
            Ok(_) => round_fault(test, data.picture@, data.packet@) is None,
            Err(e) => round_fault(test, data.picture@, data.packet@) == Some(e@),
        },
{
    let (w, h) = test.size();
    match test {
        BenchmarkTest::HdDecode | BenchmarkTest::UhdDecode => {
            match decode_frame_to_rgba(data.packet.as_slice(), w, h) {
                Ok(_) => Ok(()),
                Err(e) => Err(RoundError::Decoding(e)),
            }
        },
        BenchmarkTest::HdEncode => {
            let options = EncodeOptions {
                format: HapFormat::HapY,
                chunk_count: 4,
                use_snappy: true,
                color_range: ColorRange::Full,
                alpha_mode: AlphaMode::Straight,
                dither_mode: DitherMode::Off,
                quality: QualityPreset::Draft,
            };
            match encode_frame_with_options(data.picture.as_slice(), w, h, &options) {
                Ok(_) => Ok(()),
                Err(e) => Err(RoundError::Encoding(e)),
            }
        },
        BenchmarkTest::TextureStreaming => {
            let texture = decode_frame_to_texture(data.packet.as_slice());
            Ok(())
        },
    }
}

/// A faster test is never called slower: the classes follow the speed, at 30, 60 and 120 frames.
pub proof fn law_speed_classes(fps: int)
    ensures
        class_of(fps) == SpeedClass::Excellent <==> fps >= 120,
        class_of(fps) == SpeedClass::Good <==> 60 <= fps < 120,
        class_of(fps) == SpeedClass::Fair <==> 30 <= fps < 60,
        class_of(fps) == SpeedClass::Poor <==> fps < 30,
{
}

/// What a speed is called says how many frames it reaches, and names the highest mark that it does:
/// 60, 120 and 240 for a small picture, 30, 60 and 120 for a large one, 30 and 60 for encoding.
pub proof fn law_grades(fps: int)
    ensures
        ({
            let hd = BenchmarkTest::HdDecode.grade(fps);
            let uhd = BenchmarkTest::UhdDecode.grade(fps);
            let enc = BenchmarkTest::HdEncode.grade(fps);
            &&& fps < 60 ==> hd == "Standard"@
            &&& 60 <= fps < 120 ==> hd == "Smooth (60+ FPS)"@
            &&& 120 <= fps < 240 ==> hd == "High (120+ FPS)"@
            &&& 240 <= fps ==> hd == "Elite (240+ FPS)"@
            &&& fps < 30 ==> uhd == "Entry-Level"@ && enc == "Near Real-Time"@
            &&& 30 <= fps < 60 ==> uhd == "Smooth (30+ FPS)"@ && enc == "Real-Time (30+ FPS)"@
            &&& 60 <= fps < 120 ==> uhd == "Broadcast (60+ FPS)"@
            &&& 60 <= fps ==> enc == "Broadcast (60+ FPS)"@
            &&& 120 <= fps ==> uhd == "Elite (120+ FPS)"@
        }),
{
}

/// Only the large test has 3840 by 2160 pixels in 8 chunks; the others have 1920 by 1080 in 4.
pub proof fn law_test_sizes(t: BenchmarkTest)
    ensures
        t.extent() == if t == BenchmarkTest::UhdDecode {
            (3840int, 2160int)
        } else {
            (1920int, 1080int)
        },
        t.chunk_count() * 1080 == 4 * t.extent().1,
{
}

/// The test picture: red and green begin at 0 and come within a step of 255 at the last column and
/// the last line; blue stays within half of that. No channel falls from one column or line to the
/// next, and every pixel is opaque.
pub proof fn law_pattern(x: int, y: int, c: int, w: int, h: int)
    requires
        0 <= x < w,
        0 <= y < h,
        0 <= c < 4,
    ensures
        ({
            let r = pattern_value(x, y, 0, w, h);
            let g = pattern_value(x, y, 1, w, h);
            let b = pattern_value(x, y, 2, w, h);
            &&& pattern_value(x, y, 3, w, h) == 255
            &&& r * w <= 255 * x < (r + 1) * w
            &&& g * h <= 255 * y < (g + 1) * h
            &&& b * (w + h) <= 128 * (x + y) < (b + 1) * (w + h)
        }),
{
    lemma_floor(x * 255, w);
    lemma_floor(y * 255, h);
    lemma_floor((x + y) * 128, w + h);
}

proof fn lemma_floor(n: int, d: int)
    requires
        0 <= n,
        0 < d,
    ensures
        (n / d) * d <= n < (n / d + 1) * d,
{
    assert((n / d) * d <= n < (n / d + 1) * d) by (nonlinear_arith)
        requires
            0 <= n,
            0 < d,
    ;
}

/// A round of decoding fails as decoding does, a round of encoding as encoding does, and streaming a
/// texture never.
pub proof fn law_rounds(picture: Seq<u8>, packet: Seq<u8>)
    ensures
        round_fault(BenchmarkTest::HdDecode, picture, packet) is None <==> crate::decoder::rgba_of(
            packet,
            1920,
            1080,
        ) is Ok,
        round_fault(BenchmarkTest::UhdDecode, picture, packet) is None <==> crate::decoder::rgba_of(
            packet,
            3840,
            2160,
        ) is Ok,
        round_fault(BenchmarkTest::HdEncode, picture, packet) is None <==> crate::encoder::encoded(
            picture,
            1920,
            1080,
            ingest_options(),
        ) is Ok,
        round_fault(BenchmarkTest::TextureStreaming, picture, packet) is None,
        ingest_options().quality == QualityPreset::Draft,
        ingest_options().format == HapFormat::HapY,
        ingest_options().chunk_count == 4 && ingest_options().use_snappy,
{
}

} // verus!
