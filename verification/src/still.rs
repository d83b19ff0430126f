//! Still images: padding to whole blocks, and movies of one frame.

use crate::bytes::{push_all, push_zeros};
use crate::color::{AlphaMode, ColorRange, DitherMode, EncodeOptions, QualityPreset};
use crate::encoder::{encode_frame_with_options, EncodeError, EncodeFault};
use crate::format::HapFormat;
use crate::mov::writer::{put_tail, MovWriterError, MovWriterFault, QtHapWriter, VideoConfig};
use crate::single::Single;
use vstd::prelude::*;
use vstd::slice::slice_subrange;

verus! {

/// The next multiple of 4.
pub open spec fn next_four(n: int) -> int {
    (n + 3) / 4 * 4
}

/// An image in the upper left corner of one of whole blocks; the rest is 0.
pub open spec fn padded_image(src: Seq<u8>, width: int, height: int) -> Seq<u8> {
    let wide = next_four(width);
    Seq::new(
        (wide * next_four(height) * 4) as nat,
        |i: int|
            {
                let x = crate::parallel::column(i, wide);
                let y = crate::parallel::line(i, wide);
                if x < width && y < height {
                    src[(y * width + x) * 4 + i % 4]
                } else {
                    0
                }
            },
    )
}

/// What padding makes of an image.
pub open spec fn padded_pixels(src: Seq<u8>, width: int, height: int) -> Seq<u8> {
    if crate::dxt::whole_blocks(width, height) {
        src
    } else {
        padded_image(src, width, height)
    }
}

/// The image can be padded: it has all its pixels, and the padded one can be held in one buffer.
pub open spec fn can_be_padded(src: Seq<u8>, width: int, height: int) -> bool {
    crate::dxt::whole_blocks(width, height) || {
        &&& src.len() >= width * height * 4
        &&& next_four(width) <= usize::MAX
        &&& next_four(height) <= usize::MAX
        &&& next_four(width) * next_four(height) * 4 <= usize::MAX
    }
}

fn round_up(n: usize) -> (r: usize)
    requires
        next_four(n as int) <= usize::MAX,
    ensures
        r == next_four(n as int),
{
    if n % 4 == 0 {
        n
    } else {
        n - n % 4 + 4
    }
}

/// The line of a padded image.
spec fn padded_line(src: Seq<u8>, width: int, height: int, y: int) -> Seq<u8> {
    if y < height {
        src.subrange(y * (width * 4), y * (width * 4) + width * 4) + crate::bytes::zeros(
            (next_four(width) - width) * 4,
        )
    } else {
        crate::bytes::zeros(next_four(width) * 4)
    }
}

proof fn lemma_padded_line(src: Seq<u8>, width: int, height: int, y: int, k: int)
    requires
        0 <= width,
        0 <= y < next_four(height),
        0 <= k < next_four(width) * 4,
        src.len() >= width * height * 4,
    ensures
        padded_line(src, width, height, y).len() == next_four(width) * 4,
        0 <= y * (next_four(width) * 4) + k < padded_image(src, width, height).len(),
        padded_line(src, width, height, y)[k] == padded_image(src, width, height)[y * (next_four(width)
            * 4) + k],
{
    let wide = next_four(width);
    let tall = next_four(height);
    crate::parallel::lemma_position(y, k, wide);
    assert(y * (wide * 4) + k < wide * tall * 4) by (nonlinear_arith)
        requires
            0 <= y <= tall - 1,
            0 <= k < wide * 4,
    ;
    assert(0 <= y * (wide * 4)) by (nonlinear_arith)
        requires
            0 <= y,
            0 <= wide,
    ;
    if y < height {
        assert(0 <= y * (width * 4) && y * (width * 4) + width * 4 <= width * height * 4)
            by (nonlinear_arith)
            requires
                0 <= y <= height - 1,
                0 <= width,
        ;
        assert((y * width + k / 4) * 4 + k % 4 == y * (width * 4) + k) by (nonlinear_arith);
    }
}

/// Pads an RGBA8 image on the right and at the bottom until both dimensions are multiples of 4.
pub fn pad_rgba_to_multiple_of_4(src: &[u8], width: usize, height: usize) -> (r: (
    usize,
    usize,
    Vec<u8>,
))
    requires
        can_be_padded(src@, width as int, height as int),
    ensures
        r.0 == next_four(width as int),
        r.1 == next_four(height as int),
        r.2@ == padded_pixels(src@, width as int, height as int),
{
    let mut out: Vec<u8> = Vec::new();
    if width % 4 == 0 && height % 4 == 0 {
        push_all(&mut out, src);
        assert(out@ =~= src@);
        return (width, height, out);
    }
    let wide: usize = round_up(width);
    let tall: usize = round_up(height);
    assert(src@.len() == src.len());
    let ghost want = padded_image(src@, width as int, height as int);
    let mut y: usize = 0;
    while y < tall
        invariant
            y <= tall,
            wide == next_four(width as int),
            tall == next_four(height as int),
            src@.len() >= width * height * 4,
            src@.len() <= usize::MAX,
            wide * tall * 4 <= usize::MAX,
            want == padded_image(src@, width as int, height as int),
            out@.len() == y * (wide * 4),
            forall|i: int| 0 <= i < out@.len() ==> out@[i] == want[i],
        decreases tall - y,
    {
        let ghost before = out@;
        let ghost row = padded_line(src@, width as int, height as int, y as int);
        assert(wide * 4 <= wide * tall * 4) by (nonlinear_arith)
            requires
                tall >= 1,
        ;
        if y < height {
            assert(y * (width * 4) + width * 4 <= width * height * 4) by (nonlinear_arith)
                requires
                    0 <= y <= height - 1,
            ;
            assert(0 <= y * (width * 4)) by (nonlinear_arith);
            let start: usize = y * (width * 4);
            push_all(&mut out, slice_subrange(src, start, start + width * 4));
            push_zeros(&mut out, (wide - width) * 4);
        } else {
            push_zeros(&mut out, wide * 4);
        }
        assert(out@ =~= before + row);
        proof {
            assert((y + 1) * (wide * 4) == y * (wide * 4) + wide * 4) by (nonlinear_arith);
            assert(row.len() == wide * 4);
            assert forall|i: int| 0 <= i < out@.len() implies out@[i] == want[i] by {
                if i >= before.len() {
                    let k = i - before.len();
                    lemma_padded_line(src@, width as int, height as int, y as int, k);
                }
            }
        }
        y = y + 1;
    }
    assert(want.len() == tall * (wide * 4)) by (nonlinear_arith)
        requires
            want.len() == wide * tall * 4,
    ;
    assert(out@ =~= want);
    (wide, tall, out)
}

/// Padding keeps every pixel at its place and adds pixels of 0 only.
pub proof fn law_padding_keeps_pixels(src: Seq<u8>, width: int, height: int, x: int, y: int, c: int)
    requires
        0 <= width,
        src.len() == width * height * 4,
        0 <= x < next_four(width),
        0 <= y < next_four(height),
        0 <= c < 4,
    ensures
        ({
            let i = y * (next_four(width) * 4) + (x * 4 + c);
            let out = padded_pixels(src, width, height);
            &&& 0 <= i < out.len()
            &&& out[i] == if x < width && y < height {
                src[y * (width * 4) + (x * 4 + c)]
            } else {
                0
            }
        }),
{
    let wide = next_four(width);
    let k = x * 4 + c;
    lemma_padded_line(src, width, height, y, k);
    crate::parallel::lemma_position(y, k, wide);
    assert(0 <= y * (wide * 4)) by (nonlinear_arith)
        requires
            0 <= y,
            0 <= wide,
    ;
    if y < height {
        assert(0 <= y * (width * 4) && y * (width * 4) + width * 4 <= width * height * 4)
            by (nonlinear_arith)
            requires
                0 <= y <= height - 1,
                0 <= width,
        ;
    }
}

/// Errors of making a movie of a still image.
#[derive(Debug)]
pub enum StillError {
    /// The image could not be encoded.
    Encoding(EncodeError),
    /// The movie could not be written.
    Movie(MovWriterError),
}

/// The error of making a movie, without the words of its parts.
pub enum StillFault {
    Encoding(EncodeFault),
    Movie(MovWriterFault),
}

impl View for StillError {
    type V = StillFault;

    open spec fn view(&self) -> StillFault {
        match *self {
            StillError::Encoding(e) => StillFault::Encoding(e@),
            StillError::Movie(e) => StillFault::Movie(e@),
        }
    }
}

/// The options that still images are encoded with.
pub open spec fn still_options(format: HapFormat, snappy: bool) -> EncodeOptions {
    EncodeOptions {
        format,
        chunk_count: 4,
        use_snappy: snappy,
        color_range: ColorRange::Full,
        alpha_mode: AlphaMode::Straight,
        dither_mode: DitherMode::Off,
        quality: QualityPreset::Production,
    }
}

/// The track of a movie of one still image: 30 frames per second.
pub open spec fn still_config(wide: int, tall: int, format: HapFormat) -> VideoConfig {
    let fps = crate::single::whole_number(30);
    VideoConfig {
        width: (wide % 0x1_0000_0000) as u32,
        height: (tall % 0x1_0000_0000) as u32,
        fps,
        format,
        timescale: crate::mov::writer::timescale_for(fps) as u32,
    }
}

/// The movie that a still image makes.
pub open spec fn still_movie(
    rgba: Seq<u8>,
    width: int,
    height: int,
    format: HapFormat,
    snappy: bool,
) -> Result<Seq<u8>, StillFault> {
    let wide = next_four(width);
    let tall = next_four(height);
    let config = still_config(wide, tall, format);
    match crate::encoder::encoded(
        padded_pixels(rgba, width, height),
        wide,
        tall,
        still_options(format, snappy),
    ) {
        Err(e) => Err(StillFault::Encoding(e)),
        Ok(packet) => match crate::mov::writer::config_fault(config) {
            Some(m) => Err(StillFault::Movie(MovWriterFault::InvalidConfig(m))),
            None => Ok(crate::mov::writer::movie(config, seq![packet])),
        },
    }
}

/// The file of a movie of one frame.
fn movie_of_one(packet: &[u8], config: VideoConfig) -> (r: Result<Vec<u8>, MovWriterError>)
    requires
        config.fps.wf(),
    ensures
        match r {
            Ok(file) => crate::mov::writer::config_fault(config) is None && file@
                == crate::mov::writer::movie(config, seq![packet@]),
            Err(e) => crate::mov::writer::config_fault(config) matches Some(m) && e@
                == MovWriterFault::InvalidConfig(m),
        },
{
    let (mut writer, head) = match QtHapWriter::create(config) {
        Ok(w) => w,
        Err(e) => return Err(e),
    };
    let mut file: Vec<u8> = head;
    push_all(&mut file, packet);
    assert(file@.len() == file.len());
    proof {
        assert(crate::snappy::joined(Seq::<Seq<u8>>::empty()).len() == 0);
        assert(crate::mov::writer::movie_head(0).len() == 36);
    }
    match writer.write_frame(packet) {
        Ok(_) => {},
        Err(e) => return Err(e),
    }
    assert(writer.written() =~= seq![packet@]);
    match writer.finalize() {
        Ok(tail) => {
            assert(file@ == crate::mov::writer::unfinished(seq![packet@]));
            Ok(put_tail(file.as_slice(), &tail))
        },
        Err(e) => Err(e),
    }
}

/// Makes a movie of one frame of a still image; the bytes are the whole file.
pub fn export_image_to_hap_mov(
    rgba: &[u8],
    width: usize,
    height: usize,
    format: HapFormat,
    snappy: bool,
) -> (r: Result<Vec<u8>, StillError>)
    requires
        can_be_padded(rgba@, width as int, height as int),
        next_four(width as int) * next_four(height as int) * 4 <= usize::MAX,
    ensures
        match r {
            Ok(file) => still_movie(rgba@, width as int, height as int, format, snappy) == Ok::<
                Seq<u8>,
                StillFault,
            >(file@),
            Err(e) => still_movie(rgba@, width as int, height as int, format, snappy) == Err::<
                Seq<u8>,
                StillFault,
            >(e@),
        },
{
    let (wide, tall, pixels) = pad_rgba_to_multiple_of_4(rgba, width, height);
    let options = EncodeOptions {
        format,
        chunk_count: 4,
        use_snappy: snappy,
        color_range: ColorRange::Full,
        alpha_mode: AlphaMode::Straight,
        dither_mode: DitherMode::Off,
        quality: QualityPreset::Production,
    };
    let packet = match encode_frame_with_options(pixels.as_slice(), wide, tall, &options) {
        Ok(p) => p,
        Err(e) => return Err(StillError::Encoding(e)),
    };
    let config = VideoConfig::new(
        (wide as u64 % 0x1_0000_0000) as u32,
        (tall as u64 % 0x1_0000_0000) as u32,
        Single::from_u32(30),
        format,
    );
    assert(config == still_config(wide as int, tall as int, format));
    match movie_of_one(packet.as_slice(), config) {
        Ok(file) => Ok(file),
        Err(e) => Err(StillError::Movie(e)),
    }
}

/// The padded size is the least multiple of 4 that holds the size; an image of whole blocks stays
/// as it is.
pub proof fn law_padded_size(src: Seq<u8>, width: int, height: int)
    requires
        0 <= width,
        0 <= height,
    ensures
        next_four(width) % 4 == 0,
        width <= next_four(width) < width + 4,
        width % 4 == 0 && height % 4 == 0 ==> padded_pixels(src, width, height) == src,
        width % 4 != 0 || height % 4 != 0 ==> padded_pixels(src, width, height).len() == 4 * (
        next_four(width) * next_four(height)),
{
    assert(next_four(width) * next_four(height) >= 0) by (nonlinear_arith)
        requires
            next_four(width) >= 0,
            next_four(height) >= 0,
    ;
}

/// A still image is encoded in four chunks as it is: no change of its range or its alpha, no
/// dithering, in the best quality. Its movie has one frame, of the padded size, in the format that
/// was asked for, at 30 frames per second.
pub proof fn law_still_settings(wide: int, tall: int, format: HapFormat, snappy: bool)
    requires
        0 <= wide <= u32::MAX,
        0 <= tall <= u32::MAX,
    ensures
        ({
            let o = still_options(format, snappy);
            let c = still_config(wide, tall, format);
            &&& o.format == format && o.chunk_count == 4 && o.use_snappy == snappy
            &&& o.color_range == ColorRange::Full && o.alpha_mode == AlphaMode::Straight
            &&& o.dither_mode == DitherMode::Off && o.quality == QualityPreset::Production
            &&& c.width == wide && c.height == tall && c.format == format && c.fps
                == crate::single::whole_number(30)
        }),
{
}

/// The movie of a still image can be made exactly if its padded pixels can be encoded and there are
/// pixels; it has one frame, which is the packet of them.
pub proof fn law_still_movie(
    rgba: Seq<u8>,
    width: int,
    height: int,
    format: HapFormat,
    snappy: bool,
)
    requires
        0 <= width <= 0xFFFF_FFF0,
        0 <= height <= 0xFFFF_FFF0,
    ensures
        ({
            let wide = 4 * ((width + 3) / 4);
            let tall = 4 * ((height + 3) / 4);
            let packet = crate::encoder::encoded(
                padded_pixels(rgba, width, height),
                wide,
                tall,
                still_options(format, snappy),
            );
            match still_movie(rgba, width, height, format, snappy) {
                Ok(file) => {
                    &&& packet is Ok && width > 0 && height > 0
                    &&& file == crate::mov::writer::movie(
                        still_config(wide, tall, format),
                        seq![packet->Ok_0],
                    )
                },
                Err(StillFault::Encoding(e)) => packet == Err::<Seq<u8>, EncodeFault>(e),
                Err(StillFault::Movie(_)) => packet is Ok && (width == 0 || height == 0),
            }
        }),
{
    vstd::arithmetic::power2::lemma2_to64();
    let zero = crate::single::whole_number(0);
    let rate = crate::single::whole_number(30);
    assert(30 * crate::single::pow2(0) == 30);
    crate::single::lemma_whole_number(0, 0);
    crate::single::lemma_whole_number(30, 0);
    crate::single::lemma_less_units(rate, 30, zero, 0, 0);
    crate::single::lemma_less_units(zero, 0, rate, 30, 0);
    assert(0 * crate::single::pow2(149) == 0);
    let p = crate::single::pow2(149);
    vstd::arithmetic::power2::lemma_pow2_pos(149);
    assert(30 * p > 0) by (nonlinear_arith)
        requires
            p > 0,
    ;
    assert(!crate::single::is_zero(rate));
}

} // verus!
