//! Colour range and alpha processing ahead of encoding, and the encoding options.

use crate::format::HapFormat;
use crate::parallel::{join_rows, map_indices};
use std::borrow::Cow;
use vstd::prelude::*;

verus! {

/// The levels of the input.
#[derive(Debug, Clone, Copy, PartialEq, Eq, Structural)]
pub enum ColorRange {
    /// Full graphics range 0..=255.
    Full,
    /// Limited studio range, 16..=235, which is expanded to 0..=255.
    Limited,
}

/// What is done about transparency.
#[derive(Debug, Clone, Copy, PartialEq, Eq, Structural)]
pub enum AlphaMode {
    /// Straight (unassociated) alpha: the colours stay as they are.
    Straight,
    /// Premultiply: `(colour * alpha + 127) / 255`.
    Premultiply,
    /// Undo a premultiplication: `(colour * 255 + alpha / 2) / alpha`.
    Demultiply,
    /// Discard the alpha channel: every pixel becomes opaque.
    Discard,
}

/// Chroma dithering against colour banding.
#[derive(Debug, Clone, Copy, PartialEq, Eq, Structural)]
pub enum DitherMode {
    /// No dithering.
    Off,
    /// 4x4 Bayer ordered dithering.
    Bayer4x4,
}

/// Compression quality against encoding speed.
#[derive(Debug, Clone, Copy, PartialEq, Eq, Structural)]
pub enum QualityPreset {
    /// Fast.
    Draft,
    /// Of higher quality.
    Production,
}

/// The options of encoding a frame.
#[derive(Debug, Clone, Copy, PartialEq, Eq)]
pub struct EncodeOptions {
    pub format: HapFormat,
    pub chunk_count: usize,
    pub use_snappy: bool,
    pub color_range: ColorRange,
    pub alpha_mode: AlphaMode,
    pub dither_mode: DitherMode,
    pub quality: QualityPreset,
}

impl Default for ColorRange {
    fn default() -> (r: Self)
        ensures
            r == ColorRange::Full,
    {
        ColorRange::Full
    }
}

impl Default for AlphaMode {
    fn default() -> (r: Self)
        ensures
            r == AlphaMode::Straight,
    {
        AlphaMode::Straight
    }
}

impl Default for DitherMode {
    fn default() -> (r: Self)
        ensures
            r == DitherMode::Off,
    {
        DitherMode::Off
    }
}

impl Default for QualityPreset {
    fn default() -> (r: Self)
        ensures
            r == QualityPreset::Production,
    {
        QualityPreset::Production
    }
}

impl Default for EncodeOptions {
    fn default() -> (r: Self)
        ensures
            r == (EncodeOptions {
                format: HapFormat::HapY,
                chunk_count: 4,
                use_snappy: true,
                color_range: ColorRange::Full,
                alpha_mode: AlphaMode::Straight,
                dither_mode: DitherMode::Off,
                quality: QualityPreset::Production,
            }),
    {
        EncodeOptions {
            format: HapFormat::HapY,
            chunk_count: 4,
            use_snappy: true,
            color_range: ColorRange::Full,
            alpha_mode: AlphaMode::Straight,
            dither_mode: DitherMode::Off,
            quality: QualityPreset::Production,
        }
    }
}

/// Maps the studio levels 16..=235 to the full range 0..=255.
pub const LIMITED_TO_FULL_LUT: [u8; 256] = [
    0, 0, 0, 0, 0, 0, 0, 0, 0, 0, 0, 0, 0, 0, 0, 0,
    0, 1, 2, 3, 5, 6, 7, 8, 9, 10, 12, 13, 14, 15, 16, 17,
    19, 20, 21, 22, 23, 24, 26, 27, 28, 29, 30, 31, 33, 34, 35, 36,
    37, 38, 40, 41, 42, 43, 44, 45, 47, 48, 49, 50, 51, 52, 54, 55,
    56, 57, 58, 59, 61, 62, 63, 64, 65, 66, 68, 69, 70, 71, 72, 73,
    75, 76, 77, 78, 79, 80, 82, 83, 84, 85, 86, 87, 88, 90, 91, 92,
    93, 94, 95, 97, 98, 99, 100, 101, 102, 104, 105, 106, 107, 108, 109, 111,
    112, 113, 114, 115, 116, 118, 119, 120, 121, 122, 123, 125, 126, 127, 128, 129,
    130, 132, 133, 134, 135, 136, 137, 139, 140, 141, 142, 143, 144, 146, 147, 148,
    149, 150, 151, 153, 154, 155, 156, 157, 158, 160, 161, 162, 163, 164, 165, 167,
    168, 169, 170, 171, 172, 173, 175, 176, 177, 178, 179, 180, 182, 183, 184, 185,
    186, 187, 189, 190, 191, 192, 193, 194, 196, 197, 198, 199, 200, 201, 203, 204,
    205, 206, 207, 208, 210, 211, 212, 213, 214, 215, 217, 218, 219, 220, 221, 222,
    224, 225, 226, 227, 228, 229, 231, 232, 233, 234, 235, 236, 238, 239, 240, 241,
    242, 243, 245, 246, 247, 248, 249, 250, 252, 253, 254, 255, 255, 255, 255, 255,
    255, 255, 255, 255, 255, 255, 255, 255, 255, 255, 255, 255, 255, 255, 255, 255,
];

/// The 4x4 Bayer matrix.
pub const BAYER_4X4: [[i32; 4]; 4] = [[0, 8, 2, 10], [12, 4, 14, 6], [3, 11, 1, 9], [15, 7, 13, 5]];

pub open spec fn clamp_byte(v: int) -> int {
    if v < 0 {
        0
    } else if v > 255 {
        255
    } else {
        v
    }
}

/// The full-range level of a studio level: `(level - 16) * 255 / 219`, rounded and clamped.
pub open spec fn expanded(level: int) -> int {
    clamp_byte(((level - 16) * 255 + 109) / 219)
}

/// The table holds the expanded levels.
pub proof fn law_expansion_table(level: int)
    requires
        0 <= level < 256,
    ensures
        LIMITED_TO_FULL_LUT@[level] == expanded(level),
{
}

/// A colour level in the full range.
pub open spec fn full_level(level: int, range: ColorRange) -> int {
    match range {
        ColorRange::Full => level,
        ColorRange::Limited => expanded(level),
    }
}

/// A colour value after alpha processing.
pub open spec fn with_alpha(colour: int, alpha: int, mode: AlphaMode) -> int {
    match mode {
        AlphaMode::Straight | AlphaMode::Discard => colour,
        AlphaMode::Premultiply => (colour * alpha + 127) / 255,
        AlphaMode::Demultiply => if alpha > 0 {
            clamp_byte((colour * 255 + alpha / 2) / alpha)
        } else {
            0
        },
    }
}

/// The byte number `i` of a preprocessed RGBA8 buffer.
pub open spec fn processed_byte(
    rgba: Seq<u8>,
    i: int,
    range: ColorRange,
    mode: AlphaMode,
) -> u8 {
    let alpha = rgba[i - i % 4 + 3] as int;
    if i % 4 == 3 {
        if mode == AlphaMode::Discard {
            255
        } else {
            rgba[i]
        }
    } else {
        with_alpha(full_level(rgba[i] as int, range), alpha, mode) as u8
    }
}

/// A preprocessed RGBA8 buffer: the levels are expanded first, then alpha is applied.
pub open spec fn processed(rgba: Seq<u8>, range: ColorRange, mode: AlphaMode) -> Seq<u8> {
    Seq::new(rgba.len(), |i: int| processed_byte(rgba, i, range, mode))
}

/// The bytes of a buffer that is borrowed or owned.
pub open spec fn cow_bytes(c: Cow<'_, [u8]>) -> Seq<u8> {
    match c {
        Cow::Borrowed(b) => b@,
        Cow::Owned(v) => v@,
    }
}

/// Expanded and processed colours are bytes.
proof fn lemma_with_alpha(colour: int, alpha: int, mode: AlphaMode)
    requires
        0 <= colour <= 255,
        0 <= alpha <= 255,
    ensures
        0 <= with_alpha(colour, alpha, mode) <= 255,
{
    if mode == AlphaMode::Premultiply {
        assert(0 <= colour * alpha <= 255 * 255) by (nonlinear_arith)
            requires
                0 <= colour <= 255,
                0 <= alpha <= 255,
        ;
    }
}

/// One colour value of a pixel.
fn process_colour(level: u8, alpha: u8, range: ColorRange, mode: AlphaMode) -> (r: u8)
    ensures
        r == with_alpha(full_level(level as int, range), alpha as int, mode),
{
    proof {
        law_expansion_table(level as int);
        lemma_with_alpha(full_level(level as int, range), alpha as int, mode);
    }
    let colour: u8 = match range {
        ColorRange::Full => level,
        ColorRange::Limited => LIMITED_TO_FULL_LUT[level as usize],
    };
    match mode {
        AlphaMode::Straight => colour,
        AlphaMode::Discard => colour,
        AlphaMode::Premultiply => {
            assert(0 <= colour * alpha <= 255 * 255) by (nonlinear_arith)
                requires
                    0 <= colour <= 255,
                    0 <= alpha <= 255,
            ;
            ((colour as u32 * alpha as u32 + 127) / 255) as u8
        },
        AlphaMode::Demultiply => {
            if alpha > 0 {
                let a: u32 = alpha as u32;
                let v: u32 = (colour as u32 * 255 + a / 2) / a;
                if v > 255 {
                    255
                } else {
                    v as u8
                }
            } else {
                0
            }
        },
    }
}

/// One row of a preprocessed image.
fn process_row(
    rgba: &[u8],
    width: usize,
    y: usize,
    range: ColorRange,
    mode: AlphaMode,
) -> (row: Vec<u8>)
    requires
        (y + 1) * (width * 4) <= rgba@.len(),
        width * 4 <= usize::MAX,
    ensures
        row@.len() == width * 4,
        forall|k: int|
            0 <= k < width * 4 ==> #[trigger] row@[k] == processed_byte(
                rgba@,
                y * (width * 4) + k,
                range,
                mode,
            ),
{
    let ghost start = y * (width * 4);
    proof {
        assert(rgba@.len() == rgba.len());
        assert((y + 1) * (width * 4) == start + width * 4) by (nonlinear_arith)
            requires
                start == y * (width * 4),
        ;
        assert(start == 4 * (y * width) && y * width >= 0) by (nonlinear_arith)
            requires
                start == y * (width * 4),
                y >= 0,
                width >= 0,
        ;
    }
    let base: usize = y * (width * 4);
    let mut row: Vec<u8> = Vec::new();
    let mut x: usize = 0;
    while x < width
        invariant
            x <= width,
            width * 4 <= usize::MAX,
            base == start,
            start == y * (width * 4),
            start % 4 == 0,
            start + width * 4 <= rgba@.len(),
            rgba@.len() <= usize::MAX,
            row@.len() == x * 4,
            forall|k: int|
                0 <= k < x * 4 ==> #[trigger] row@[k] == processed_byte(
                    rgba@,
                    start + k,
                    range,
                    mode,
                ),
        decreases width - x,
    {
        let p: usize = base + 4 * x;
        let a: u8 = rgba[p + 3];
        row.push(process_colour(rgba[p], a, range, mode));
        row.push(process_colour(rgba[p + 1], a, range, mode));
        row.push(process_colour(rgba[p + 2], a, range, mode));
        row.push(
            match mode {
                AlphaMode::Discard => 255,
                _ => a,
            },
        );
        proof {
            assert(p % 4 == 0);
        }
        x = x + 1;
    }
    row
}

/// Expands the levels and applies alpha. With full range and straight alpha nothing changes and
/// nothing is copied.
pub fn preprocess_rgba<'a>(
    rgba: &'a [u8],
    width: usize,
    height: usize,
    color_range: ColorRange,
    alpha_mode: AlphaMode,
) -> (r: Cow<'a, [u8]>)
    requires
        rgba@.len() == width * height * 4,
    ensures
        cow_bytes(r) == processed(rgba@, color_range, alpha_mode),
        cow_bytes(r).len() == rgba@.len(),
        color_range == ColorRange::Full && alpha_mode == AlphaMode::Straight ==> (r is Borrowed
            && cow_bytes(r) == rgba@),
{
    if color_range == ColorRange::Full && alpha_mode == AlphaMode::Straight {
        assert(processed(rgba@, color_range, alpha_mode) =~= rgba@);
        return Cow::Borrowed(rgba);
    }
    if width == 0 || height == 0 {
        let none: Vec<u8> = Vec::new();
        proof {
            assert(width * height == 0) by (nonlinear_arith)
                requires
                    width == 0 || height == 0,
            ;
            assert(none@ =~= processed(rgba@, color_range, alpha_mode));
        }
        return Cow::Owned(none);
    }
    let ghost whole = rgba@.len() as int;
    proof {
        assert(rgba@.len() == rgba.len());
        assert(whole == height * (width * 4) && width * 4 <= whole) by (nonlinear_arith)
            requires
                whole == width * height * 4,
                height >= 1,
                width >= 1,
        ;
    }
    let row_len: usize = width * 4;
    let make = |y: usize| -> (row: Vec<u8>)
        requires
            y < height,
        ensures
            row@.len() == row_len,
            forall|k: int|
                0 <= k < row_len ==> #[trigger] row@[k] == processed_byte(
                    rgba@,
                    y * row_len + k,
                    color_range,
                    alpha_mode,
                ),
    {
        proof {
            assert((y + 1) * row_len <= height * row_len) by (nonlinear_arith)
                requires
                    y + 1 <= height,
                    row_len >= 0,
            ;
        }
        process_row(rgba, width, y, color_range, alpha_mode)
    };
    let rows = map_indices(height, make);
    let out: Vec<u8> = join_rows(&rows, row_len);
    proof {
        let want = processed(rgba@, color_range, alpha_mode);
        assert forall|i: int| 0 <= i < whole implies #[trigger] out@[i] == want[i] by {
            let r = i / row_len as int;
            let k = i % row_len as int;
            assert(i == r * row_len + k && 0 <= k < row_len && 0 <= r < height) by (nonlinear_arith)
                requires
                    r == i / row_len as int,
                    k == i % row_len as int,
                    row_len > 0,
                    0 <= i < height * row_len,
            ;
            assert(rows@[r]@[k] == out@[r * row_len + k]);
        }
        assert(out@ =~= want);
    }
    Cow::Owned(out)
}

/// Discarding alpha makes every pixel opaque and leaves its colours; no other mode touches alpha.
pub proof fn law_alpha_channel(rgba: Seq<u8>, range: ColorRange, mode: AlphaMode, pixel: int)
    requires
        0 <= pixel,
        4 * pixel + 3 < rgba.len(),
    ensures
        processed(rgba, range, mode)[4 * pixel + 3] == if mode == AlphaMode::Discard {
            255
        } else {
            rgba[4 * pixel + 3]
        },
        mode == AlphaMode::Discard && range == ColorRange::Full ==> forall|c: int|
            0 <= c < 3 ==> #[trigger] processed(rgba, range, mode)[4 * pixel + c] == rgba[4 * pixel
                + c],
{
}

/// Alpha processing leaves the colours of opaque pixels alone.
pub proof fn law_opaque_pixels(colour: int, mode: AlphaMode)
    requires
        0 <= colour <= 255,
    ensures
        with_alpha(colour, 255, mode) == colour,
{
}

/// Undoing a premultiplication gives the colour back up to the precision that `alpha` leaves: an
/// error of `127.5 / alpha + 0.5`, that is at most 1 from half opacity up.
pub proof fn law_demultiply_after_premultiply(colour: int, alpha: int)
    requires
        0 <= colour <= 255,
        0 < alpha <= 255,
    ensures
        ({
            let back = with_alpha(
                with_alpha(colour, alpha, AlphaMode::Premultiply),
                alpha,
                AlphaMode::Demultiply,
            );
            &&& -(255 + alpha) <= 2 * ((back - colour) * alpha) <= 255 + alpha
            &&& alpha >= 128 ==> -1 <= back - colour <= 1
        }),
{
    let p = with_alpha(colour, alpha, AlphaMode::Premultiply);
    let q = (p * 255 + alpha / 2) / alpha;
    let back = clamp_byte(q);
    lemma_with_alpha(colour, alpha, AlphaMode::Premultiply);
    assert(q * alpha <= p * 255 + alpha / 2 < q * alpha + alpha) by (nonlinear_arith)
        requires
            q == (p * 255 + alpha / 2) / alpha,
            alpha > 0,
    ;
    assert(0 <= q) by (nonlinear_arith)
        requires
            p * 255 + alpha / 2 < q * alpha + alpha,
            p >= 0,
            alpha > 0,
    ;
    if q <= 255 {
        assert((q - colour) * alpha == q * alpha - colour * alpha) by (nonlinear_arith);
    } else {
        assert((255 - colour) * alpha <= q * alpha - colour * alpha) by (nonlinear_arith)
            requires
                q >= 255,
                alpha > 0,
        ;
        assert((255 - colour) * alpha >= 0) by (nonlinear_arith)
            requires
                colour <= 255,
                alpha > 0,
        ;
    }
    let e = back - colour;
    if alpha >= 128 {
        if e >= 2 {
            assert(e * alpha >= 2 * alpha) by (nonlinear_arith)
                requires
                    e >= 2,
                    alpha > 0,
            ;
        } else if e <= -2 {
            assert(e * alpha <= -2 * alpha) by (nonlinear_arith)
                requires
                    e <= -2,
                    alpha > 0,
            ;
        }
    }
}

/// The integer `v` is `n / d`, rounded to the nearest.
pub open spec fn is_rounded(v: int, n: int, d: int) -> bool {
    -d <= 2 * (v * d - n) <= d
}

/// Limited range is expanded whatever is done about alpha: preparing a picture of limited range is
/// preparing, as one of full range, the picture whose colours are expanded. A colour between 16
/// and 235 expands to `(v - 16) * 255 / 219`, rounded; lower ones are black and higher ones white.
pub proof fn law_limited_range(rgba: Seq<u8>, wide: Seq<u8>, mode: AlphaMode)
    requires
        wide.len() == rgba.len(),
        rgba.len() % 4 == 0,
        forall|i: int|
            0 <= i < rgba.len() ==> if i % 4 == 3 {
                #[trigger] wide[i] == rgba[i]
            } else if rgba[i] <= 16 {
                wide[i] == 0
            } else if rgba[i] >= 235 {
                wide[i] == 255
            } else {
                is_rounded(wide[i] as int, (rgba[i] - 16) * 255, 219)
            },
    ensures
        processed(rgba, ColorRange::Limited, mode) == processed(wide, ColorRange::Full, mode),
        mode == AlphaMode::Straight ==> processed(rgba, ColorRange::Limited, mode) == wide,
{
    let a = processed(rgba, ColorRange::Limited, mode);
    let b = processed(wide, ColorRange::Full, mode);
    assert forall|i: int| 0 <= i < rgba.len() implies #[trigger] a[i] == b[i] by {
        let j = i - i % 4 + 3;
        assert(wide[j] == rgba[j]);
        if i % 4 != 3 {
            let v = rgba[i] as int;
            let w = wide[i] as int;
            assert(expanded(v) == w);
        }
    }
    assert(a =~= b);
    if mode == AlphaMode::Straight {
        assert(a =~= wide);
    }
}

/// What preparing makes of the colours of a picture of full range: straight and discarded alpha
/// leave them as they are, premultiplication takes the share that alpha gives, rounded, and
/// undoing it divides by that share, rounded and at most white; where nothing shows, black is left.
pub proof fn law_prepared_colours(rgba: Seq<u8>, mode: AlphaMode, pixel: int, c: int)
    requires
        0 <= pixel,
        4 * pixel + 3 < rgba.len(),
        0 <= c < 3,
    ensures
        ({
            let was = rgba[4 * pixel + c] as int;
            let alpha = rgba[4 * pixel + 3] as int;
            let now = processed(rgba, ColorRange::Full, mode)[4 * pixel + c] as int;
            match mode {
                AlphaMode::Straight | AlphaMode::Discard => now == was,
                AlphaMode::Premultiply => is_rounded(now, was * alpha, 255),
                AlphaMode::Demultiply => if alpha == 0 {
                    now == 0
                } else if was >= alpha {
                    now == 255
                } else {
                    is_rounded(now, was * 255, alpha)
                },
            }
        }),
        processed(rgba, ColorRange::Full, mode).len() == rgba.len(),
{
    let was = rgba[4 * pixel + c] as int;
    let alpha = rgba[4 * pixel + 3] as int;
    let i = 4 * pixel + c;
    assert(i % 4 == c && i - i % 4 + 3 == 4 * pixel + 3);
    lemma_with_alpha(was, alpha, mode);
    if mode == AlphaMode::Premultiply {
        let n = was * alpha + 127;
        assert(n / 255 * 255 <= n < n / 255 * 255 + 255);
    } else if mode == AlphaMode::Demultiply && alpha > 0 {
        let n = was * 255 + alpha / 2;
        let q = n / alpha;
        assert(q * alpha <= n < q * alpha + alpha) by (nonlinear_arith)
            requires
                q == n / alpha,
                alpha > 0,
        ;
        if was >= alpha {
            assert(q >= 255) by (nonlinear_arith)
                requires
                    n < q * alpha + alpha,
                    n >= 255 * alpha,
                    alpha > 0,
            ;
        } else {
            assert(q <= 255) by (nonlinear_arith)
                requires
                    q * alpha <= n,
                    n < 256 * alpha,
                    alpha > 0,
            ;
        }
    }
}

} // verus!
