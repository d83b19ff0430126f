//! Choices for encoding: presets, command line values, and names of output files.

use crate::color::{AlphaMode, ColorRange, DitherMode, EncodeOptions, QualityPreset};
use crate::format::HapFormat;
use crate::text::same;
use vstd::prelude::*;

verus! {

/// A named set of encoding options.
#[derive(Debug, Clone, Copy, PartialEq, Eq, Structural)]
pub enum EncoderPreset {
    HapQRecommended,
    HapRUltra,
    HapQAlphaTransparent,
    Hap1Fast,
    HapAlphaLight,
    Custom,
}

impl EncoderPreset {
    /// The title of the preset.
    pub open spec fn title(self) -> Seq<char> {
        match self {
            EncoderPreset::HapQRecommended => "Hap Q"@,
            EncoderPreset::HapRUltra => "Hap R"@,
            EncoderPreset::HapQAlphaTransparent => "Hap Q Alpha"@,
            EncoderPreset::Hap1Fast => "Hap 1"@,
            EncoderPreset::HapAlphaLight => "Hap Alpha"@,
            EncoderPreset::Custom => "Custom"@,
        }
    }

    /// The options that the preset stands for; `Custom` stands for none.
    pub open spec fn options(self) -> Option<EncodeOptions> {
        match self {
            EncoderPreset::HapQRecommended => Some(crate::still::still_options(HapFormat::HapY, true)),
            EncoderPreset::HapRUltra => Some(
                EncodeOptions {
                    chunk_count: 8,
                    ..crate::still::still_options(HapFormat::Hap7, true)
                },
            ),
            EncoderPreset::HapQAlphaTransparent => Some(
                crate::still::still_options(HapFormat::HapM, true),
            ),
            EncoderPreset::Hap1Fast => Some(
                EncodeOptions {
                    alpha_mode: AlphaMode::Discard,
                    quality: QualityPreset::Draft,
                    ..crate::still::still_options(HapFormat::Hap1, false)
                },
            ),
            EncoderPreset::HapAlphaLight => Some(crate::still::still_options(HapFormat::Hap5, true)),
            EncoderPreset::Custom => None,
        }
    }

    /// The title of the preset.
    pub fn name(&self) -> (r: &'static str)
        ensures
            r@ == self.title(),
    {
        match self {
            EncoderPreset::HapQRecommended => "Hap Q",
            EncoderPreset::HapRUltra => "Hap R",
            EncoderPreset::HapQAlphaTransparent => "Hap Q Alpha",
            EncoderPreset::Hap1Fast => "Hap 1",
            EncoderPreset::HapAlphaLight => "Hap Alpha",
            EncoderPreset::Custom => "Custom",
        }
    }

    /// What the preset is for, in a sentence or two.
    pub fn description(&self) -> (r: &'static str)
        ensures
            r@ == match *self {
                EncoderPreset::HapQRecommended => {
                    "Scaled YCoCg-DXT5 with Snappy compression. High color fidelity for video playback."@
                },
                EncoderPreset::HapRUltra => {
                    "BC7 UNORM texture compression. Sharp detail and integrated alpha channel."@
                },
                EncoderPreset::HapQAlphaTransparent => {
                    "Dual-stream YCoCg color + BC4 alpha matte for transparent video."@
                },
                EncoderPreset::Hap1Fast => "DXT1 RGB. Lowest CPU decode overhead."@,
                EncoderPreset::HapAlphaLight => "DXT5 RGBA. Single-stream transparent video."@,
                EncoderPreset::Custom => {
                    "Manual configuration of codec format, chunk count, and compression."@
                },
            },
    {
        match self {
            EncoderPreset::HapQRecommended => {
                "Scaled YCoCg-DXT5 with Snappy compression. High color fidelity for video playback."
            },
            EncoderPreset::HapRUltra => {
                "BC7 UNORM texture compression. Sharp detail and integrated alpha channel."
            },
            EncoderPreset::HapQAlphaTransparent => {
                "Dual-stream YCoCg color + BC4 alpha matte for transparent video."
            },
            EncoderPreset::Hap1Fast => "DXT1 RGB. Lowest CPU decode overhead.",
            EncoderPreset::HapAlphaLight => "DXT5 RGBA. Single-stream transparent video.",
            EncoderPreset::Custom => {
                "Manual configuration of codec format, chunk count, and compression."
            },
        }
    }

    /// The options after the preset was chosen: its own, or for `Custom` those from before.
    pub fn apply(&self, before: EncodeOptions) -> (r: EncodeOptions)
        ensures
            r == match self.options() {
                Some(o) => o,
                None => before,
            },
    {
        let plain = EncodeOptions {
            format: HapFormat::HapY,
            chunk_count: 4,
            use_snappy: true,
            color_range: ColorRange::Full,
            alpha_mode: AlphaMode::Straight,
            dither_mode: DitherMode::Off,
            quality: QualityPreset::Production,
        };
        match self {
            EncoderPreset::HapQRecommended => plain,
            EncoderPreset::HapRUltra => EncodeOptions {
                format: HapFormat::Hap7,
                chunk_count: 8,
                ..plain
            },
            EncoderPreset::HapQAlphaTransparent => EncodeOptions { format: HapFormat::HapM, ..plain },
            EncoderPreset::Hap1Fast => EncodeOptions {
                format: HapFormat::Hap1,
                use_snappy: false,
                alpha_mode: AlphaMode::Discard,
                quality: QualityPreset::Draft,
                ..plain
            },
            EncoderPreset::HapAlphaLight => EncodeOptions { format: HapFormat::Hap5, ..plain },
            EncoderPreset::Custom => before,
        }
    }

    /// The preset after a format was chosen by hand: `Custom` if the format is another than before.
    pub fn after_format(&self, before: HapFormat, format: HapFormat) -> (r: EncoderPreset)
        ensures
            r == if format == before {
                *self
            } else {
                EncoderPreset::Custom
            },
    {
        if format == before {
            *self
        } else {
            EncoderPreset::Custom
        }
    }
}

/// The options of two presets are the same only if the presets are.
pub proof fn law_presets_differ(a: EncoderPreset, b: EncoderPreset)
    requires
        a.options() is Some,
        a.options() == b.options(),
    ensures
        a == b,
{
}

// ---------------------------------------------------------------------------------------------
// Command line values.
// ---------------------------------------------------------------------------------------------

/// The formats of the command line. Hap R goes by two names.
#[derive(Debug, Clone, Copy, PartialEq, Eq, Structural)]
pub enum CliHapFormat {
    Hap1,
    Hap5,
    HapY,
    HapM,
    HapA,
    Hap7,
    HapR,
}

/// The colour ranges of the command line.
#[derive(Debug, Clone, Copy, PartialEq, Eq, Structural)]
pub enum CliColorRange {
    Full,
    Limited,
}

/// The alpha modes of the command line.
#[derive(Debug, Clone, Copy, PartialEq, Eq, Structural)]
pub enum CliAlphaMode {
    Straight,
    Premultiply,
    Demultiply,
    Discard,
}

/// The dither modes of the command line.
#[derive(Debug, Clone, Copy, PartialEq, Eq, Structural)]
pub enum CliDitherMode {
    Off,
    Bayer,
}

/// The qualities of the command line.
#[derive(Debug, Clone, Copy, PartialEq, Eq, Structural)]
pub enum CliQualityPreset {
    Draft,
    Production,
}

impl From<CliHapFormat> for HapFormat {
    fn from(c: CliHapFormat) -> (r: Self) {
        match c {
            CliHapFormat::Hap1 => HapFormat::Hap1,
            CliHapFormat::Hap5 => HapFormat::Hap5,
            CliHapFormat::HapY => HapFormat::HapY,
            CliHapFormat::HapM => HapFormat::HapM,
            CliHapFormat::HapA => HapFormat::HapA,
            CliHapFormat::Hap7 | CliHapFormat::HapR => HapFormat::Hap7,
        }
    }
}

impl vstd::std_specs::convert::FromSpecImpl<CliHapFormat> for HapFormat {
    open spec fn obeys_from_spec() -> bool {
        true
    }

    open spec fn from_spec(c: CliHapFormat) -> HapFormat {
        match c {
            CliHapFormat::Hap1 => HapFormat::Hap1,
            CliHapFormat::Hap5 => HapFormat::Hap5,
            CliHapFormat::HapY => HapFormat::HapY,
            CliHapFormat::HapM => HapFormat::HapM,
            CliHapFormat::HapA => HapFormat::HapA,
            CliHapFormat::Hap7 | CliHapFormat::HapR => HapFormat::Hap7,
        }
    }
}

impl From<CliColorRange> for ColorRange {
    fn from(c: CliColorRange) -> (r: Self) {
        match c {
            CliColorRange::Full => ColorRange::Full,
            CliColorRange::Limited => ColorRange::Limited,
        }
    }
}

impl vstd::std_specs::convert::FromSpecImpl<CliColorRange> for ColorRange {
    open spec fn obeys_from_spec() -> bool {
        true
    }

    open spec fn from_spec(c: CliColorRange) -> ColorRange {
        match c {
            CliColorRange::Full => ColorRange::Full,
            CliColorRange::Limited => ColorRange::Limited,
        }
    }
}

impl From<CliAlphaMode> for AlphaMode {
    fn from(a: CliAlphaMode) -> (r: Self) {
        match a {
            CliAlphaMode::Straight => AlphaMode::Straight,
            CliAlphaMode::Premultiply => AlphaMode::Premultiply,
            CliAlphaMode::Demultiply => AlphaMode::Demultiply,
            CliAlphaMode::Discard => AlphaMode::Discard,
        }
    }
}

impl vstd::std_specs::convert::FromSpecImpl<CliAlphaMode> for AlphaMode {
    open spec fn obeys_from_spec() -> bool {
        true
    }

    open spec fn from_spec(a: CliAlphaMode) -> AlphaMode {
        match a {
            CliAlphaMode::Straight => AlphaMode::Straight,
            CliAlphaMode::Premultiply => AlphaMode::Premultiply,
            CliAlphaMode::Demultiply => AlphaMode::Demultiply,
            CliAlphaMode::Discard => AlphaMode::Discard,
        }
    }
}

impl From<CliDitherMode> for DitherMode {
    fn from(d: CliDitherMode) -> (r: Self) {
        match d {
            CliDitherMode::Off => DitherMode::Off,
            CliDitherMode::Bayer => DitherMode::Bayer4x4,
        }
    }
}

impl vstd::std_specs::convert::FromSpecImpl<CliDitherMode> for DitherMode {
    open spec fn obeys_from_spec() -> bool {
        true
    }

    open spec fn from_spec(d: CliDitherMode) -> DitherMode {
        match d {
            CliDitherMode::Off => DitherMode::Off,
            CliDitherMode::Bayer => DitherMode::Bayer4x4,
        }
    }
}

impl From<CliQualityPreset> for QualityPreset {
    fn from(q: CliQualityPreset) -> (r: Self) {
        match q {
            CliQualityPreset::Draft => QualityPreset::Draft,
            CliQualityPreset::Production => QualityPreset::Production,
        }
    }
}

impl vstd::std_specs::convert::FromSpecImpl<CliQualityPreset> for QualityPreset {
    open spec fn obeys_from_spec() -> bool {
        true
    }

    open spec fn from_spec(q: CliQualityPreset) -> QualityPreset {
        match q {
            CliQualityPreset::Draft => QualityPreset::Draft,
            CliQualityPreset::Production => QualityPreset::Production,
        }
    }
}

// ---------------------------------------------------------------------------------------------
// Names of output files.
// ---------------------------------------------------------------------------------------------

/// What the name of a movie in a format ends in, before its extension.
pub open spec fn suffix(format: HapFormat) -> Seq<char> {
    match format {
        HapFormat::Hap1 => "_Hap1"@,
        HapFormat::Hap5 => "_HapAlpha"@,
        HapFormat::HapY => "_HapQ"@,
        HapFormat::HapM => "_HapQAlpha"@,
        HapFormat::HapA => "_HapAlphaOnly"@,
        HapFormat::Hap7 => "_HapR"@,
        HapFormat::HapH => "_HapHDR"@,
    }
}

/// The name that is suggested for a movie.
pub fn suggested_name(stem: &str, format: HapFormat) -> (r: String)
    ensures
        r@ == stem@ + suffix(format) + ".mov"@,
{
    let end = match format {
        HapFormat::Hap1 => "_Hap1",
        HapFormat::Hap5 => "_HapAlpha",
        HapFormat::HapY => "_HapQ",
        HapFormat::HapM => "_HapQAlpha",
        HapFormat::HapA => "_HapAlphaOnly",
        HapFormat::Hap7 => "_HapR",
        HapFormat::HapH => "_HapHDR",
    };
    let mut out: String = stem.to_owned();
    out.append(end);
    out.append(".mov");
    out
}

/// The text, or the other one if there is none.
pub open spec fn text_or(text: Option<&str>, other: Seq<char>) -> Seq<char> {
    match text {
        Some(t) => t@,
        None => other,
    }
}

/// The text, or the other one if there is none.
fn choose_text<'a>(text: Option<&'a str>, other: &'a str) -> (r: &'a str)
    ensures
        r@ == text_or(text, other@),
{
    match text {
        Some(t) => t,
        None => other,
    }
}

/// Where the movie of an input is written, if there is an input: the folder, and the name of the
/// file in it.
///
/// The movie of a folder is put into it under the folder's name. That of a file is put beside it
/// under the file's name without its extension. An input without such a name makes an `output`,
/// and one without a parent folder is taken to lie in the current one.
pub fn suggested_output(
    has_input: bool,
    is_dir: bool,
    path: &str,
    parent: Option<&str>,
    name: Option<&str>,
    stem: Option<&str>,
    format: HapFormat,
) -> (r: Option<(String, String)>)
    ensures
        r is None <==> !has_input,
        r matches Some((folder, file)) ==> {
            &&& folder@ == if is_dir {
                path@
            } else {
                text_or(parent, "."@)
            }
            &&& file@ == text_or(
                if is_dir {
                    name
                } else {
                    stem
                },
                "output"@,
            ) + suffix(format) + ".mov"@
        },
{
    if !has_input {
        return None;
    }
    let (folder, base): (&str, Option<&str>) = if is_dir {
        (path, name)
    } else {
        (choose_text(parent, "."), stem)
    };
    Some((folder.to_owned(), suggested_name(choose_text(base, "output"), format)))
}

/// The name that is suggested for a converted image.
pub fn converted_name(stem: Option<&str>, ext: &str) -> (r: String)
    ensures
        r@ == match stem {
            Some(s) => s@ + "_converted."@ + ext@,
            None => "converted."@ + ext@,
        },
{
    match stem {
        Some(s) => {
            let mut out: String = s.to_owned();
            out.append("_converted.");
            out.append(ext);
            out
        },
        None => {
            let mut out: String = "converted.".to_owned();
            out.append(ext);
            out
        },
    }
}

/// The label of a file type that an image can be converted to; a movie for an unknown one.
pub open spec fn export_title(ext: Seq<char>) -> Seq<char> {
    if ext == "png"@ {
        "PNG (.png)"@
    } else if ext == "jpg"@ {
        "JPEG (.jpg)"@
    } else if ext == "tiff"@ {
        "TIFF (.tiff)"@
    } else if ext == "webp"@ {
        "WebP (.webp)"@
    } else if ext == "bmp"@ {
        "BMP (.bmp)"@
    } else {
        "HAP MOV (.mov)"@
    }
}

/// The label of a file type that an image can be converted to.
pub fn export_label(ext: &str) -> (r: &'static str)
    ensures
        r@ == export_title(ext@),
{
    if same(ext, "png") {
        "PNG (.png)"
    } else if same(ext, "jpg") {
        "JPEG (.jpg)"
    } else if same(ext, "tiff") {
        "TIFF (.tiff)"
    } else if same(ext, "webp") {
        "WebP (.webp)"
    } else if same(ext, "bmp") {
        "BMP (.bmp)"
    } else {
        "HAP MOV (.mov)"
    }
}

// ---------------------------------------------------------------------------------------------
// Starting a job.
// ---------------------------------------------------------------------------------------------

/// What is known of an input before it is encoded.
#[derive(Debug, Clone, Copy, PartialEq, Eq, Structural)]
pub struct InputFacts {
    pub frames: usize,
    pub width: u32,
    pub height: u32,
}

impl InputFacts {
    /// Whether encoding can be started: there is an input with frames and an output, and no other
    /// job runs.
    pub fn can_start(&self, has_input: bool, has_output: bool, busy: bool) -> (r: bool)
        ensures
            r == (has_input && has_output && self.frames > 0 && !busy),
    {
        has_input && has_output && self.frames > 0 && !busy
    }

    /// The dimensions of a video, if both are known.
    pub fn dimensions(&self) -> (r: Option<(usize, usize)>)
        ensures
            r == if self.width > 0 && self.height > 0 {
                Some((self.width as usize, self.height as usize))
            } else {
                None
            },
    {
        if self.width > 0 && self.height > 0 {
            Some((self.width as usize, self.height as usize))
        } else {
            None
        }
    }

    /// The number of frames, if it is known.
    pub fn total(&self) -> (r: Option<usize>)
        ensures
            r == if self.frames > 0 {
                Some(self.frames)
            } else {
                None
            },
    {
        if self.frames > 0 {
            Some(self.frames)
        } else {
            None
        }
    }
}

/// The number of frames that a job expects: at least one.
pub fn expected_frames(known: Option<usize>, probed: usize) -> (r: usize)
    ensures
        r == match known {
            Some(n) => n,
            None => if probed < 1 {
                1
            } else {
                probed
            },
        },
{
    match known {
        Some(n) => n,
        None => if probed < 1 {
            1
        } else {
            probed
        },
    }
}

/// What the presets have in common, and where they differ: all keep the full range and do not
/// dither; all but Hap 1 compress with Snappy, keep the alpha channel and are of the best quality;
/// Hap R has eight chunks and the others four. Each has the format of its title.
pub proof fn law_preset_options(p: EncoderPreset)
    ensures
        p.options() is None <==> p == EncoderPreset::Custom,
        p.options() matches Some(o) ==> {
            let fast = o.format == HapFormat::Hap1;
            &&& o.color_range == ColorRange::Full && o.dither_mode == DitherMode::Off
            &&& o.use_snappy == !fast
            &&& o.alpha_mode == if fast {
                AlphaMode::Discard
            } else {
                AlphaMode::Straight
            }
            &&& o.quality == if fast {
                QualityPreset::Draft
            } else {
                QualityPreset::Production
            }
            &&& o.chunk_count == if o.format == HapFormat::Hap7 {
                8int
            } else {
                4
            }
            &&& p == EncoderPreset::HapQRecommended <==> o.format == HapFormat::HapY
            &&& p == EncoderPreset::HapRUltra <==> o.format == HapFormat::Hap7
            &&& p == EncoderPreset::HapQAlphaTransparent <==> o.format == HapFormat::HapM
            &&& p == EncoderPreset::Hap1Fast <==> o.format == HapFormat::Hap1
            &&& p == EncoderPreset::HapAlphaLight <==> o.format == HapFormat::Hap5
        },
{
}

/// The names of movies in two formats differ in what they end in.
pub proof fn law_suffixes_differ(f: HapFormat, g: HapFormat)
    requires
        suffix(f) == suffix(g),
    ensures
        f == g,
        suffix(f).len() > 4,
        suffix(f).subrange(0, 4) == seq!['_', 'H', 'a', 'p'],
{
    reveal_strlit("_Hap1");
    reveal_strlit("_HapAlpha");
    reveal_strlit("_HapQ");
    reveal_strlit("_HapQAlpha");
    reveal_strlit("_HapAlphaOnly");
    reveal_strlit("_HapR");
    reveal_strlit("_HapHDR");
    let s = suffix(f);
    let t = suffix(g);
    assert(s.len() == t.len() && s[4] == t[4]);
    assert(s.subrange(0, 4) =~= seq!['_', 'H', 'a', 'p']);
}

} // verus!
