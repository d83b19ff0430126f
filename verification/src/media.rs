//! Media files: which kinds there are, how one is opened, and what a probe of a video tells.

use crate::single::Single;
use crate::text::{
    find, from_chars, parse_number, same, same_ignoring_case, split, to_chars, to_lower, to_upper,
    trim,
};
use vstd::prelude::*;
use vstd::slice::slice_subrange;

verus! {

// ---------------------------------------------------------------------------------------------
// Kinds of files.
// ---------------------------------------------------------------------------------------------

/// Where the last dot of a name is; -1 if it has none.
pub open spec fn last_dot(name: Seq<char>) -> int
    decreases name.len(),
{
    if name.len() == 0 {
        -1
    } else if name.last() == '.' {
        name.len() - 1
    } else {
        last_dot(name.drop_last())
    }
}

/// The extension of a file name: what follows its last dot, unless the name has no dot but one at
/// its start, or is two dots.
pub open spec fn extension(name: Seq<char>) -> Option<Seq<char>> {
    let d = last_dot(name);
    if d <= 0 || name == seq!['.', '.'] {
        None
    } else {
        Some(name.subrange(d + 1, name.len() as int))
    }
}

/// The extension of a file name.
pub fn extension_of(name: &[char]) -> (r: Option<&[char]>)
    ensures
        match r {
            Some(e) => extension(name@) == Some(e@),
            None => extension(name@) is None,
        },
{
    let mut i: usize = name.len();
    assert(name@.subrange(0, name@.len() as int) =~= name@);
    while i > 0 && name[i - 1] != '.'
        invariant
            i <= name@.len(),
            last_dot(name@) == last_dot(name@.subrange(0, i as int)),
        decreases i,
    {
        assert(name@.subrange(0, i as int).drop_last() =~= name@.subrange(0, i - 1));
        i = i - 1;
    }
    assert(last_dot(name@) == i - 1);
    if i <= 1 {
        return None;
    }
    if name.len() == 2 && name[0] == '.' && name[1] == '.' {
        assert(name@ =~= seq!['.', '.']);
        return None;
    }
    Some(slice_subrange(name, i, name.len()))
}

/// The extensions of video containers, in small letters.
pub open spec fn video_extension(e: Seq<char>) -> bool {
    ||| e == "mp4"@
    ||| e == "mkv"@
    ||| e == "avi"@
    ||| e == "mov"@
    ||| e == "m4v"@
    ||| e == "webm"@
    ||| e == "prores"@
    ||| e == "mxf"@
    ||| e == "ts"@
    ||| e == "wmv"@
    ||| e == "flv"@
}

/// The extensions of the images that sequences are made of, in small letters.
pub open spec fn sequence_extension(e: Seq<char>) -> bool {
    ||| e == "png"@
    ||| e == "jpg"@
    ||| e == "jpeg"@
    ||| e == "tiff"@
    ||| e == "tif"@
    ||| e == "bmp"@
    ||| e == "webp"@
}

/// The extensions of still images, in small letters.
pub open spec fn image_extension(e: Seq<char>) -> bool {
    sequence_extension(e) || e == "tga"@
}

/// Whether an extension, in small letters, is that of a video container.
pub fn is_video_extension(e: &str) -> (r: bool)
    ensures
        r == video_extension(e@),
{
    same(e, "mp4") || same(e, "mkv") || same(e, "avi") || same(e, "mov") || same(e, "m4v") || same(
        e,
        "webm",
    ) || same(e, "prores") || same(e, "mxf") || same(e, "ts") || same(e, "wmv") || same(e, "flv")
}

/// Whether an extension, in small letters, is that of an image of a sequence.
pub fn is_sequence_extension(e: &str) -> (r: bool)
    ensures
        r == sequence_extension(e@),
{
    same(e, "png") || same(e, "jpg") || same(e, "jpeg") || same(e, "tiff") || same(e, "tif") || same(
        e,
        "bmp",
    ) || same(e, "webp")
}

/// Whether an extension, in small letters, is that of a still image.
pub fn is_image_extension(e: &str) -> (r: bool)
    ensures
        r == image_extension(e@),
{
    is_sequence_extension(e) || same(e, "tga")
}

/// The extension of a file name in small letters, if it is one of ASCII characters alone.
pub open spec fn ascii_extension(name: Seq<char>) -> Option<Seq<char>> {
    match extension(name) {
        Some(e) => if vstd::utf8::is_ascii_chars(e) {
            Some(crate::text::ascii_lower(e))
        } else {
            None
        },
        None => None,
    }
}

/// The extension of a file name in small letters.
fn lowered_extension(name: &str) -> (r: Option<String>)
    ensures
        match r {
            Some(e) => extension(name@) is Some && e@ == crate::text::lowercase(
                extension(name@)->0,
            ) && (vstd::utf8::is_ascii_chars(extension(name@)->0) ==> e@ == crate::text::ascii_lower(
                extension(name@)->0,
            )),
            None => extension(name@) is None,
        },
{
    let chars = to_chars(name);
    match extension_of(chars.as_slice()) {
        Some(e) => Some(to_lower(from_chars(e).as_str())),
        None => None,
    }
}

/// Whether a file name is that of a video container.
pub fn is_video_container(name: &str) -> (r: bool)
    ensures
        r == (extension(name@) matches Some(e) && video_extension(crate::text::lowercase(e))),
        ascii_extension(name@) matches Some(e) ==> r == video_extension(e),
{
    match lowered_extension(name) {
        Some(e) => is_video_extension(e.as_str()),
        None => false,
    }
}

/// Whether a file name is that of a still image.
pub fn is_image_file(name: &str) -> (r: bool)
    ensures
        r == (extension(name@) matches Some(e) && image_extension(crate::text::lowercase(e))),
        ascii_extension(name@) matches Some(e) ==> r == image_extension(e),
{
    match lowered_extension(name) {
        Some(e) => is_image_extension(e.as_str()),
        None => false,
    }
}

/// Whether a file name is that of an image of a sequence.
pub fn is_sequence_image(name: &str) -> (r: bool)
    ensures
        r == (extension(name@) matches Some(e) && sequence_extension(crate::text::lowercase(e))),
        ascii_extension(name@) matches Some(e) ==> r == sequence_extension(e),
{
    match lowered_extension(name) {
        Some(e) => is_sequence_extension(e.as_str()),
        None => false,
    }
}

/// A file name is that of a QuickTime movie.
pub open spec fn movie_name(name: Seq<char>) -> bool {
    extension(name) matches Some(e) && crate::text::alike(e, "mov"@)
}

/// Whether a file name is that of a QuickTime movie.
pub fn is_movie_file(name: &str) -> (r: bool)
    ensures
        r == movie_name(name@),
{
    let chars = to_chars(name);
    let mov = to_chars("mov");
    match extension_of(chars.as_slice()) {
        Some(e) => same_ignoring_case(e, mov.as_slice()),
        None => false,
    }
}

/// The extensions of files without transparency.
pub open spec fn opaque_extension(e: Seq<char>) -> bool {
    e == "jpg"@ || e == "jpeg"@
}

/// Whether files with this extension, in small letters, are saved without transparency.
pub fn is_opaque_extension(e: &str) -> (r: bool)
    ensures
        r == opaque_extension(e@),
{
    same(e, "jpg") || same(e, "jpeg")
}

/// Whether a file is saved without transparency.
pub fn saves_opaque(name: &str) -> (r: bool)
    ensures
        r == (extension(name@) matches Some(e) && opaque_extension(crate::text::lowercase(e))),
        ascii_extension(name@) matches Some(e) ==> r == opaque_extension(e),
{
    match lowered_extension(name) {
        Some(e) => is_opaque_extension(e.as_str()),
        None => false,
    }
}

// ---------------------------------------------------------------------------------------------
// Opening a file.
// ---------------------------------------------------------------------------------------------

/// What the name of a file lets expect.
#[derive(Debug, Clone, Copy, PartialEq, Eq, Structural)]
pub struct MediaKind {
    pub image: bool,
    pub movie: bool,
    pub video: bool,
}

/// What the name of a file lets expect.
pub fn media_kind(name: &str) -> (r: MediaKind)
    ensures
        r.image == (extension(name@) matches Some(e) && image_extension(crate::text::lowercase(e))),
        r.movie == movie_name(name@),
        r.video == (extension(name@) matches Some(e) && video_extension(crate::text::lowercase(e))),
        ascii_extension(name@) matches Some(e) ==> r.image == image_extension(e) && r.video
            == video_extension(e),
{
    MediaKind {
        image: is_image_file(name),
        movie: is_movie_file(name),
        video: is_video_container(name),
    }
}

/// A way to open a file or directory.
#[derive(Debug, Clone, Copy, PartialEq, Eq, Structural)]
pub enum LoadStep {
    /// List the images of a directory.
    ListDirectory,
    /// Decode the file as an image.
    DecodeImage,
    /// Read the file as a HAP movie.
    OpenMovie,
    /// Probe the file as a video.
    ProbeVideo,
    /// Decode the file as an image though its name does not say so.
    GuessImage,
}

/// How opening a file ends.
#[derive(Debug, Clone, Copy, PartialEq, Eq, Structural)]
pub enum LoadEnd {
    Sequence,
    StillImage,
    HapVideo,
    GenericVideo,
    BadImage,
    BadVideo,
    Unrecognized,
}

/// What is done next about a file.
#[derive(Debug, Clone, Copy, PartialEq, Eq, Structural)]
pub enum LoadAction {
    Attempt(LoadStep),
    End(LoadEnd),
}

/// What is done about a file that is no readable directory.
pub open spec fn for_file(kind: MediaKind) -> LoadAction {
    if kind.image {
        LoadAction::Attempt(LoadStep::DecodeImage)
    } else if kind.movie {
        LoadAction::Attempt(LoadStep::OpenMovie)
    } else {
        for_foreign(kind)
    }
}

/// What is done about a file that is neither an image nor a HAP movie.
pub open spec fn for_foreign(kind: MediaKind) -> LoadAction {
    if kind.video {
        LoadAction::Attempt(LoadStep::ProbeVideo)
    } else {
        LoadAction::Attempt(LoadStep::GuessImage)
    }
}

/// What is done first.
pub open spec fn load_start(is_dir: bool, kind: MediaKind) -> LoadAction {
    if is_dir {
        LoadAction::Attempt(LoadStep::ListDirectory)
    } else {
        for_file(kind)
    }
}

/// What is done after a way to open the file has worked or not.
pub open spec fn load_after(step: LoadStep, worked: bool, kind: MediaKind) -> LoadAction {
    match (step, worked) {
        (LoadStep::ListDirectory, true) => LoadAction::End(LoadEnd::Sequence),
        (LoadStep::ListDirectory, false) => for_file(kind),
        (LoadStep::DecodeImage, true) => LoadAction::End(LoadEnd::StillImage),
        (LoadStep::DecodeImage, false) => LoadAction::End(LoadEnd::BadImage),
        (LoadStep::OpenMovie, true) => LoadAction::End(LoadEnd::HapVideo),
        (LoadStep::OpenMovie, false) => for_foreign(kind),
        (LoadStep::ProbeVideo, true) => LoadAction::End(LoadEnd::GenericVideo),
        (LoadStep::ProbeVideo, false) => LoadAction::End(LoadEnd::BadVideo),
        (LoadStep::GuessImage, true) => LoadAction::End(LoadEnd::StillImage),
        (LoadStep::GuessImage, false) => LoadAction::End(LoadEnd::Unrecognized),
    }
}

fn file_action(kind: MediaKind) -> (r: LoadAction)
    ensures
        r == for_file(kind),
{
    if kind.image {
        LoadAction::Attempt(LoadStep::DecodeImage)
    } else if kind.movie {
        LoadAction::Attempt(LoadStep::OpenMovie)
    } else {
        foreign_action(kind)
    }
}

fn foreign_action(kind: MediaKind) -> (r: LoadAction)
    ensures
        r == for_foreign(kind),
{
    if kind.video {
        LoadAction::Attempt(LoadStep::ProbeVideo)
    } else {
        LoadAction::Attempt(LoadStep::GuessImage)
    }
}

/// What is done first to open a file or directory.
pub fn first_action(is_dir: bool, kind: MediaKind) -> (r: LoadAction)
    ensures
        r == load_start(is_dir, kind),
{
    if is_dir {
        LoadAction::Attempt(LoadStep::ListDirectory)
    } else {
        file_action(kind)
    }
}

/// What is done after a way to open the file has worked or not.
pub fn next_action(step: LoadStep, worked: bool, kind: MediaKind) -> (r: LoadAction)
    ensures
        r == load_after(step, worked, kind),
{
    match step {
        LoadStep::ListDirectory => if worked {
            LoadAction::End(LoadEnd::Sequence)
        } else {
            file_action(kind)
        },
        LoadStep::DecodeImage => if worked {
            LoadAction::End(LoadEnd::StillImage)
        } else {
            LoadAction::End(LoadEnd::BadImage)
        },
        LoadStep::OpenMovie => if worked {
            LoadAction::End(LoadEnd::HapVideo)
        } else {
            foreign_action(kind)
        },
        LoadStep::ProbeVideo => if worked {
            LoadAction::End(LoadEnd::GenericVideo)
        } else {
            LoadAction::End(LoadEnd::BadVideo)
        },
        LoadStep::GuessImage => if worked {
            LoadAction::End(LoadEnd::StillImage)
        } else {
            LoadAction::End(LoadEnd::Unrecognized)
        },
    }
}

/// How many ways to open the file are left.
pub open spec fn ways_left(action: LoadAction) -> nat {
    match action {
        LoadAction::Attempt(LoadStep::ListDirectory) => 3,
        LoadAction::Attempt(LoadStep::OpenMovie) => 2,
        LoadAction::Attempt(_) => 1,
        LoadAction::End(_) => 0,
    }
}

/// How opening ends when each way to open the file works or not as `works` says.
pub open spec fn load_end(action: LoadAction, works: spec_fn(LoadStep) -> bool, kind: MediaKind) -> LoadEnd
    decreases ways_left(action),
{
    match action {
        LoadAction::Attempt(step) => load_end(load_after(step, works(step), kind), works, kind),
        LoadAction::End(end) => end,
    }
}

/// Opening a file ends: after each attempt fewer ways are left.
pub proof fn law_load_ends(step: LoadStep, worked: bool, kind: MediaKind)
    ensures
        ways_left(load_after(step, worked, kind)) < ways_left(LoadAction::Attempt(step)),
{
}

/// A file that is named like a movie but is not a HAP movie is treated as a video; every file that
/// is neither named like an image, like a movie nor like a video is still tried as an image.
pub proof fn law_load_falls_back(works: spec_fn(LoadStep) -> bool, kind: MediaKind)
    requires
        !kind.image,
        kind.movie ==> !works(LoadStep::OpenMovie),
    ensures
        load_end(load_start(false, kind), works, kind) == if kind.video {
            if works(LoadStep::ProbeVideo) {
                LoadEnd::GenericVideo
            } else {
                LoadEnd::BadVideo
            }
        } else if works(LoadStep::GuessImage) {
            LoadEnd::StillImage
        } else {
            LoadEnd::Unrecognized
        },
{
    reveal_with_fuel(load_end, 4);
}

/// What is said of a failure, given the words of the part that failed.
pub open spec fn failure_words(end: LoadEnd, detail: Seq<char>) -> Option<Seq<char>> {
    match end {
        LoadEnd::BadImage => Some("Failed to decode image: "@ + detail),
        LoadEnd::BadVideo => Some("Unable to parse video stream: "@ + detail),
        LoadEnd::Unrecognized => Some("Unrecognized or unsupported media format"@),
        _ => None,
    }
}

impl LoadEnd {
    /// What is said of a failure, given the words of the part that failed.
    pub fn failure(&self, detail: &str) -> (r: Option<String>)
        ensures
            match r {
                Some(m) => failure_words(*self, detail@) == Some(m@),
                None => failure_words(*self, detail@) is None,
            },
    {
        match self {
            LoadEnd::BadImage => {
                let mut m: String = "Failed to decode image: ".to_owned();
                m.append(detail);
                Some(m)
            },
            LoadEnd::BadVideo => {
                let mut m: String = "Unable to parse video stream: ".to_owned();
                m.append(detail);
                Some(m)
            },
            LoadEnd::Unrecognized => Some("Unrecognized or unsupported media format".to_owned()),
            _ => None,
        }
    }
}

// ---------------------------------------------------------------------------------------------
// Probing a video.
// ---------------------------------------------------------------------------------------------

/// Why the answer of a probe could not be understood.
#[derive(Debug, Clone, Copy, PartialEq, Eq, Structural)]
pub enum ProbeFault {
    Incomplete,
    InvalidWidth,
    InvalidHeight,
}

impl ProbeFault {
    /// The fault in words. A probe that asks for the codec speaks of metadata, the others of
    /// dimensions.
    pub fn message(&self, with_codec: bool) -> (r: &'static str)
        ensures
            r@ == match *self {
                ProbeFault::Incomplete => if with_codec {
                    "Could not parse video metadata from ffprobe output."@
                } else {
                    "Could not parse video stream dimensions from ffprobe output."@
                },
                ProbeFault::InvalidWidth => "Invalid width"@,
                ProbeFault::InvalidHeight => "Invalid height"@,
            },
    {
        match self {
            ProbeFault::Incomplete => if with_codec {
                "Could not parse video metadata from ffprobe output."
            } else {
                "Could not parse video stream dimensions from ffprobe output."
            },
            ProbeFault::InvalidWidth => "Invalid width",
            ProbeFault::InvalidHeight => "Invalid height",
        }
    }
}

/// The answer of a probe. Rates and durations are still numerals.
#[derive(Debug)]
pub struct ProbeAnswer {
    /// The codec's own name; empty if it was not asked for.
    pub codec: String,
    pub width: usize,
    pub height: usize,
    /// The frame rate, or its numerator.
    pub rate: String,
    /// The denominator of the frame rate.
    pub rate_divisor: Option<String>,
    pub duration: Option<String>,
    /// The number of frames, if it was given.
    pub frames: Option<usize>,
}

/// The answer of a probe, with its texts as characters.
pub struct ProbeReading {
    pub codec: Seq<char>,
    pub width: int,
    pub height: int,
    pub rate: Seq<char>,
    pub rate_divisor: Option<Seq<char>>,
    pub duration: Option<Seq<char>>,
    pub frames: Option<int>,
}

impl View for ProbeAnswer {
    type V = ProbeReading;

    open spec fn view(&self) -> ProbeReading {
        ProbeReading {
            codec: self.codec@,
            width: self.width as int,
            height: self.height as int,
            rate: self.rate@,
            rate_divisor: match self.rate_divisor {
                Some(d) => Some(d@),
                None => None,
            },
            duration: match self.duration {
                Some(d) => Some(d@),
                None => None,
            },
            frames: match self.frames {
                Some(n) => Some(n as int),
                None => None,
            },
        }
    }
}

/// Field `i` of a probe's answer.
pub open spec fn field(text: Seq<char>, i: int) -> Option<Seq<char>> {
    let p = crate::text::pieces(crate::text::trimmed(text), ',');
    if i < p.len() {
        Some(crate::text::trimmed(p[i]))
    } else {
        None
    }
}

/// The answer of a probe: the codec, if asked for, the width, the height and the frame rate, and
/// as far as they are there the duration and the number of frames, with commas between them.
pub open spec fn probe_reading(text: Seq<char>, with_codec: bool) -> Result<
    ProbeReading,
    ProbeFault,
> {
    let k = if with_codec {
        1int
    } else {
        0int
    };
    match (field(text, k), field(text, k + 1), field(text, k + 2)) {
        (Some(w), Some(h), Some(rate)) => {
            let cut = crate::text::place(rate, '/');
            match (crate::text::number(w), crate::text::number(h)) {
                (None, _) => Err(ProbeFault::InvalidWidth),
                (_, None) => Err(ProbeFault::InvalidHeight),
                (Some(width), Some(height)) => Ok(
                    ProbeReading {
                        codec: if with_codec {
                            field(text, 0)->0
                        } else {
                            Seq::empty()
                        },
                        width,
                        height,
                        rate: if cut < rate.len() {
                            rate.subrange(0, cut)
                        } else {
                            rate
                        },
                        rate_divisor: if cut < rate.len() {
                            Some(rate.subrange(cut + 1, rate.len() as int))
                        } else {
                            None
                        },
                        duration: field(text, k + 3),
                        frames: match field(text, k + 4) {
                            Some(n) => crate::text::number(n),
                            None => None,
                        },
                    },
                ),
            }
        },
        _ => Err(ProbeFault::Incomplete),
    }
}

/// Understands the answer of a probe.
pub fn read_probe(text: &str, with_codec: bool) -> (r: Result<ProbeAnswer, ProbeFault>)
    ensures
        match r {
            Ok(a) => probe_reading(text@, with_codec) == Ok::<ProbeReading, ProbeFault>(a@),
            Err(e) => probe_reading(text@, with_codec) == Err::<ProbeReading, ProbeFault>(e),
        },
{
    let chars = to_chars(text);
    let parts = split(trim(chars.as_slice()), ',');
    let ghost p = crate::text::pieces(crate::text::trimmed(text@), ',');
    assert(p == crate::text::views(parts@));
    let k: usize = if with_codec {
        1
    } else {
        0
    };
    if parts.len() < k + 3 {
        return Err(ProbeFault::Incomplete);
    }
    assert(p[0] == parts@[0]@ && p[k as int] == parts@[k as int]@ && p[k + 1] == parts@[k + 1]@ && p[k
        + 2] == parts@[k + 2]@);
    let width: usize = match parse_number(trim(parts[k].as_slice())) {
        Some(n) => n,
        None => return Err(ProbeFault::InvalidWidth),
    };
    let height: usize = match parse_number(trim(parts[k + 1].as_slice())) {
        Some(n) => n,
        None => return Err(ProbeFault::InvalidHeight),
    };
    let codec: String = if with_codec {
        from_chars(trim(parts[0].as_slice()))
    } else {
        String::new()
    };
    let rate_text = trim(parts[k + 2].as_slice());
    let cut: usize = find(rate_text, '/');
    let rate: String = from_chars(slice_subrange(rate_text, 0, cut));
    assert(rate_text@.subrange(0, rate_text@.len() as int) =~= rate_text@);
    let rate_divisor: Option<String> = if cut < rate_text.len() {
        Some(from_chars(slice_subrange(rate_text, cut + 1, rate_text.len())))
    } else {
        None
    };
    let duration: Option<String> = if parts.len() > k + 3 {
        assert(p[k + 3] == parts@[k + 3]@);
        Some(from_chars(trim(parts[k + 3].as_slice())))
    } else {
        None
    };
    let frames: Option<usize> = if parts.len() > k + 4 {
        assert(p[k + 4] == parts@[k + 4]@);
        parse_number(trim(parts[k + 4].as_slice()))
    } else {
        None
    };
    let answer = ProbeAnswer { codec, width, height, rate, rate_divisor, duration, frames };
    assert(answer.codec@ =~= (probe_reading(text@, with_codec)->Ok_0).codec);
    Ok(answer)
}

/// The title of a codec whose name, in small letters, is well known; that of a codec without a
/// name is `Video`.
pub open spec fn known_codec(name: Seq<char>) -> Option<Seq<char>> {
    if name == "h264"@ || name == "avc1"@ {
        Some("H.264 / AVC"@)
    } else if name == "hevc"@ || name == "h265"@ || name == "hev1"@ {
        Some("H.265 / HEVC"@)
    } else if name == "av1"@ || name == "av01"@ {
        Some("AV1"@)
    } else if name == "prores"@ {
        Some("Apple ProRes"@)
    } else if name == "vp9"@ {
        Some("VP9"@)
    } else if name == "vp8"@ {
        Some("VP8"@)
    } else if name == "dnxhd"@ || name == "dnxhr"@ {
        Some("Avid DNxHD/HR"@)
    } else if name.len() == 0 {
        Some("Video"@)
    } else {
        None
    }
}

/// The title of a codec whose name, in small letters, is well known.
pub fn codec_title(name: &str) -> (r: Option<&'static str>)
    ensures
        match r {
            Some(t) => known_codec(name@) == Some(t@),
            None => known_codec(name@) is None,
        },
{
    proof {
        reveal_strlit("");
    }
    if same(name, "h264") || same(name, "avc1") {
        Some("H.264 / AVC")
    } else if same(name, "hevc") || same(name, "h265") || same(name, "hev1") {
        Some("H.265 / HEVC")
    } else if same(name, "av1") || same(name, "av01") {
        Some("AV1")
    } else if same(name, "prores") {
        Some("Apple ProRes")
    } else if same(name, "vp9") {
        Some("VP9")
    } else if same(name, "vp8") {
        Some("VP8")
    } else if same(name, "dnxhd") || same(name, "dnxhr") {
        Some("Avid DNxHD/HR")
    } else if same(name, "") {
        assert(name@.len() == 0);
        Some("Video")
    } else {
        assert(name@.len() == 0 ==> name@ =~= ""@);
        None
    }
}

/// The title of a codec: the known one, else its name in capitals.
pub open spec fn codec_words(name: Seq<char>) -> Seq<char> {
    let small = crate::text::lowercase(name);
    match known_codec(small) {
        Some(t) => t,
        None => crate::text::uppercase(small),
    }
}

/// The title of a codec: the known one, else its name in capitals.
pub fn codec_name(name: &str) -> (r: String)
    ensures
        r@ == codec_words(name@),
        vstd::utf8::is_ascii_chars(name@) ==> r@ == match known_codec(
            crate::text::ascii_lower(name@),
        ) {
            Some(t) => t,
            None => crate::text::ascii_upper(name@),
        },
{
    let small = to_lower(name);
    assert(vstd::utf8::is_ascii_chars(name@) ==> vstd::utf8::is_ascii_chars(small@)
        && crate::text::ascii_upper(small@) =~= crate::text::ascii_upper(name@));
    match codec_title(small.as_str()) {
        Some(t) => t.to_owned(),
        None => to_upper(small.as_str()),
    }
}

/// A value, or another where there is none.
pub open spec fn or_else(v: Option<Single>, other: int) -> Single {
    match v {
        Some(s) => s,
        None => crate::single::whole_number(other),
    }
}

/// The frame rate of a probe. Numerals that are no numbers count as 30 frames, or as a
/// denominator of 1; a denominator that is not positive leaves 30 frames.
pub open spec fn probed_rate(rate: Option<Single>, divided: bool, divisor: Option<Single>) -> Single {
    if !divided {
        or_else(rate, 30)
    } else if crate::single::less(crate::single::whole_number(0), or_else(divisor, 1)) {
        crate::single::quotient(or_else(rate, 30), or_else(divisor, 1))
    } else {
        crate::single::whole_number(30)
    }
}

fn value_or(v: Option<Single>, other: u32) -> (r: Single)
    requires
        v matches Some(s) ==> s.wf(),
    ensures
        r == or_else(v, other as int),
        r.wf(),
{
    match v {
        Some(s) => s,
        None => Single::from_u32(other),
    }
}

/// The frame rate of a probe, given the values of its numerals.
pub fn probe_rate(rate: Option<Single>, divided: bool, divisor: Option<Single>) -> (r: Single)
    requires
        rate matches Some(s) ==> s.wf(),
        divisor matches Some(s) ==> s.wf(),
    ensures
        r == probed_rate(rate, divided, divisor),
        r.wf(),
{
    if !divided {
        return value_or(rate, 30);
    }
    let d = value_or(divisor, 1);
    if Single::from_u32(0).lt(d) {
        value_or(rate, 30).over(d)
    } else {
        Single::from_u32(30)
    }
}

/// The number of frames of a video: as given, else those that its duration has room for.
pub open spec fn probed_frames(given: Option<int>, duration: Single, fps: Single) -> int {
    match given {
        Some(n) => n,
        None => if crate::single::less(crate::single::whole_number(0), duration)
            && crate::single::less(crate::single::whole_number(0), fps) {
            crate::single::nearest_within(
                crate::single::product(duration, fps),
                0,
                usize::MAX as int,
            )
        } else {
            0
        },
    }
}

/// The nearest integer that the machine can hold.
fn round_usize(a: Single) -> (r: usize)
    requires
        a.wf(),
    ensures
        r == crate::single::nearest_within(a, 0, usize::MAX as int),
{
    let n: u64 = a.round_u64();
    proof {
        reveal(crate::single::nearest_within);
        assert(usize::MAX <= u64::MAX);
    }
    if n > usize::MAX as u64 {
        usize::MAX
    } else {
        n as usize
    }
}

/// The number of frames of a video: as given, else those that its duration has room for.
pub fn probe_frames(given: Option<usize>, duration: Single, fps: Single) -> (r: usize)
    requires
        duration.wf(),
        fps.wf(),
    ensures
        r == probed_frames(
            match given {
                Some(n) => Some(n as int),
                None => None,
            },
            duration,
            fps,
        ),
{
    match given {
        Some(n) => n,
        None => if Single::from_u32(0).lt(duration) && Single::from_u32(0).lt(fps) {
            round_usize(duration.times(fps))
        } else {
            0
        },
    }
}

/// The height of the preview of a large video that is `w` wide there: that of its own aspect
/// ratio, made even, at least 2.
pub open spec fn preview_height(w: int, width: int, height: int) -> int {
    let tall = if height < 1 {
        1
    } else {
        height
    };
    let aspect = crate::single::quotient(
        crate::single::whole_number(width),
        crate::single::whole_number(tall),
    );
    let h = crate::single::nearest_within(
        crate::single::quotient(crate::single::whole_number(w), aspect),
        0,
        usize::MAX as int,
    );
    if h / 2 * 2 < 2 {
        2
    } else {
        h / 2 * 2
    }
}

/// The size of the preview of a video: its own, or for one larger than 1920 by 1080 at most 1920
/// wide.
pub open spec fn preview_size(width: int, height: int) -> (int, int) {
    if width > 1920 || height > 1080 {
        let w = if width < 1920 {
            width
        } else {
            1920
        };
        (w, preview_height(w, width, height))
    } else {
        (width, height)
    }
}

/// The size of the preview of a video.
pub fn play_size(width: usize, height: usize) -> (r: (usize, usize))
    ensures
        (r.0 as int, r.1 as int) == preview_size(width as int, height as int),
{
    if width > 1920 || height > 1080 {
        let tall: usize = if height < 1 {
            1
        } else {
            height
        };
        let aspect = Single::from_u64(width as u64).over(Single::from_u64(tall as u64));
        let w: usize = if width < 1920 {
            width
        } else {
            1920
        };
        let h: usize = round_usize(Single::from_u64(w as u64).over(aspect)) / 2 * 2;
        (w, if h < 2 {
            2
        } else {
            h
        })
    } else {
        (width, height)
    }
}

// ---------------------------------------------------------------------------------------------
// Laws.
// ---------------------------------------------------------------------------------------------

/// The extension is what follows the last dot, where something stands before that dot; a name
/// without a dot has none, nor has one whose only dot is at its start.
pub proof fn law_extension(stem: Seq<char>, ext: Seq<char>)
    requires
        !ext.contains('.'),
    ensures
        stem.len() > 0 && stem + seq!['.'] + ext != seq!['.', '.'] ==> extension(
            stem + seq!['.'] + ext,
        ) == Some(ext),
        extension(ext) is None,
        extension(seq!['.'] + ext) is None,
        extension(seq!['.', '.']) is None,
{
    lemma_last_dot(stem, ext);
    lemma_last_dot(Seq::empty(), ext);
    assert(Seq::<char>::empty() + seq!['.'] + ext =~= seq!['.'] + ext);
    let name = stem + seq!['.'] + ext;
    assert(name.subrange(stem.len() as int + 1, name.len() as int) =~= ext);
}

proof fn lemma_last_dot(stem: Seq<char>, ext: Seq<char>)
    requires
        !ext.contains('.'),
    ensures
        last_dot(stem + seq!['.'] + ext) == stem.len(),
        last_dot(ext) == -1,
    decreases ext.len(),
{
    let name = stem + seq!['.'] + ext;
    if ext.len() > 0 {
        assert(ext.contains(ext.last()));
        assert forall|c: char| ext.drop_last().contains(c) implies ext.contains(c) by {
            let i = choose|i: int| 0 <= i < ext.len() - 1 && ext.drop_last()[i] == c;
            assert(ext[i] == c);
        }
        lemma_last_dot(stem, ext.drop_last());
        assert(name.drop_last() =~= stem + seq!['.'] + ext.drop_last());
        assert(name.last() == ext.last());
    } else {
        assert(name.last() == '.');
    }
}

/// How opening ends, for every kind of file. A directory whose images can be listed is a sequence,
/// and any other is treated as a file. A file named like an image is an image or nothing. One named
/// like a movie is tried as a HAP movie first.
pub proof fn law_load_outcomes(is_dir: bool, works: spec_fn(LoadStep) -> bool, kind: MediaKind)
    ensures
        ({
            let end = load_end(load_start(is_dir, kind), works, kind);
            let listed = is_dir && works(LoadStep::ListDirectory);
            &&& end == LoadEnd::Sequence <==> listed
            &&& !listed && kind.image ==> end == if works(LoadStep::DecodeImage) {
                LoadEnd::StillImage
            } else {
                LoadEnd::BadImage
            }
            &&& end == LoadEnd::HapVideo <==> !listed && !kind.image && kind.movie && works(
                LoadStep::OpenMovie,
            )
            &&& end == LoadEnd::GenericVideo ==> kind.video && works(LoadStep::ProbeVideo)
            &&& end == LoadEnd::BadVideo ==> kind.video && !works(LoadStep::ProbeVideo)
            &&& end == LoadEnd::Unrecognized ==> !kind.image && !kind.video && !works(
                LoadStep::GuessImage,
            )
            &&& failure_words(end, Seq::empty()) is None <==> end == LoadEnd::Sequence || end
                == LoadEnd::StillImage || end == LoadEnd::HapVideo || end == LoadEnd::GenericVideo
        }),
{
    reveal_with_fuel(load_end, 5);
}

/// The fields of a text with commas between them, of which none has a comma or white space at its
/// ends, are what was put between the commas.
pub proof fn law_fields(a: Seq<char>, b: Seq<char>, c: Seq<char>)
    requires
        !a.contains(','),
        !b.contains(','),
        !c.contains(','),
        a.len() > 0 && !crate::text::is_space(a.first()) && !crate::text::is_space(a.last()),
        b.len() > 0 && !crate::text::is_space(b.first()) && !crate::text::is_space(b.last()),
        c.len() > 0 && !crate::text::is_space(c.first()) && !crate::text::is_space(c.last()),
    ensures
        ({
            let text = a + seq![','] + (b + seq![','] + c);
            &&& field(text, 0) == Some(a)
            &&& field(text, 1) == Some(b)
            &&& field(text, 2) == Some(c)
            &&& field(text, 3) is None
            &&& field(seq![' '] + text + seq!['\n'], 1) == Some(b)
        }),
{
    let none = Seq::<char>::empty();
    let tail = b + seq![','] + c;
    let text = a + seq![','] + tail;
    crate::text::law_pieces_cut(a, tail, ',');
    crate::text::law_pieces_cut(b, c, ',');
    crate::text::law_pieces_cut(c, none, ',');
    let p = crate::text::pieces(text, ',');
    assert(p =~= seq![a, b, c]);
    crate::text::law_trimmed(none, text, none);
    crate::text::law_trimmed(none, a, none);
    crate::text::law_trimmed(none, b, none);
    crate::text::law_trimmed(none, c, none);
    assert(none + text + none =~= text);
    assert(none + a + none =~= a);
    assert(none + b + none =~= b);
    assert(none + c + none =~= c);
    assert(text.first() == a.first() && text.last() == c.last());
    crate::text::law_trimmed(seq![' '], text, seq!['\n']);
}

/// What a probe says: width, height and rate in this order, after the codec if that was asked for,
/// then the duration and the number of frames. A rate with a slash is a numerator and a
/// denominator. An answer with fewer than the first of these, or with dimensions that are no
/// numbers, is refused.
pub proof fn law_probe(text: Seq<char>, with_codec: bool, w: int, h: int, n: Seq<char>, d: Seq<char>)
    requires
        0 <= w <= usize::MAX,
        0 <= h <= usize::MAX,
        !n.contains('/'),
        !d.contains('/'),
    ensures
        ({
            let k: int = if with_codec {
                1
            } else {
                0
            };
            let got = probe_reading(text, with_codec);
            let sized = field(text, k) == Some(crate::text::decimal(w)) && field(text, k + 1)
                == Some(crate::text::decimal(h));
            &&& field(text, k + 2) is None ==> got is Err
            &&& sized && field(text, k + 2) is Some ==> {
                &&& got is Ok
                &&& got->Ok_0.width == w
                &&& got->Ok_0.height == h
                &&& got->Ok_0.duration == field(text, k + 3)
                &&& with_codec ==> field(text, 0) == Some(got->Ok_0.codec)
                &&& !with_codec ==> got->Ok_0.codec.len() == 0
                &&& field(text, k + 4) is None ==> got->Ok_0.frames is None
                &&& field(text, k + 4) == Some(crate::text::decimal(w)) ==> got->Ok_0.frames
                    == Some(w)
            }
            &&& sized && field(text, k + 2) == Some(n + seq!['/'] + d) ==> got->Ok_0.rate == n
                && got->Ok_0.rate_divisor == Some(d)
            &&& sized && field(text, k + 2) == Some(n) ==> got->Ok_0.rate == n
                && got->Ok_0.rate_divisor is None
            &&& (field(text, k) matches Some(x) && crate::text::number(x) is None) ==> got is Err
            &&& (field(text, k + 1) matches Some(x) && crate::text::number(x) is None)
                ==> got is Err
        }),
{
    crate::text::law_decimal_read(w);
    crate::text::law_decimal_read(h);
    crate::text::law_first_place(n, '/', d);
    let both = n + seq!['/'] + d;
    assert(both.subrange(0, n.len() as int) =~= n);
    assert(both.subrange(n.len() as int + 1, both.len() as int) =~= d);
}

/// The frame rate of a probe: a number without a denominator is the rate, one with it is divided by
/// it, exactly where it goes into it. What is no number counts as 30 frames, or as no denominator;
/// a denominator of 0 leaves 30 frames.
pub proof fn law_probed_rate(rate: int, by: int)
    requires
        1 <= rate,
        1 <= by,
        rate * by < 0x100_0000,
    ensures
        ({
            let r = crate::single::whole_number(rate);
            let b = crate::single::whole_number(by);
            let none = None::<Single>;
            let zero = crate::single::whole_number(0);
            let thirty = crate::single::whole_number(30);
            &&& probed_rate(Some(r), false, none) == r
            &&& probed_rate(none, false, none) == thirty
            &&& probed_rate(Some(crate::single::whole_number(rate * by)), true, Some(b)) == r
            &&& probed_rate(Some(r), true, Some(zero)) == thirty
        }),
{
    assert(rate <= rate * by && by <= rate * by) by (nonlinear_arith)
        requires
            1 <= rate,
            1 <= by,
    ;
    vstd::arithmetic::power2::lemma2_to64();
    crate::single::lemma_exact_quotient(rate, by);
    assert(by * crate::single::pow2(0) == by) by (nonlinear_arith)
        requires
            crate::single::pow2(0) == 1,
    ;
    crate::single::lemma_whole_number(by, 0);
    crate::single::lemma_whole_number(0, 0);
    crate::single::lemma_less_units(
        crate::single::whole_number(0),
        0,
        crate::single::whole_number(by),
        by,
        0,
    );
    crate::single::lemma_less_units(
        crate::single::whole_number(0),
        0,
        crate::single::whole_number(0),
        0,
        0,
    );
}

/// The number of frames is the one that was given; without one it is the duration times the rate,
/// and none where either is not positive.
pub proof fn law_probed_frames(given: int, seconds: int, rate: int)
    requires
        1 <= seconds,
        1 <= rate,
        seconds * rate < 0x100_0000,
    ensures
        ({
            let s = crate::single::whole_number(seconds);
            let r = crate::single::whole_number(rate);
            let zero = crate::single::whole_number(0);
            &&& probed_frames(Some(given), s, r) == given
            &&& probed_frames(None, s, r) == seconds * rate
            &&& probed_frames(None, zero, r) == 0
            &&& probed_frames(None, s, zero) == 0
        }),
{
    assert(seconds <= seconds * rate && rate <= seconds * rate) by (nonlinear_arith)
        requires
            1 <= seconds,
            1 <= rate,
    ;
    let n = seconds * rate;
    vstd::arithmetic::power2::lemma2_to64();
    let one = crate::single::pow2(0);
    assert(n * one == n && seconds * one == seconds && rate * one == rate) by (nonlinear_arith)
        requires
            one == 1,
    ;
    crate::single::lemma_whole_product(seconds, rate);
    crate::single::lemma_whole_number(n, 0);
    crate::single::lemma_whole_number(seconds, 0);
    crate::single::lemma_whole_number(rate, 0);
    crate::single::lemma_whole_number(0, 0);
    let zero = crate::single::whole_number(0);
    crate::single::lemma_less_units(zero, 0, crate::single::whole_number(seconds), seconds, 0);
    crate::single::lemma_less_units(zero, 0, crate::single::whole_number(rate), rate, 0);
    crate::single::lemma_less_units(zero, 0, zero, 0, 0);
    crate::single::lemma_nearest_exact(crate::single::whole_number(n), n, 0, usize::MAX as int);
}

/// A preview is never wider than 1920, nor than the video; a video of at most 1920 by 1080 is shown
/// as it is, and the height of any other preview is even and not 0.
pub proof fn law_preview_size(width: int, height: int)
    requires
        0 <= width,
        0 <= height,
    ensures
        ({
            let (w, h) = preview_size(width, height);
            let large = width > 1920 || height > 1080;
            &&& !large ==> w == width && h == height
            &&& large ==> h % 2 == 0 && h >= 2
            &&& w <= 1920 && w <= width
            &&& w == 1920 || w == width
        }),
{
}

} // verus!
