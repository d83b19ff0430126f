//! Files, presets, playback, windows, benchmarks and graphics cards.

use hap::benchmark::{
    generate_pattern, prepare, rate_decode_fps, run_round, speed_class, BenchmarkData, BenchmarkTest,
    RoundError, SpeedClass,
};
use hap::display::{format_aspect_ratio, format_bytes, format_smpte_timecode};
use hap::gpu::{block_rows, pixel_rows, with_refit, GpuCompressError, GpuPipeline, GpuPlan, RowLayout};
use hap::job::{
    chosen_rate, decode_range, frame_file_name, is_milestone, percent_of, speed, FrameRange,
};
use hap::media::{
    codec_name, codec_title, first_action, is_image_file, is_movie_file, is_sequence_image,
    is_video_container, media_kind, next_action, play_size, probe_frames, probe_rate, read_probe,
    saves_opaque, LoadAction, LoadEnd, LoadStep, MediaKind, ProbeFault,
};
use hap::picture::{decode_picture, drop_alpha, finish_preview, picture_preview, probe_thumbnail};
use hap::player::{
    show_channels, ChannelViewMode, Clip, FrameMeter, Player, Reaction, StreamCommand,
};
use hap::presets::{
    converted_name, expected_frames, export_label, suggested_name, suggested_output, CliAlphaMode, CliColorRange,
    CliDitherMode, CliHapFormat, CliQualityPreset, EncoderPreset, InputFacts,
};
use hap::single::Single;
use hap::still::{export_image_to_hap_mov, pad_rgba_to_multiple_of_4, StillError};
use hap::tools::{tool_file_name, tool_places, SystemPlaces};
use hap::text::{contains, find, parse_number, split, to_chars, trim};
use hap::window::{
    commands, controls_visible, fit_picture, is_too_slow, log_line_matches, picture_aspect, progress,
    resize_edge, resolution_text, scrub_frame, Edge, Keys, ScreenChange, ScreenMode, StepKey,
};
use hap::{
    decode_frame_to_rgba, AlphaMode, ColorRange, DitherMode, EncodeError, EncodeOptions, HapFormat,
    QtHapReader, QualityPreset,
};

fn soft(v: f32) -> Single {
    Single::from_bits(v.to_bits())
}

fn hard(s: Single) -> f32 {
    f32::from_bits(s.to_bits())
}

// ---------------------------------------------------------------------------------------------
// Files.
// ---------------------------------------------------------------------------------------------

#[test]
fn test_video_container_extensions() {
    assert!(is_video_container("render.mp4"));
    assert!(is_video_container("video.mkv"));
    assert!(is_video_container("clip.mov"));
    assert!(is_video_container("web.webm"));
    assert!(is_video_container("broadcast.mxf"));
    assert!(!is_video_container("frame_0001.png"));
    assert!(!is_video_container("still.jpg"));
}

#[test]
fn test_image_extensions() {
    assert!(is_image_file("test.png"));
    assert!(is_image_file("photo.jpg"));
    assert!(is_image_file("picture.jpeg"));
    assert!(is_image_file("scan.tiff"));
    assert!(is_image_file("graphic.webp"));
    assert!(is_image_file("icon.bmp"));
    assert!(!is_image_file("movie.mov"));
    assert!(!is_image_file("video.mp4"));
}

#[test]
fn extensions_in_any_case() {
    assert!(is_video_container("A.MP4"));
    assert!(is_video_container("archive.tar.Mkv"));
    assert!(is_image_file("SCAN.TIF"));
    assert!(is_image_file("a.PNG"));
    assert_eq!(media_kind("a.PNG"), MediaKind { image: true, movie: false, video: false });
    assert!(is_movie_file("Clip.MoV"));
    assert!(!is_movie_file("Clip.movx"));
    assert!(is_image_file("old.TGA"));
    assert!(!is_sequence_image("old.tga"));
    assert!(is_sequence_image("new.Webp"));
    assert!(saves_opaque("photo.JPEG"));
    assert!(!saves_opaque("photo.png"));
}

#[test]
fn names_without_extensions() {
    for name in ["", ".", "..", "png", ".png", "mp4.", "a.b/", "x.png.txt"] {
        assert!(!is_image_file(name), "{}", name);
        assert!(!is_video_container(name), "{}", name);
    }
    // The same names by the standard library's own reckoning.
    for name in ["a.b", ".hidden.mov", "..mov", "a..mov", "noext", "..", "..."] {
        let theirs = std::path::Path::new(name).extension().and_then(|e| e.to_str());
        assert_eq!(is_movie_file(name), theirs == Some("mov"), "{}", name);
    }
}

fn follow(name: &str, is_dir: bool, works: &[LoadStep]) -> LoadEnd {
    let kind = media_kind(name);
    let mut action = first_action(is_dir, kind);
    for _ in 0..10 {
        match action {
            LoadAction::End(end) => return end,
            LoadAction::Attempt(step) => action = next_action(step, works.contains(&step), kind),
        }
    }
    panic!("no end");
}

#[test]
fn files_are_opened_one_way_after_the_other() {
    assert_eq!(follow("folder", true, &[LoadStep::ListDirectory]), LoadEnd::Sequence);
    assert_eq!(follow("a.png", false, &[LoadStep::DecodeImage]), LoadEnd::StillImage);
    assert_eq!(follow("a.png", false, &[LoadStep::GuessImage]), LoadEnd::BadImage);
    assert_eq!(follow("a.mov", false, &[LoadStep::OpenMovie]), LoadEnd::HapVideo);
    assert_eq!(follow("a.mov", false, &[LoadStep::ProbeVideo]), LoadEnd::GenericVideo);
    assert_eq!(follow("a.mov", false, &[]), LoadEnd::BadVideo);
    assert_eq!(follow("a.mp4", false, &[LoadStep::OpenMovie, LoadStep::ProbeVideo]), LoadEnd::GenericVideo);
    assert_eq!(follow("noname", false, &[LoadStep::GuessImage]), LoadEnd::StillImage);
    assert_eq!(follow("noname", false, &[]), LoadEnd::Unrecognized);
    assert_eq!(follow("a.png", true, &[LoadStep::DecodeImage]), LoadEnd::StillImage);
    assert_eq!(
        media_kind("a.mov"),
        MediaKind { image: false, movie: true, video: true }
    );
    assert_eq!(LoadEnd::BadImage.failure("why").as_deref(), Some("Failed to decode image: why"));
    assert_eq!(LoadEnd::BadVideo.failure("why").as_deref(), Some("Unable to parse video stream: why"));
    assert_eq!(
        LoadEnd::Unrecognized.failure("").as_deref(),
        Some("Unrecognized or unsupported media format")
    );
    assert_eq!(LoadEnd::HapVideo.failure("x"), None);
}

#[test]
fn probes_are_understood() {
    let a = read_probe("  h264, 1920 ,1080,30000/1001, 12.5,375\n", true).unwrap();
    assert_eq!(a.codec, "h264");
    assert_eq!((a.width, a.height), (1920, 1080));
    assert_eq!((a.rate.as_str(), a.rate_divisor.as_deref()), ("30000", Some("1001")));
    assert_eq!(a.duration.as_deref(), Some("12.5"));
    assert_eq!(a.frames, Some(375));
    let b = read_probe("64,+48,25", false).unwrap();
    assert_eq!(b.codec, "");
    assert_eq!((b.width, b.height), (64, 48));
    assert_eq!((b.rate.as_str(), b.rate_divisor), ("25", None));
    assert_eq!((b.duration, b.frames), (None, None));
    let c = read_probe("64,48,25/1/2,N/A,N/A", false).unwrap();
    assert_eq!((c.rate.as_str(), c.rate_divisor.as_deref()), ("25", Some("1/2")));
    assert_eq!(c.frames, None);
    assert_eq!(read_probe("64,48", false).err(), Some(ProbeFault::Incomplete));
    assert_eq!(read_probe("h264,64,48", true).err(), Some(ProbeFault::Incomplete));
    assert_eq!(read_probe("x,48,25", false).err(), Some(ProbeFault::InvalidWidth));
    assert_eq!(read_probe("64,-48,25", false).err(), Some(ProbeFault::InvalidHeight));
    assert_eq!(ProbeFault::Incomplete.message(true), "Could not parse video metadata from ffprobe output.");
    assert_eq!(
        ProbeFault::Incomplete.message(false),
        "Could not parse video stream dimensions from ffprobe output."
    );
    assert_eq!(ProbeFault::InvalidWidth.message(true), "Invalid width");
    assert_eq!(ProbeFault::InvalidHeight.message(true), "Invalid height");
}

#[test]
fn programs_are_looked_for() {
    assert_eq!(tool_file_name("ffmpeg"), "ffmpeg.exe");
    assert_eq!(tool_file_name("ffmpeg.exe"), "ffmpeg.exe");
    assert_eq!(tool_file_name(".exe"), ".exe");
    assert_eq!(tool_file_name("exe"), "exe.exe");
    let places = tool_places(&SystemPlaces {
        program: Some("C:\\HapLab".into()),
        home: None,
        data: Some("C:\\Data".into()),
        path: vec!["C:\\A".into(), "C:\\B".into()],
    });
    let bases: Vec<&str> = places.iter().map(|p| p.base.as_str()).collect();
    assert_eq!(
        bases,
        [
            "C:\\ProgramData\\chocolatey\\lib\\ffmpeg\\tools\\ffmpeg\\bin",
            "C:\\HapLab",
            "C:\\Data",
            "C:\\A",
            "C:\\B"
        ]
    );
    assert!(places[2].below.ends_with("ffmpeg\\bin"));
    assert_eq!(places[4].below, "");
}

#[test]
fn codecs_have_titles() {
    assert_eq!(codec_name("h264"), "H.264 / AVC");
    assert_eq!(codec_name("AVC1"), "H.264 / AVC");
    assert_eq!(codec_name("hevc"), "H.265 / HEVC");
    assert_eq!(codec_name("av01"), "AV1");
    assert_eq!(codec_name("ProRes"), "Apple ProRes");
    assert_eq!(codec_name("vp9"), "VP9");
    assert_eq!(codec_name("dnxhr"), "Avid DNxHD/HR");
    assert_eq!(codec_name(""), "Video");
    assert_eq!(codec_name("mpeg2video"), "MPEG2VIDEO");
    assert_eq!(codec_name("straße"), "STRASSE");
    assert_eq!(codec_title("mpeg2video"), None);
}

#[test]
fn rates_and_frames_of_probes() {
    assert_eq!(hard(probe_rate(Some(soft(30000.0)), true, Some(soft(1001.0)))), 30000.0f32 / 1001.0);
    assert_eq!(hard(probe_rate(Some(soft(25.0)), false, None)), 25.0);
    assert_eq!(hard(probe_rate(None, false, None)), 30.0);
    assert_eq!(hard(probe_rate(None, true, None)), 30.0);
    assert_eq!(hard(probe_rate(Some(soft(50.0)), true, Some(soft(0.0)))), 30.0);
    assert_eq!(hard(probe_rate(Some(soft(50.0)), true, Some(soft(f32::NAN)))), 30.0);
    assert_eq!(probe_frames(Some(7), soft(10.0), soft(30.0)), 7);
    assert_eq!(probe_frames(None, soft(12.51), soft(29.97)), (12.51f32 * 29.97).round() as usize);
    assert_eq!(probe_frames(None, soft(0.0), soft(30.0)), 0);
    assert_eq!(probe_frames(None, soft(1.0), soft(f32::NAN)), 0);
    assert_eq!(probe_frames(None, soft(f32::INFINITY), soft(1.0)), usize::MAX);
}

#[test]
fn previews_are_at_most_full_hd() {
    for (w, h) in [(1920usize, 1080usize), (64, 64), (3840, 2160), (4096, 1716), (1080, 1920), (1000, 5000), (0, 2000), (2000, 0), (7680, 4321)] {
        let want = if w > 1920 || h > 1080 {
            let aspect = w as f32 / h.max(1) as f32;
            let pw = 1920.min(w);
            let ph = ((pw as f32 / aspect).round() as usize) & !1;
            (pw, ph.max(2))
        } else {
            (w, h)
        };
        assert_eq!(play_size(w, h), want, "{}x{}", w, h);
    }
}

#[test]
fn texts_are_taken_apart() {
    let chars = to_chars("\u{2003} a,b \t\n");
    assert_eq!(trim(&chars), &['a', ',', 'b']);
    assert_eq!(trim(&to_chars(" \u{a0}\u{3000}")), &[] as &[char]);
    for s in ["", "x", ",", "a,b", ",a,,b,"] {
        let ours: Vec<String> = split(&to_chars(s), ',').iter().map(|p| p.iter().collect()).collect();
        let theirs: Vec<String> = s.split(',').map(|p| p.to_string()).collect();
        assert_eq!(ours, theirs);
    }
    for s in ["", "0", "+7", "+", "-1", "007", "12a", "18446744073709551615", "18446744073709551616", "99999999999999999999999"] {
        assert_eq!(parse_number(&to_chars(s)), s.parse::<usize>().ok(), "{}", s);
    }
    for (t, n) in [("hello", "ell"), ("hello", ""), ("", ""), ("aab", "ab"), ("ab", "abc"), ("abc", "d")] {
        assert_eq!(contains(&to_chars(t), &to_chars(n)), t.contains(n), "{} {}", t, n);
    }
    assert_eq!(find(&to_chars("a/b/c"), '/'), 1);
    assert_eq!(find(&to_chars("abc"), '/'), 3);
}

// ---------------------------------------------------------------------------------------------
// Still images.
// ---------------------------------------------------------------------------------------------

#[test]
fn test_pad_rgba_to_multiple_of_4() {
    let raw = vec![255u8; 6 * 5 * 4];
    let (pw, ph, padded) = pad_rgba_to_multiple_of_4(&raw, 6, 5);
    assert_eq!(pw, 8);
    assert_eq!(ph, 8);
    assert_eq!(padded.len(), 8 * 8 * 4);

    let aligned = vec![128u8; 8 * 8 * 4];
    let (aw, ah, aligned_res) = pad_rgba_to_multiple_of_4(&aligned, 8, 8);
    assert_eq!(aw, 8);
    assert_eq!(ah, 8);
    assert_eq!(aligned_res.len(), 8 * 8 * 4);
}

#[test]
fn padding_keeps_pixels() {
    let (w, h) = (5usize, 3usize);
    let raw: Vec<u8> = (0..w * h * 4).map(|i| i as u8 + 1).collect();
    let (pw, ph, padded) = pad_rgba_to_multiple_of_4(&raw, w, h);
    assert_eq!((pw, ph), (8, 4));
    for y in 0..ph {
        for x in 0..pw {
            for c in 0..4 {
                let want = if x < w && y < h { raw[(y * w + x) * 4 + c] } else { 0 };
                assert_eq!(padded[(y * pw + x) * 4 + c], want);
            }
        }
    }
    let (_, _, same) = pad_rgba_to_multiple_of_4(&raw[..16], 4, 0);
    assert_eq!(same, &raw[..16]);
}

#[test]
fn test_export_still_image_and_hap_mov() {
    let w = 8;
    let h = 8;
    let mut rgba = Vec::with_capacity(w * h * 4);
    for y in 0..h {
        for x in 0..w {
            rgba.push((x * 30) as u8);
            rgba.push((y * 30) as u8);
            rgba.push(180);
            rgba.push(255);
        }
    }

    let file = export_image_to_hap_mov(&rgba, w, h, HapFormat::HapY, true);
    assert!(file.is_ok());
    let file = file.unwrap();

    let reader = QtHapReader::open(&file).expect("Should open generated MOV");
    assert_eq!(reader.frame_count(), 1);
    assert_eq!(reader.width(), 8);
    assert_eq!(reader.height(), 8);
    let pkt = reader.read_frame_packet(&file, 0).expect("Should read packet 0");
    let decoded = decode_frame_to_rgba(&pkt, 8, 8).expect("Should decode packet");
    assert_eq!(decoded.len(), 8 * 8 * 4);
}

#[test]
fn stills_of_any_size_and_their_errors() {
    let file = export_image_to_hap_mov(&[200; 5 * 6 * 4], 5, 6, HapFormat::Hap5, false).unwrap();
    let reader = QtHapReader::open(&file).unwrap();
    assert_eq!((reader.width(), reader.height()), (8, 8));
    assert!(matches!(
        export_image_to_hap_mov(&[0; 64], 4, 4, HapFormat::HapH, true),
        Err(StillError::Encoding(EncodeError::UnsupportedFormat(HapFormat::HapH)))
    ));
    assert!(matches!(
        export_image_to_hap_mov(&[0; 60], 4, 4, HapFormat::Hap1, true),
        Err(StillError::Encoding(EncodeError::BufferSizeMismatch { expected: 64, actual: 60 }))
    ));
    assert!(matches!(export_image_to_hap_mov(&[], 0, 4, HapFormat::Hap1, true), Err(StillError::Movie(_))));
}

// ---------------------------------------------------------------------------------------------
// Presets and jobs.
// ---------------------------------------------------------------------------------------------

#[test]
fn presets_choose_options() {
    let before = EncodeOptions {
        format: HapFormat::HapA,
        chunk_count: 16,
        use_snappy: false,
        color_range: ColorRange::Limited,
        alpha_mode: AlphaMode::Demultiply,
        dither_mode: DitherMode::Bayer4x4,
        quality: QualityPreset::Draft,
    };
    let q = EncoderPreset::HapQRecommended.apply(before);
    assert_eq!((q.format, q.chunk_count, q.use_snappy), (HapFormat::HapY, 4, true));
    assert_eq!((q.color_range, q.alpha_mode), (ColorRange::Full, AlphaMode::Straight));
    assert_eq!((q.dither_mode, q.quality), (DitherMode::Off, QualityPreset::Production));
    let r = EncoderPreset::HapRUltra.apply(before);
    assert_eq!((r.format, r.chunk_count, r.use_snappy), (HapFormat::Hap7, 8, true));
    let f = EncoderPreset::Hap1Fast.apply(before);
    assert_eq!((f.format, f.use_snappy, f.alpha_mode, f.quality), (HapFormat::Hap1, false, AlphaMode::Discard, QualityPreset::Draft));
    assert_eq!(EncoderPreset::HapQAlphaTransparent.apply(before).format, HapFormat::HapM);
    assert_eq!(EncoderPreset::HapAlphaLight.apply(before).format, HapFormat::Hap5);
    assert_eq!(EncoderPreset::Custom.apply(before), before);
    assert_eq!(EncoderPreset::HapQRecommended.name(), "Hap Q");
    assert_eq!(EncoderPreset::Hap1Fast.description(), "DXT1 RGB. Lowest CPU decode overhead.");
    let p = EncoderPreset::HapRUltra;
    assert_eq!(p.after_format(HapFormat::Hap7, HapFormat::Hap7), p);
    assert_eq!(p.after_format(HapFormat::Hap7, HapFormat::Hap1), EncoderPreset::Custom);
}

#[test]
fn command_line_values() {
    assert_eq!(HapFormat::from(CliHapFormat::HapR), HapFormat::Hap7);
    assert_eq!(HapFormat::from(CliHapFormat::HapM), HapFormat::HapM);
    assert_eq!(ColorRange::from(CliColorRange::Limited), ColorRange::Limited);
    assert_eq!(AlphaMode::from(CliAlphaMode::Demultiply), AlphaMode::Demultiply);
    assert_eq!(DitherMode::from(CliDitherMode::Bayer), DitherMode::Bayer4x4);
    assert_eq!(DitherMode::from(CliDitherMode::Off), DitherMode::Off);
    assert_eq!(QualityPreset::from(CliQualityPreset::Draft), QualityPreset::Draft);
}

#[test]
fn names_of_files() {
    assert_eq!(suggested_name("MyAnim", HapFormat::HapY), "MyAnim_HapQ.mov");
    assert_eq!(suggested_name("x", HapFormat::HapH), "x_HapHDR.mov");
    let place = |input: bool, is_dir: bool, path: &str, parent, name, stem| {
        suggested_output(input, is_dir, path, parent, name, stem, HapFormat::Hap7)
    };
    let text = |folder: &str, file: &str| Some((folder.to_string(), file.to_string()));
    // A folder, a file, a file in the current folder, and inputs without a name.
    assert_eq!(
        place(true, true, "/r/shot.v2", Some("/r"), Some("shot.v2"), Some("shot")),
        text("/r/shot.v2", "shot.v2_HapR.mov")
    );
    assert_eq!(
        place(true, false, "/r/a.png", Some("/r"), Some("a.png"), Some("a")),
        text("/r", "a_HapR.mov")
    );
    assert_eq!(place(true, false, "a.png", None, Some("a.png"), Some("a")), text(".", "a_HapR.mov"));
    assert_eq!(place(true, false, "/..", Some("/"), None, None), text("/", "output_HapR.mov"));
    assert_eq!(place(true, true, "/", None, None, None), text("/", "output_HapR.mov"));
    assert_eq!(place(false, false, "", None, None, None), None);
    assert_eq!(converted_name(Some("photo"), "png"), "photo_converted.png");
    assert_eq!(converted_name(None, "mov"), "converted.mov");
    assert_eq!(export_label("webp"), "WebP (.webp)");
    assert_eq!(export_label("what"), "HAP MOV (.mov)");
    assert_eq!(frame_file_name(0, "png"), "frame_000000.png");
    assert_eq!(frame_file_name(1234567, "jpg"), "frame_1234567.jpg");
}

#[test]
fn inputs_and_ranges() {
    let facts = InputFacts { frames: 3, width: 64, height: 0 };
    assert!(facts.can_start(true, true, false));
    assert!(!facts.can_start(true, true, true));
    assert!(!facts.can_start(true, false, false));
    assert_eq!(facts.dimensions(), None);
    assert_eq!(facts.total(), Some(3));
    assert_eq!(InputFacts { frames: 0, width: 64, height: 48 }.dimensions(), Some((64, 48)));
    assert_eq!(InputFacts { frames: 0, width: 64, height: 48 }.total(), None);
    assert_eq!(expected_frames(Some(9), 4), 9);
    assert_eq!(expected_frames(None, 0), 1);
    assert_eq!(expected_frames(None, 12), 12);
    assert_eq!(decode_range(None, None, 10), FrameRange { first: 0, last: 9 });
    assert_eq!(decode_range(Some(3), Some(5), 10), FrameRange { first: 3, last: 5 });
    assert_eq!(decode_range(Some(30), Some(50), 10), FrameRange { first: 9, last: 9 });
    assert_eq!(decode_range(None, None, 0), FrameRange { first: 0, last: 0 });
    assert!(is_milestone(20, 10, 25));
    assert!(is_milestone(25, 10, 25));
    assert!(!is_milestone(21, 10, 25));
    assert_eq!(hard(percent_of(1, 3)), 1.0f32 / 3.0 * 100.0);
    assert_eq!(hard(chosen_rate(soft(0.0), soft(24.0))), 24.0);
    assert_eq!(hard(chosen_rate(soft(60.0), soft(24.0))), 60.0);
}

// ---------------------------------------------------------------------------------------------
// Playback.
// ---------------------------------------------------------------------------------------------

const CALM: Reaction = Reaction {
    stream: StreamCommand::Leave,
    restart_clock: false,
    restart_meter: false,
    show_current: false,
};

fn movie_player(total: usize) -> Player {
    let mut p = Player::new();
    let r = p.movie_loaded(Clip { total, width: 64, height: 32 });
    assert_eq!(r, Reaction { restart_meter: true, ..CALM });
    p
}

fn stream_player(total: usize) -> Player {
    let mut p = Player::new();
    let r = p.stream_loaded(
        Clip { total, width: 1920, height: 1080 },
        InputFacts { frames: total, width: 3840, height: 2160 },
    );
    assert_eq!(
        r,
        Reaction { stream: StreamCommand::Start(0), restart_clock: true, restart_meter: true, ..CALM }
    );
    p
}

#[test]
fn movies_play_and_loop() {
    let mut p = movie_player(10);
    assert!(p.is_playing);
    assert!(p.media.has_video_loaded());
    // The first tick starts the clock.
    assert_eq!(p.tick_movie(99), Reaction { restart_clock: true, ..CALM });
    assert_eq!(p.current_frame, 0);
    assert_eq!(p.tick_movie(3), Reaction { show_current: true, ..CALM });
    assert_eq!(p.current_frame, 3);
    assert_eq!(p.tick_movie(3), CALM);
    // The end of the movie starts it over.
    assert_eq!(p.tick_movie(10), Reaction { restart_clock: true, show_current: true, ..CALM });
    assert_eq!((p.current_frame, p.is_playing, p.clock_synced), (0, true, false));
    // Without looping it stops on the last frame.
    p.loop_playback = false;
    p.tick_movie(0);
    p.tick_movie(usize::MAX);
    assert_eq!((p.current_frame, p.is_playing), (9, false));
    // Playing again starts over.
    let r = p.toggle_playback();
    assert_eq!(
        r,
        Reaction { restart_clock: true, restart_meter: true, show_current: true, ..CALM }
    );
    assert_eq!((p.current_frame, p.is_playing), (0, true));
}

#[test]
fn pausing_keeps_the_frame() {
    let mut p = stream_player(100);
    p.frame_shown(42);
    assert_eq!(p.toggle_playback().stream, StreamCommand::Stop);
    assert!(!p.is_playing);
    assert_eq!(p.toggle_playback().stream, StreamCommand::Start(42));
    assert_eq!((p.current_frame, p.is_playing), (42, true));
    let mut empty = Player::new();
    assert_eq!(empty.toggle_playback(), CALM);
    assert!(!empty.is_playing);
}

#[test]
fn seeks_stay_inside() {
    let mut p = movie_player(10);
    assert_eq!(p.seek_to_frame(500), Reaction { restart_clock: true, show_current: true, ..CALM });
    assert_eq!(p.current_frame, 9);
    p.step(true, 10);
    assert_eq!(p.current_frame, 0);
    p.step(false, 1);
    assert_eq!((p.current_frame, p.start_frame), (1, 1));
    p.step(false, usize::MAX);
    assert_eq!(p.current_frame, 9);
    let mut none = Player::new();
    assert_eq!(none.step(false, 1), CALM);
    assert_eq!(none.seek_to_frame(5), CALM);
    assert_eq!(none.current_frame, 0);
}

#[test]
fn one_frame_is_fetched_at_a_time() {
    let mut p = stream_player(100);
    p.toggle_playback();
    assert_eq!(p.seek_to_frame(10).stream, StreamCommand::Fetch(10));
    assert_eq!(p.seek_to_frame(20), CALM);
    assert_eq!(p.seek_to_frame(30), CALM);
    assert_eq!(p.pending_seek, Some(30));
    assert_eq!(p.fetch_ended().stream, StreamCommand::Fetch(30));
    assert_eq!(p.fetch_ended(), CALM);
    assert!(!p.seeking);
    p.toggle_playback();
    assert_eq!(
        p.seek_to_frame(50),
        Reaction { stream: StreamCommand::Start(50), restart_clock: true, ..CALM }
    );
}

#[test]
fn streams_follow_the_clock() {
    let mut p = stream_player(100);
    assert_eq!(p.tick_stream(77), (CALM, 0));
    // The first frame starts the clock and is due whatever its number.
    let a = p.frame_arrived(0, 5);
    assert!(a.due && a.restart_clock);
    assert_eq!((a.target, p.start_frame), (5, 5));
    assert_eq!(p.tick_stream(3), (CALM, 8));
    assert!(p.frame_arrived(8, 8).due);
    assert!(!p.frame_arrived(8, 9).due);
    // The end starts the stream over, or stops it.
    assert_eq!(
        p.tick_stream(95),
        (Reaction { stream: StreamCommand::Start(0), restart_clock: true, ..CALM }, 0)
    );
    p.frame_arrived(0, 0);
    p.loop_playback = false;
    assert_eq!(p.tick_stream(100), (Reaction { stream: StreamCommand::Stop, ..CALM }, 99));
    assert!(!p.is_playing);
    p.loop_playback = true;
    assert_eq!(p.stream_ended().stream, StreamCommand::Start(0));
    p.loop_playback = false;
    assert_eq!(p.stream_ended().stream, StreamCommand::Stop);
}

#[test]
fn scrubbing_resumes() {
    let mut p = stream_player(100);
    assert_eq!(p.scrub_start().stream, StreamCommand::Stop);
    assert!(!p.is_playing);
    assert_eq!(p.scrub_to(33).stream, StreamCommand::Fetch(33));
    assert_eq!(p.scrub_to(33), CALM);
    let r = p.scrub_stop();
    assert_eq!(r.stream, StreamCommand::Start(33));
    assert!(r.restart_clock && r.restart_meter && p.is_playing);
    p.toggle_playback();
    assert_eq!(p.scrub_start(), CALM);
    p.fetch_ended();
    assert_eq!(p.scrub_stop().stream, StreamCommand::Fetch(33));
    assert!(!p.is_playing);
}

#[test]
fn media_replace_each_other() {
    let mut p = stream_player(100);
    assert_eq!((p.media.video_width(), p.media.video_height(), p.media.video_total_frames()), (1920, 1080, 100));
    assert_eq!(p.still_loaded(7, 5).stream, StreamCommand::Stop);
    assert_eq!((p.media.video_width(), p.media.video_height(), p.media.video_total_frames()), (7, 5, 1));
    assert!(!p.media.has_video_loaded());
    assert_eq!(p.sequence_loaded(InputFacts { frames: 9, width: 640, height: 480 }), CALM);
    assert_eq!((p.media.video_width(), p.media.video_height(), p.media.video_total_frames()), (640, 480, 9));
    let mut q = movie_player(4);
    assert_eq!(hard(q.media.video_fps(soft(0.5), soft(7.0), soft(9.0))), 1.0);
    assert_eq!(hard(q.media.video_fps(soft(29.97), soft(7.0), soft(9.0))), 29.97);
    assert_eq!(hard(p.media.video_fps(soft(0.5), soft(7.0), soft(9.0))), 9.0);
    assert_eq!(hard(p.media.video_fps(soft(0.5), soft(7.0), soft(0.0))), 30.0);
    assert_eq!((q.media.video_width(), q.media.video_height(), q.media.video_total_frames()), (64, 32, 4));
    assert_eq!(q.close_media(), CALM);
    assert_eq!(q.media.video_total_frames(), 0);
    assert!(!q.is_playing);
}

#[test]
fn speeds_are_measured() {
    let mut m = FrameMeter { frames: 0 };
    assert_eq!(m.count(7, soft(0.25)), None);
    assert_eq!(m.count(1, soft(0.49999997)), None);
    assert_eq!(m.frames, 8);
    assert_eq!(m.count(3, soft(0.7)).map(hard), Some(11.0f32 / 0.7));
    assert_eq!(m.frames, 0);
    assert_eq!(m.count(1, soft(0.5)).map(hard), Some(2.0));
    assert_eq!(m.count(1, soft(f32::NAN)), None);
    assert_eq!(hard(speed(30, soft(1.7))), 30.0f32 / 1.7);
    assert_eq!(hard(speed(30, soft(0.0))), 30.0f32 / 0.001);
    assert!(is_too_slow(soft(16.7), soft(60.0)));
    assert!(!is_too_slow(soft(1000.0f32 / 60.0), soft(60.0)));
    assert!(is_too_slow(soft(33.34), soft(0.0)));
    assert!(!is_too_slow(soft(33.33), soft(0.0)));
}

#[test]
fn test_pause_playback() {
    let mut app = stream_player(100);
    assert!(app.is_playing);
    app.toggle_playback();
    assert!(!app.is_playing);
    let rgba = vec![128u8; 64 * 64 * 4];
    let file = export_image_to_hap_mov(&rgba, 64, 64, HapFormat::HapY, true).unwrap();
    let reader = QtHapReader::open(&file).unwrap();
    let mut hap_app = movie_player(reader.frame_count());
    hap_app.toggle_playback();
    assert!(!hap_app.is_playing);
}

#[test]
fn channels_are_shown() {
    let pixels = [10u8, 20, 30, 40, 50, 60, 70, 80, 90];
    let mut v = pixels;
    show_channels(ChannelViewMode::Rgba, &mut v);
    assert_eq!(v, pixels);
    show_channels(ChannelViewMode::RgbOpaque, &mut v);
    assert_eq!(v, [10, 20, 30, 255, 50, 60, 70, 255, 90]);
    let mut v = pixels;
    show_channels(ChannelViewMode::AlphaMatte, &mut v);
    assert_eq!(v, [40, 40, 40, 255, 80, 80, 80, 255, 90]);
}

// ---------------------------------------------------------------------------------------------
// The window.
// ---------------------------------------------------------------------------------------------

fn no_keys() -> Keys {
    Keys {
        command: false, shift: false, o: false, e: false, b: false, t: false, d: false, w: false,
        f1: false, i: false, f11: false, escape: false, space: false, left: false, right: false,
        home: false, end: false, l: false, one: false, two: false, three: false,
    }
}

#[test]
fn keys_ask_for_commands() {
    let c = commands(Keys { command: true, o: true, shift: true, w: true, ..no_keys() }, true, false);
    assert!(c.open_folder && !c.open_file && c.close_media);
    let c = commands(Keys { left: true, right: true, shift: true, three: true, one: true, ..no_keys() }, false, false);
    assert_eq!(c.step, Some(StepKey { back: false, frames: 10 }));
    assert_eq!(c.channel, Some(ChannelViewMode::AlphaMatte));
    let c = commands(Keys { left: true, home: true, space: true, l: true, ..no_keys() }, false, false);
    assert_eq!(c.step, Some(StepKey { back: true, frames: 1 }));
    assert_eq!(c.seek, Some(0));
    assert!(c.toggle_play && c.toggle_loop);
    let c = commands(Keys { end: true, space: true, ..no_keys() }, true, false);
    assert_eq!((c.seek, c.toggle_play), (None, false));
    assert_eq!(commands(Keys { end: true, ..no_keys() }, false, false).seek, Some(usize::MAX));
    assert!(!commands(Keys { escape: true, ..no_keys() }, false, false).toggle_fullscreen);
    assert!(commands(Keys { escape: true, ..no_keys() }, false, true).toggle_fullscreen);
    assert!(commands(Keys { f11: true, ..no_keys() }, true, false).toggle_fullscreen);
}

#[test]
fn fullscreen_and_cursor() {
    let mut m = ScreenMode { fullscreen: false, cursor_hidden: false };
    let none = ScreenChange { fullscreen: None, cursor_visible: None };
    assert_eq!(m.toggle_fullscreen(349), none);
    assert_eq!(m.toggle_fullscreen(350).fullscreen, Some(true));
    assert_eq!(m.watch_cursor(false, false), none);
    assert_eq!(m.watch_cursor(false, true).cursor_visible, Some(false));
    assert!(m.cursor_hidden);
    assert_eq!(m.watch_cursor(false, true), none);
    assert_eq!(m.watch_cursor(true, false).cursor_visible, Some(true));
    m.watch_cursor(false, true);
    assert_eq!(
        m.toggle_fullscreen(1000),
        ScreenChange { fullscreen: Some(false), cursor_visible: Some(true) }
    );
    m.cursor_hidden = true;
    assert_eq!(m.watch_cursor(false, true).cursor_visible, Some(true));
    assert!(controls_visible(false, soft(100.0)));
    assert!(controls_visible(true, soft(2.4999998)));
    assert!(!controls_visible(true, soft(2.5)));
}

#[test]
fn edges_and_corners() {
    assert_eq!(resize_edge(false, true, false, true, false), Some(Edge::NorthWest));
    assert_eq!(resize_edge(false, false, true, false, true), Some(Edge::SouthEast));
    assert_eq!(resize_edge(false, false, true, false, false), Some(Edge::East));
    assert_eq!(resize_edge(false, false, false, false, true), Some(Edge::South));
    assert_eq!(resize_edge(false, false, false, false, false), None);
    assert_eq!(resize_edge(true, true, false, true, false), None);
}

#[test]
fn pictures_fit() {
    let aspect = picture_aspect(Some((soft(1920.0), soft(1080.0))), (soft(1.0), soft(1.0)));
    assert_eq!(hard(aspect), 1920.0f32 / 1080.0);
    let p = fit_picture(soft(800.0), soft(800.0), aspect);
    assert_eq!((hard(p.width), hard(p.height)), (800.0, 800.0 / (1920.0f32 / 1080.0)));
    assert_eq!((hard(p.left), hard(p.top)), (0.0, (800.0 - 800.0 / (1920.0f32 / 1080.0)) * 0.5));
    let p = fit_picture(soft(1000.0), soft(100.0), soft(2.0));
    assert_eq!((hard(p.width), hard(p.height), hard(p.left)), (200.0, 100.0, 400.0));
    assert_eq!(hard(picture_aspect(None, (soft(16.0), soft(0.0)))), 16.0);
    assert_eq!(hard(picture_aspect(Some((soft(5.0), soft(0.0))), (soft(16.0), soft(9.0)))), 16.0f32 / 9.0);
    assert_eq!(hard(picture_aspect(None, (soft(0.0), soft(9.0)))), 0.01);
}

#[test]
fn tracks_and_frames() {
    assert_eq!(scrub_frame(soft(50.0), soft(0.0), soft(100.0), 101), 50);
    assert_eq!(scrub_frame(soft(-5.0), soft(0.0), soft(100.0), 101), 0);
    assert_eq!(scrub_frame(soft(500.0), soft(0.0), soft(100.0), 101), 100);
    assert_eq!(scrub_frame(soft(50.0), soft(0.0), soft(100.0), 1), 0);
    assert_eq!(hard(progress(25, 101)), 0.25);
    assert_eq!(hard(progress(500, 101)), 1.0);
    assert_eq!(hard(progress(5, 1)), 0.0);
}

#[test]
fn texts_for_people() {
    for (frame, fps) in [(0usize, 30.0f32), (29, 30.0), (30, 30.0), (107999, 29.97), (5_000_000, 24.0), (7, 0.0), (16777300, 59.94)] {
        let rate = fps.max(1.0);
        let total = (frame as f32 / rate) as u32;
        let ff = (frame as f32 % rate) as u32;
        let want = format!("{:02}:{:02}:{:02}:{:02}", total / 3600, (total / 60) % 60, total % 60, ff);
        assert_eq!(format_smpte_timecode(frame, soft(fps)), want);
    }
    for bytes in [0u64, 1023, 1024, 1075, 1076, 1536, 1048575, 1048576, 5242880, 1073741823, 1073741824, 123456789012, u64::MAX] {
        let want = if bytes >= 1024 * 1024 * 1024 {
            format!("{:.2} GB", bytes as f64 / (1024.0 * 1024.0 * 1024.0))
        } else if bytes >= 1024 * 1024 {
            format!("{:.1} MB", bytes as f64 / (1024.0 * 1024.0))
        } else if bytes >= 1024 {
            format!("{:.1} KB", bytes as f64 / 1024.0)
        } else {
            format!("{} B", bytes)
        };
        assert_eq!(format_bytes(bytes), want);
    }
    assert_eq!(format_bytes(14889779), "14.2 MB");
    assert_eq!(format_bytes(1536), "1.5 KB");
    assert_eq!(format_bytes(5 << 30), "5.00 GB");
    assert_eq!(format_bytes(1023), "1023 B");
    assert_eq!(format_aspect_ratio(1920, 1080), "16:9");
    assert_eq!(format_aspect_ratio(640, 480), "4:3");
    assert_eq!(format_aspect_ratio(4096, 1716), "2.39:1");
    assert_eq!(format_aspect_ratio(512, 512), "1:1");
    assert_eq!(format_aspect_ratio(1080, 1920), "9:16");
    assert_eq!(format_aspect_ratio(1000, 100), "");
    assert_eq!(resolution_text(1920, 1080), "1920x1080 (16:9)");
    assert_eq!(resolution_text(1000, 100), "1000x100");
    assert!(log_line_matches("[12:00:00] Opened HAP MOV", "hap mov"));
    assert!(log_line_matches("anything", ""));
    assert!(!log_line_matches("[12:00:00] Opened HAP MOV", "closed"));
}

// ---------------------------------------------------------------------------------------------
// Pictures.
// ---------------------------------------------------------------------------------------------

fn png(width: u32, height: u32, rgba: &[u8]) -> Vec<u8> {
    let img = image::RgbaImage::from_raw(width, height, rgba.to_vec()).unwrap();
    let mut out = std::io::Cursor::new(Vec::new());
    img.write_to(&mut out, image::ImageFormat::Png).unwrap();
    out.into_inner()
}

#[test]
fn thumbnails_of_videos() {
    let rgba: Vec<u8> = (0..24).map(|i| i * 10).collect();
    let file = png(3, 2, &rgba);
    assert_eq!(decode_picture(&file), Some((3, 2, rgba.clone())));
    assert_eq!(probe_thumbnail(true, &file), Some((3, 2, rgba)));
    assert_eq!(probe_thumbnail(false, &file), None);
    assert_eq!(probe_thumbnail(true, &[]), None);
    assert_eq!(probe_thumbnail(true, b"no picture"), None);
    assert_eq!(probe_thumbnail(true, &file[..20]), None);
    assert_eq!(decode_picture(&[]), None);
}

#[test]
fn previews_of_pictures() {
    // A wide picture, left half red and right half blue, half transparent.
    let mut rgba = Vec::new();
    for _ in 0..320 {
        for x in 0..640 {
            rgba.extend_from_slice(if x < 320 { &[200, 0, 0, 128] } else { &[0, 0, 100, 128] });
        }
    }
    let (w, h, small) = picture_preview(&rgba, 640, 320, false).unwrap();
    assert_eq!((w, h, small.len()), (320, 160, 320 * 160 * 4));
    assert_eq!(small[..4], [200, 0, 0, 128]);
    assert_eq!(small[319 * 4..320 * 4], [0, 0, 100, 128]);
    let (_, _, opaque) = picture_preview(&rgba, 640, 320, true).unwrap();
    assert_eq!(opaque[..4], [200, 0, 0, 255]);
    // A tall picture, a small one, and one without pixels.
    assert_eq!(picture_preview(&vec![9; 400 * 800 * 4], 400, 800, false).map(|p| (p.0, p.1)), Some((160, 320)));
    let (w, h, grown) = picture_preview(&[255; 2 * 2 * 4], 2, 2, true).unwrap();
    assert_eq!((w, h), (320, 320));
    assert!(grown.chunks_exact(4).all(|p| p[3] == 255));
    assert_eq!(picture_preview(&[], 0, 0, false).map(|p| (p.0, p.1)), Some((1, 1)));
    // A buffer that does not fit.
    assert_eq!(picture_preview(&[0; 15], 2, 2, false), None);
    assert_eq!(finish_preview(vec![1, 2, 3, 4, 5, 6, 7, 8], true), [1, 2, 3, 255, 5, 6, 7, 255]);
    assert_eq!(finish_preview(vec![1, 2, 3, 4], false), [1, 2, 3, 4]);
    assert_eq!(drop_alpha(&[1, 2, 3, 4, 5, 6, 7, 8, 9]), [1, 2, 3, 5, 6, 7]);
}

// ---------------------------------------------------------------------------------------------
// Benchmarks.
// ---------------------------------------------------------------------------------------------

#[test]
fn the_pattern_is_a_gradient() {
    let (w, h) = (6usize, 5usize);
    let p = generate_pattern(w, h);
    for y in 0..h {
        for x in 0..w {
            let at = (y * w + x) * 4;
            assert_eq!(p[at], ((x * 255) / w) as u8);
            assert_eq!(p[at + 1], ((y * 255) / h) as u8);
            assert_eq!(p[at + 2], (((x + y) * 128) / (w + h)) as u8);
            assert_eq!(p[at + 3], 255);
        }
    }
    assert_eq!(generate_pattern(0, 3), Vec::<u8>::new());
}

#[test]
fn the_suite_has_four_tests() {
    let mut names = Vec::new();
    let mut test = Some(BenchmarkTest::HdDecode);
    while let Some(t) = test {
        names.push((t.name(), t.rounds(), t.size(), t.chunks()));
        test = t.next();
    }
    assert_eq!(
        names,
        vec![
            ("1080p Hap Q Decode", 60, (1920, 1080), 4),
            ("4K UHD Hap Q CPU Decode", 20, (3840, 2160), 8),
            ("1080p Ingest Encode", 30, (1920, 1080), 4),
            ("Texture Streaming", 120, (1920, 1080), 4),
        ]
    );
    assert_eq!(BenchmarkTest::UhdDecode.bytes_per_round(5), 3840 * 2160 * 4);
    assert_eq!(BenchmarkTest::HdEncode.bytes_per_round(5), 1920 * 1080 * 4);
    assert_eq!(BenchmarkTest::TextureStreaming.bytes_per_round(5), 5);
}

#[test]
fn speeds_have_names() {
    assert_eq!(rate_decode_fps(240, false), "Elite (240+ FPS)");
    assert_eq!(rate_decode_fps(239, false), "High (120+ FPS)");
    assert_eq!(rate_decode_fps(60, false), "Smooth (60+ FPS)");
    assert_eq!(rate_decode_fps(59, false), "Standard");
    assert_eq!(rate_decode_fps(120, true), "Elite (120+ FPS)");
    assert_eq!(rate_decode_fps(60, true), "Broadcast (60+ FPS)");
    assert_eq!(rate_decode_fps(30, true), "Smooth (30+ FPS)");
    assert_eq!(rate_decode_fps(29, true), "Entry-Level");
    assert_eq!(BenchmarkTest::HdEncode.rating(60), "Broadcast (60+ FPS)");
    assert_eq!(BenchmarkTest::HdEncode.rating(30), "Real-Time (30+ FPS)");
    assert_eq!(BenchmarkTest::HdEncode.rating(0), "Near Real-Time");
    assert_eq!(BenchmarkTest::TextureStreaming.rating(0), "Ultra (>500 FPS)");
    assert_eq!(BenchmarkTest::UhdDecode.rating(60), "Broadcast (60+ FPS)");
    assert_eq!(speed_class(120), SpeedClass::Excellent);
    assert_eq!(speed_class(119), SpeedClass::Good);
    assert_eq!(speed_class(59), SpeedClass::Fair);
    assert_eq!(speed_class(29), SpeedClass::Poor);
}

#[test]
fn rounds_run() {
    let data = prepare(BenchmarkTest::HdDecode).unwrap();
    assert_eq!(data.picture.len(), 1920 * 1080 * 4);
    assert!(run_round(BenchmarkTest::HdDecode, &data).is_ok());
    assert!(run_round(BenchmarkTest::TextureStreaming, &data).is_ok());
    let broken = BenchmarkData { picture: vec![1], packet: vec![] };
    assert!(matches!(run_round(BenchmarkTest::HdDecode, &broken), Err(RoundError::Decoding(_))));
    assert!(matches!(run_round(BenchmarkTest::HdEncode, &broken), Err(RoundError::Encoding(_))));
    assert!(run_round(BenchmarkTest::TextureStreaming, &broken).is_ok());
}

// ---------------------------------------------------------------------------------------------
// Graphics cards.
// ---------------------------------------------------------------------------------------------

#[test]
fn plans_for_graphics_cards() {
    let plan = GpuPlan::new(16, 8).unwrap();
    assert_eq!((plan.blocks_x, plan.blocks_y, plan.input_size, plan.output_size), (4, 2, 512, 128));
    let job = plan.job(512, HapFormat::Hap1).unwrap();
    assert_eq!((job.pipeline, job.output_len), (GpuPipeline::Bc1, 64));
    let job = plan.job(512, HapFormat::HapY).unwrap();
    assert_eq!((job.pipeline, job.output_len), (GpuPipeline::YcocgBc3, 128));
    assert_eq!(plan.job(512, HapFormat::HapA).unwrap().pipeline, GpuPipeline::Bc4);
    assert_eq!(plan.job(512, HapFormat::Hap7).unwrap().pipeline, GpuPipeline::Bc7);
    assert_eq!(plan.job(512, HapFormat::Hap5).unwrap().pipeline, GpuPipeline::Bc3);
    assert!(matches!(plan.job(512, HapFormat::HapM), Err(GpuCompressError::UnsupportedFormat(HapFormat::HapM))));
    assert!(matches!(
        plan.job(511, HapFormat::HapM),
        Err(GpuCompressError::InputSizeMismatch { expected: 512, actual: 511 })
    ));
    for (w, h) in [(0, 4), (4, 0), (6, 4), (4, 9)] {
        assert!(matches!(GpuPlan::new(w, h), Err(GpuCompressError::InvalidDimensions { .. })));
    }
    assert_eq!(pixel_rows(100, 50), RowLayout { bytes_per_row: 400, rows: 50 });
    assert_eq!(block_rows(16, 8, HapFormat::Hap7), RowLayout { bytes_per_row: 64, rows: 2 });
    assert_eq!(block_rows(16, 8, HapFormat::Hap1), RowLayout { bytes_per_row: 32, rows: 2 });
    assert_eq!(with_refit("fn a() {}", "fn b() {}"), "fn a() {}\nfn b() {}");
}
