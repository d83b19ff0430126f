//! Movies: writing, reading and inspecting.

use hap::inspector::{inspect_packet, savings_percent, texture_type_name};
use hap::job::{EncodeJob, JobError};
use hap::mov::atoms::{create_atom, find_atoms, write_atom_header, ATOM_FTYP, ATOM_MOOV, ATOM_TRAK};
use hap::mov::reader::{scan_step, FrameRate, MovieDuration, ScanStep};
use hap::mov::writer::put_tail;
use hap::single::Single;
use hap::{
    audit_hap_stream, decode_frame_to_rgba, encode_frame, extract_stream_summary, AlphaMode,
    ColorRange, DitherMode, EncodeOptions, FaultSeverity, HapFormat, MovReaderError, MovWriterError,
    QtHapReader, QtHapWriter, QualityPreset, StreamFault, VideoConfig,
};

fn generate_test_pattern(width: usize, height: usize, with_alpha: bool) -> Vec<u8> {
    let mut buf = vec![0u8; width * height * 4];
    for y in 0..height {
        for x in 0..width {
            let idx = (y * width + x) * 4;
            buf[idx] = ((x * 255) / width) as u8;
            buf[idx + 1] = ((y * 255) / height) as u8;
            buf[idx + 2] = (((x + y) * 128) / (width + height)) as u8;
            buf[idx + 3] = if with_alpha { ((x * 255) / width) as u8 } else { 255 };
        }
    }
    buf
}

/// The bytes of a movie of the given frames.
fn movie_file(config: VideoConfig, frames: &[Vec<u8>]) -> Vec<u8> {
    let (mut writer, mut file) = QtHapWriter::create(config).unwrap();
    for f in frames {
        writer.write_frame(f).unwrap();
        file.extend_from_slice(f);
    }
    let tail = writer.finalize().unwrap();
    put_tail(&file, &tail)
}

fn rate(fps: f32) -> Single {
    Single::from_bits(fps.to_bits())
}

fn stored_rate(reader: &QtHapReader) -> f32 {
    match reader.fps() {
        FrameRate::Stored(s) => f32::from_bits(s.to_bits()),
        other => panic!("no stored rate: {:?}", other),
    }
}

#[test]
fn test_mov_full_container_roundtrip() {
    let (w, h) = (16, 16);
    let rgba = generate_test_pattern(w, h, false);

    let config = VideoConfig::new(w as u32, h as u32, rate(30.0), HapFormat::HapY);
    let mut frames = Vec::new();
    for _ in 0..3 {
        frames.push(encode_frame(&rgba, w, h, HapFormat::HapY, 1, true).unwrap());
    }
    let file = movie_file(config, &frames);

    let reader = QtHapReader::open(&file).unwrap();
    assert_eq!(reader.width(), w as u32);
    assert_eq!(reader.height(), h as u32);
    assert_eq!(reader.format(), HapFormat::HapY);
    assert_eq!(reader.frame_count(), 3);
    assert!((stored_rate(&reader) - 30.0).abs() < 0.1);

    for i in 0..3 {
        let packet = reader.read_frame_packet(&file, i).unwrap();
        assert_eq!(packet, frames[i]);
        let decoded = decode_frame_to_rgba(&packet, w, h).unwrap();
        assert_eq!(decoded.len(), rgba.len());
    }
}

#[test]
fn frame_rates_choose_timescales() {
    for (fps, scale, units) in [
        (29.97f32, 30000u32, 1001u32),
        (59.94, 60000, 1001),
        (23.976, 24000, 1001),
        (30.0, 30000, 1000),
        (25.0, 25000, 1000),
        (12.5, 12500, 1000),
    ] {
        let config = VideoConfig::new(64, 64, rate(fps), HapFormat::Hap1);
        assert_eq!(config.timescale, scale);
        assert_eq!(config.sample_duration(), units);
        let file = movie_file(config, &[vec![1, 2, 3]]);
        let reader = QtHapReader::open(&file).unwrap();
        assert_eq!(stored_rate(&reader), scale as f32 / units as f32);
        match reader.duration() {
            MovieDuration::Units { units: u, timescale } => {
                assert_eq!(u, units as u64);
                assert_eq!(timescale, scale);
            }
            other => panic!("{:?}", other),
        }
    }
}

#[test]
fn movies_begin_as_expected() {
    let config = VideoConfig::new(8, 8, rate(30.0), HapFormat::Hap5);
    let file = movie_file(config, &[vec![9; 10], vec![8; 5]]);
    assert_eq!(&file[..20], b"\x00\x00\x00\x14ftypqt  \x00\x00\x00\x00qt  ");
    assert_eq!(&file[20..28], b"\x00\x00\x00\x01mdat");
    assert_eq!(&file[28..36], &31u64.to_be_bytes());
    assert_eq!(&file[36..46], &[9; 10]);
    assert_eq!(&file[46..51], &[8; 5]);
    assert_eq!(&file[55..59], b"moov");
    assert_eq!(u32::from_be_bytes([file[51], file[52], file[53], file[54]]) as usize, file.len() - 51);
    let reader = QtHapReader::open(&file).unwrap();
    let places: Vec<(u64, usize)> = reader.samples().iter().map(|s| (s.offset, s.size)).collect();
    assert_eq!(places, vec![(36, 10), (46, 5)]);
}

#[test]
fn writers_refuse_what_is_no_video() {
    match QtHapWriter::create(VideoConfig::new(0, 8, rate(30.0), HapFormat::Hap1)) {
        Err(MovWriterError::InvalidConfig(m)) => assert_eq!(m, "Dimensions must be > 0"),
        _ => panic!(),
    }
    for fps in [0.0f32, -1.0, -0.0] {
        match QtHapWriter::create(VideoConfig::new(8, 8, rate(fps), HapFormat::Hap1)) {
            Err(MovWriterError::InvalidConfig(m)) => assert_eq!(m, "FPS must be > 0"),
            _ => panic!(),
        }
    }
    let (writer, _) = QtHapWriter::create(VideoConfig::new(8, 8, rate(30.0), HapFormat::Hap1)).unwrap();
    assert!(matches!(writer.finalize(), Err(MovWriterError::NoFramesWritten)));
}

#[test]
fn readers_refuse_what_is_no_movie() {
    assert_eq!(QtHapReader::open(&[]).err(), Some(MovReaderError::NoHapTrackFound));
    assert_eq!(QtHapReader::open(b"not a movie at all").err(), Some(MovReaderError::NoHapTrackFound));
    // A description that the file does not hold.
    let mut short = Vec::new();
    write_atom_header(ATOM_MOOV, 100, &mut short);
    assert_eq!(QtHapReader::open(&short).err(), Some(MovReaderError::UnexpectedEof));
    // A track without samples.
    let config = VideoConfig::new(8, 8, rate(30.0), HapFormat::Hap1);
    let file = movie_file(config, &[vec![1]]);
    let reader = QtHapReader::open(&file).unwrap();
    assert_eq!(
        reader.read_frame_packet(&file, 1).err(),
        Some(MovReaderError::FrameIndexOutOfBounds { index: 1, total: 1 })
    );
    assert_eq!(reader.read_frame_packet(&file[..36], 0).err(), Some(MovReaderError::UnexpectedEof));
    // The same file with another codec in its sample description.
    let mut foreign = file.clone();
    let at = foreign.windows(4).position(|w| w == b"stsd").unwrap();
    let code = foreign[at..].windows(4).position(|w| w == b"Hap1").unwrap() + at;
    foreign[code..code + 4].copy_from_slice(b"avc1");
    assert_eq!(QtHapReader::open(&foreign).err(), Some(MovReaderError::NoHapTrackFound));
    // And one whose sample table has no sizes.
    let mut empty = file.clone();
    let sizes = empty.windows(4).position(|w| w == b"stsz").unwrap();
    empty[sizes..sizes + 4].copy_from_slice(b"skip");
    assert_eq!(
        QtHapReader::open(&empty).err(),
        Some(MovReaderError::InvalidFile("No video samples found".to_string()))
    );
}

#[test]
fn atoms_are_found_again() {
    let mut buf = create_atom(ATOM_FTYP, b"abc");
    buf.extend_from_slice(&create_atom(ATOM_TRAK, b""));
    assert_eq!(&buf[..11], b"\x00\x00\x00\x0bftypabc");
    let found = find_atoms(&buf);
    assert_eq!(found.len(), 2);
    // A size of 0 reaches to the end, one past the end ends the search.
    let mut open = vec![0, 0, 0, 0];
    open.extend_from_slice(b"trakxyz");
    assert_eq!(find_atoms(&open).len(), 1);
    let mut long = vec![0, 0, 0, 99];
    long.extend_from_slice(b"trakxyz");
    assert_eq!(find_atoms(&long).len(), 0);
}

#[test]
fn files_are_scanned_by_their_heads() {
    let mut head = Vec::new();
    write_atom_header(ATOM_FTYP, 20, &mut head);
    head.extend_from_slice(&[0; 8]);
    assert_eq!(scan_step(&head, 0, 100), ScanStep::Next(20));
    let mut moov = Vec::new();
    write_atom_header(ATOM_MOOV, 60, &mut moov);
    moov.extend_from_slice(&[0; 8]);
    assert_eq!(scan_step(&moov, 20, 100), ScanStep::Moov { start: 28, len: 52 });
    let mut wide = Vec::new();
    write_atom_header(ATOM_FTYP, 1, &mut wide);
    wide.extend_from_slice(&40u64.to_be_bytes());
    assert_eq!(scan_step(&wide, 8, 100), ScanStep::Next(48));
    assert_eq!(scan_step(&[], 100, 100), ScanStep::Stop);
}

#[test]
fn several_samples_share_a_chunk() {
    // One chunk of two samples: the sample table of a movie is rewritten by hand.
    let config = VideoConfig::new(8, 8, rate(30.0), HapFormat::Hap1);
    let mut file = movie_file(config, &[vec![1, 1], vec![2, 2, 2]]);
    let at = file.windows(4).position(|w| w == b"stsc").unwrap();
    // version, count, first chunk, samples per chunk
    file[at + 4 + 8 + 4 + 3] = 2;
    let reader = QtHapReader::open(&file).unwrap();
    let places: Vec<(u64, usize)> = reader.samples().iter().map(|s| (s.offset, s.size)).collect();
    assert_eq!(places, vec![(36, 2), (38, 3)]);
}

#[test]
fn test_stream_fault_severity() {
    let fault = StreamFault {
        check_name: "Test",
        severity: FaultSeverity::Passed,
        message: "OK".into(),
        recommendation: None,
    };
    assert_eq!(fault.severity.label(), "PASS");
    assert_eq!(FaultSeverity::Warning.label(), "WARN");
    assert_eq!(FaultSeverity::Critical.label(), "FAIL");
}

#[test]
fn sound_movies_pass_the_audit() {
    let (w, h) = (16, 16);
    let rgba = generate_test_pattern(w, h, true);
    for format in [HapFormat::Hap1, HapFormat::Hap5, HapFormat::HapY, HapFormat::HapM, HapFormat::HapA, HapFormat::Hap7] {
        for chunks in [1, 3] {
            let packet = encode_frame(&rgba, w, h, format, chunks, true).unwrap();
            let config = VideoConfig::new(w as u32, h as u32, rate(30.0), format);
            let file = movie_file(config, &[packet.clone(), packet]);
            let reader = QtHapReader::open(&file).unwrap();
            let audit = audit_hap_stream(&reader, &file, 10);
            assert!(audit.is_clean, "{:?}", audit);
            assert_eq!(audit.frames_scanned, 2);
            assert_eq!(audit.checks.len(), 5);
            assert!(!audit.has_critical_errors());
            assert!(!audit.has_warnings());
            assert_eq!(
                audit.checks[0].message,
                "Resolution 16x16 perfectly aligns with standard 4x4 GPU texture blocks."
            );
        }
    }
}

#[test]
fn audits_find_faults() {
    let config = VideoConfig::new(4096, 2160, rate(30.0), HapFormat::HapY);
    let good = encode_frame(&generate_test_pattern(16, 16, false), 16, 16, HapFormat::HapY, 1, true).unwrap();
    // A frame whose snappy data are cut, a frame without a header, and a large picture in one chunk.
    let mut cut = good.clone();
    cut.truncate(good.len() - 3);
    let file = movie_file(config, &[good.clone(), cut, vec![0, 1]]);
    let reader = QtHapReader::open(&file).unwrap();
    let audit = audit_hap_stream(&reader, &file, 100);
    assert!(!audit.is_clean);
    assert!(audit.has_critical_errors());
    assert!(audit.has_warnings());
    assert_eq!(audit.checks[2].message, "1 of 3 scanned frames failed Snappy decompression.");
    assert_eq!(audit.checks[3].message, "2 frames had truncated or mismatched payload headers.");
    assert_eq!(audit.checks[4].severity, FaultSeverity::Warning);
    // A file that ends too soon.
    let short = audit_hap_stream(&reader, &file[..40], 100);
    assert_eq!(short.checks[2].message, "Failed reading frame 0: IO error: failed to fill whole buffer");
    assert_eq!(short.checks[2].severity, FaultSeverity::Critical);
    // Dimensions that are not whole blocks, in an experimental format.
    let odd = VideoConfig::new(10, 8, rate(30.0), HapFormat::HapH);
    let file = movie_file(odd, &[good]);
    let reader = QtHapReader::open(&file).unwrap();
    let audit = audit_hap_stream(&reader, &file, 0);
    assert_eq!(audit.frames_scanned, 0);
    assert_eq!(audit.checks[0].severity, FaultSeverity::Critical);
    assert_eq!(
        audit.checks[0].message,
        "Resolution 10x8 is not divisible by 4. Hardware decoders and media servers will crash or show diagonal shear."
    );
    assert_eq!(audit.checks[1].severity, FaultSeverity::Warning);
    assert_eq!(audit.checks[1].message, "Non-standard or experimental FourCC 'HapH'.");
}

#[test]
fn summaries_count_bytes() {
    let config = VideoConfig::new(16, 8, rate(30.0), HapFormat::HapM);
    let file = movie_file(config, &[vec![1; 10], vec![2; 25], vec![3; 4]]);
    let reader = QtHapReader::open(&file).unwrap();
    let s = extract_stream_summary(&reader, None, file.len() as u64);
    assert_eq!(s.format, HapFormat::HapM);
    assert_eq!(&s.fourcc, b"HapM");
    assert_eq!((s.width, s.height, s.frame_count), (16, 8, 3));
    assert_eq!((s.total_frame_bytes, s.avg_frame_bytes), (39, 13));
    assert_eq!((s.min_frame_bytes, s.max_frame_bytes), (4, 25));
    assert_eq!(s.uncompressed_frame_bytes, 16 * 8 * 4);
    assert_eq!(s.savings_percent.to_bits(), ((1.0f32 - 13.0 / 512.0) * 100.0).to_bits());
    assert_eq!(savings_percent(7, 0).to_bits(), 0);
    assert_eq!(savings_percent(30, 10).to_bits(), (-200.0f32).to_bits());
    assert_eq!((s.chunk_count, s.uses_snappy, s.has_alpha), (1, false, true));
    assert_eq!(s.texture_type_name, "Dual-Stream YCoCg-DXT5 + BC4 Alpha");
    assert_eq!(texture_type_name(HapFormat::Hap1), "BC1 / DXT1 (RGB 24-bit)");
}

#[test]
fn packets_tell_their_compression() {
    let rgba = generate_test_pattern(16, 16, false);
    let snappy = encode_frame(&rgba, 16, 16, HapFormat::Hap1, 1, true).unwrap();
    assert_eq!(inspect_packet(&snappy), (1, true));
    let plain = encode_frame(&rgba, 16, 16, HapFormat::Hap1, 1, false).unwrap();
    assert_eq!(inspect_packet(&plain), (1, false));
    assert_eq!(inspect_packet(&[]), (1, false));
    let formats = [
        HapFormat::Hap1,
        HapFormat::Hap5,
        HapFormat::HapY,
        HapFormat::HapM,
        HapFormat::HapA,
        HapFormat::Hap7,
    ];
    for format in formats {
        for chunks in [1, 2, 4, 7] {
            for snappy in [false, true] {
                let packet = encode_frame(&rgba, 16, 16, format, chunks, snappy).unwrap();
                assert_eq!(inspect_packet(&packet), (chunks, snappy), "{:?}", format);
            }
        }
    }
    let packet = encode_frame(&rgba, 16, 16, HapFormat::HapY, 4, true).unwrap();
    let file = movie_file(VideoConfig::new(16, 16, rate(30.0), HapFormat::HapY), &[packet.clone()]);
    let reader = QtHapReader::open(&file).unwrap();
    let summary = extract_stream_summary(&reader, Some(&packet), file.len() as u64);
    assert_eq!((summary.chunk_count, summary.uses_snappy), (4, true));
    // One chunk of two is compressed; and a table of chunks that cannot be read.
    let tables = [2, 0, 0, 2, 0x0A, 0x0B, 8, 0, 0, 3, 1, 0, 0, 0, 1, 0, 0, 0];
    let mut mixed = vec![24, 0, 0, 0xCB, 18, 0, 0, 1];
    mixed.extend_from_slice(&tables);
    mixed.extend_from_slice(&[9, 9]);
    assert_eq!(inspect_packet(&mixed), (2, true));
    assert_eq!(inspect_packet(&mixed[..12]), (1, false));
}

#[test]
fn chunked_4k_movies_pass_the_audit() {
    let rgba = generate_test_pattern(16, 16, false);
    for format in [HapFormat::HapY, HapFormat::HapM, HapFormat::Hap1] {
        let config = VideoConfig::new(3840, 2160, rate(30.0), format);
        let packet = encode_frame(&rgba, 16, 16, format, 8, true).unwrap();
        let file = movie_file(config, &[packet.clone(), packet]);
        let reader = QtHapReader::open(&file).unwrap();
        let audit = audit_hap_stream(&reader, &file, 10);
        assert!(audit.is_clean, "{:?}", audit);
        assert_eq!(audit.checks[4].severity, FaultSeverity::Passed);
        let whole = encode_frame(&rgba, 16, 16, format, 1, true).unwrap();
        let file = movie_file(config, &[whole]);
        let reader = QtHapReader::open(&file).unwrap();
        let audit = audit_hap_stream(&reader, &file, 10);
        assert!(!audit.is_clean);
        assert_eq!(audit.checks[4].severity, FaultSeverity::Warning);
    }
}

fn options(format: HapFormat) -> EncodeOptions {
    EncodeOptions {
        format,
        chunk_count: 2,
        use_snappy: true,
        color_range: ColorRange::Full,
        alpha_mode: AlphaMode::Straight,
        dither_mode: DitherMode::Off,
        quality: QualityPreset::Production,
    }
}

#[test]
fn jobs_make_movies() {
    let (w, h) = (32, 16);
    let (mut job, mut file) = EncodeJob::start(options(HapFormat::Hap7), rate(25.0), w, h, 4).unwrap();
    let rgba = generate_test_pattern(w, h, true);
    let mut packets = Vec::new();
    for _ in 0..2 {
        let p = job.frame(&rgba).unwrap();
        file.extend_from_slice(&p);
        packets.push(p);
    }
    assert!(matches!(job.frame(&rgba[1..]), Err(JobError::Encoding(_))));
    assert_eq!(job.done(), 2);
    assert_eq!(f32::from_bits(job.percent().to_bits()), 50.0);
    let blocks = vec![0x55u8; 8 * 4 * 16];
    let packed = job.texture_frame(&blocks).unwrap();
    file.extend_from_slice(&packed);
    assert_eq!(f32::from_bits(job.live_percent().to_bits()), 75.0);
    let tail = job.finish().unwrap();
    let file = put_tail(&file, &tail);
    let reader = QtHapReader::open(&file).unwrap();
    assert_eq!((reader.width(), reader.height(), reader.frame_count()), (32, 16, 3));
    assert_eq!(stored_rate(&reader), 25.0);
    assert_eq!(reader.read_frame_packet(&file, 1).unwrap(), packets[1]);
    let texture = hap::decode_frame_to_texture(&reader.read_frame_packet(&file, 2).unwrap()).unwrap();
    assert_eq!(texture.texture_bytes, blocks);
    assert_eq!(texture.format, HapFormat::Hap7);
}

#[test]
fn jobs_refuse_what_they_cannot_make() {
    assert!(matches!(
        EncodeJob::start(options(HapFormat::Hap1), rate(25.0), 10, 8, 1),
        Err(JobError::Dimensions { width: 10, height: 8 })
    ));
    assert!(matches!(
        EncodeJob::start(options(HapFormat::Hap1), rate(0.0), 8, 8, 1),
        Err(JobError::Movie(MovWriterError::InvalidConfig(_)))
    ));
    let (job, _) = EncodeJob::start(options(HapFormat::Hap1), rate(25.0), 8, 8, 0).unwrap();
    assert_eq!(f32::from_bits(job.live_percent().to_bits()), 0.0);
    assert!(matches!(job.finish(), Err(JobError::Movie(MovWriterError::NoFramesWritten))));
}
