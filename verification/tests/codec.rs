//! Frames, blocks, sections and chunks.

use hap::bc7::{compress_bc7, compress_bc7_with_refinement, decompress_bc7};
use hap::color::{preprocess_rgba, LIMITED_TO_FULL_LUT};
use hap::dxt::{compress_bc1, compress_bc3, decompress_bc1, decompress_bc3};
use hap::snappy::{
    compress_chunks_parallel, compress_snappy, decompress_chunks_parallel, decompress_snappy,
};
use hap::ycocg::{
    rgb_to_ycocg, rgba_to_scaled_ycocg_dxt5_input, scaled_ycocg_dxt5_output_to_rgba, ycocg_to_rgb,
};
use hap::{
    decode_frame_to_rgba, decode_frame_to_texture, encode_frame, encode_frame_with_options,
    AlphaMode, ChunkInfo, ColorRange, DecodeInstructions, DitherMode, EncodeOptions, HapFormat,
    QualityPreset, SectionHeader,
};

fn generate_test_pattern(width: usize, height: usize, with_alpha: bool) -> Vec<u8> {
    let mut buf = vec![0u8; width * height * 4];
    for y in 0..height {
        for x in 0..width {
            let idx = (y * width + x) * 4;
            buf[idx] = ((x * 255) / width) as u8;
            buf[idx + 1] = ((y * 255) / height) as u8;
            buf[idx + 2] = (((x + y) * 128) / (width + height)) as u8;
            buf[idx + 3] = if with_alpha { ((x * 255) / width) as u8 } else { 255 };
        }
    }
    buf
}

#[test]
fn test_hap1_roundtrip() {
    let (w, h) = (16, 16);
    let rgba = generate_test_pattern(w, h, false);
    let packet = encode_frame(&rgba, w, h, HapFormat::Hap1, 1, true).unwrap();
    let decoded = decode_frame_to_rgba(&packet, w, h).unwrap();
    assert_eq!(decoded.len(), rgba.len());
}

#[test]
fn test_hap5_roundtrip() {
    let (w, h) = (16, 16);
    let rgba = generate_test_pattern(w, h, true);
    let packet = encode_frame(&rgba, w, h, HapFormat::Hap5, 1, true).unwrap();
    let decoded = decode_frame_to_rgba(&packet, w, h).unwrap();
    assert_eq!(decoded.len(), rgba.len());
}

#[test]
fn test_hapy_roundtrip() {
    let (w, h) = (16, 16);
    let rgba = generate_test_pattern(w, h, false);
    let packet = encode_frame(&rgba, w, h, HapFormat::HapY, 1, true).unwrap();
    let decoded = decode_frame_to_rgba(&packet, w, h).unwrap();
    assert_eq!(decoded.len(), rgba.len());
}

#[test]
fn test_hapr_bc7_roundtrip() {
    let (w, h) = (16, 16);
    let rgba = generate_test_pattern(w, h, true);
    let packet = encode_frame(&rgba, w, h, HapFormat::Hap7, 1, true).unwrap();
    let decoded = decode_frame_to_rgba(&packet, w, h).unwrap();
    assert_eq!(decoded.len(), rgba.len());
}

#[test]
fn test_hapm_q_alpha_roundtrip() {
    let (w, h) = (16, 16);
    let rgba = generate_test_pattern(w, h, true);
    let packet = encode_frame(&rgba, w, h, HapFormat::HapM, 1, true).unwrap();
    let decoded = decode_frame_to_rgba(&packet, w, h).unwrap();
    assert_eq!(decoded.len(), rgba.len());
}

#[test]
fn test_chunked_multi_thread_roundtrip() {
    let (w, h) = (32, 32);
    let rgba = generate_test_pattern(w, h, true);
    let packet = encode_frame(&rgba, w, h, HapFormat::Hap5, 4, true).unwrap();
    let decoded = decode_frame_to_rgba(&packet, w, h).unwrap();
    assert_eq!(decoded.len(), rgba.len());
}

#[test]
fn packing_keeps_the_texture() {
    let (w, h) = (24, 16);
    let rgba = generate_test_pattern(w, h, true);
    let formats = [
        HapFormat::Hap1,
        HapFormat::Hap5,
        HapFormat::HapY,
        HapFormat::HapM,
        HapFormat::HapA,
        HapFormat::Hap7,
    ];
    for format in formats {
        let plain = encode_frame(&rgba, w, h, format, 1, false).unwrap();
        let want = decode_frame_to_texture(&plain).unwrap();
        let alpha = want.alpha_bytes.as_ref().map(|a| a.len()).unwrap_or(0);
        assert_eq!(want.texture_bytes.len() + alpha, (w / 4) * (h / 4) * format.bytes_per_block());
        let pixels = decode_frame_to_rgba(&plain, w, h).unwrap();
        assert_eq!(pixels.len(), w * h * 4);
        for (chunks, snappy) in [(0, true), (1, true), (2, false), (3, true), (11, false), (500, true)] {
            let packet = encode_frame(&rgba, w, h, format, chunks, snappy).unwrap();
            let texture = decode_frame_to_texture(&packet).unwrap();
            assert_eq!(texture.format, format);
            assert_eq!(texture.texture_bytes, want.texture_bytes);
            assert_eq!(texture.alpha_bytes, want.alpha_bytes);
            assert_eq!(decode_frame_to_rgba(&packet, w, h).unwrap(), pixels);
        }
    }
}

#[test]
fn opaque_pictures_stay_opaque() {
    let (w, h) = (32, 16);
    for with_alpha in [false, true] {
        let rgba = generate_test_pattern(w, h, with_alpha);
        for quality in [QualityPreset::Draft, QualityPreset::Production] {
            let opts = EncodeOptions {
                format: HapFormat::Hap7,
                chunk_count: 2,
                use_snappy: true,
                color_range: ColorRange::Limited,
                alpha_mode: if with_alpha { AlphaMode::Discard } else { AlphaMode::Straight },
                dither_mode: DitherMode::Off,
                quality,
            };
            let packet = encode_frame_with_options(&rgba, w, h, &opts).unwrap();
            let decoded = decode_frame_to_rgba(&packet, w, h).unwrap();
            assert!(decoded.chunks_exact(4).all(|p| p[3] == 255));
        }
        // A channel at one odd level in a whole block keeps it, with any number of rounds.
        let mut green = rgba.clone();
        green.chunks_exact_mut(4).for_each(|p| p[1] = 77);
        for rounds in 0..4 {
            let blocks = compress_bc7_with_refinement(&green, w, h, rounds).unwrap();
            let decoded = decompress_bc7(&blocks, w, h).unwrap();
            assert!(decoded.chunks_exact(4).all(|p| p[1] == 77));
        }
    }
}

#[test]
fn test_encode_frame_with_professional_options() {
    let (w, h) = (16, 16);
    let rgba = generate_test_pattern(w, h, true);

    let opts = EncodeOptions {
        format: HapFormat::HapY,
        chunk_count: 2,
        use_snappy: true,
        color_range: ColorRange::Limited,
        alpha_mode: AlphaMode::Premultiply,
        dither_mode: DitherMode::Bayer4x4,
        quality: QualityPreset::Draft,
    };
    let packet = encode_frame_with_options(&rgba, w, h, &opts).unwrap();
    let decoded = decode_frame_to_rgba(&packet, w, h).unwrap();
    assert_eq!(decoded.len(), rgba.len());

    let opts_bc7 = EncodeOptions {
        format: HapFormat::Hap7,
        chunk_count: 1,
        use_snappy: true,
        color_range: ColorRange::Full,
        alpha_mode: AlphaMode::Discard,
        dither_mode: DitherMode::Off,
        quality: QualityPreset::Production,
    };
    let packet_bc7 = encode_frame_with_options(&rgba, w, h, &opts_bc7).unwrap();
    let decoded_bc7 = decode_frame_to_rgba(&packet_bc7, w, h).unwrap();
    assert_eq!(decoded_bc7.len(), rgba.len());
    for p in decoded_bc7.chunks_exact(4) {
        assert_eq!(p[3], 255);
    }
}

#[test]
fn test_bc7_mode6_roundtrip() {
    let width = 8;
    let height = 8;
    let mut rgba = vec![0u8; width * height * 4];
    for i in 0..(width * height) {
        rgba[i * 4] = 200;
        rgba[i * 4 + 1] = 100;
        rgba[i * 4 + 2] = 50;
        rgba[i * 4 + 3] = 255;
    }

    let compressed = compress_bc7(&rgba, width, height).unwrap();
    assert_eq!(compressed.len(), (width * height / 16) * 16);

    let decompressed = decompress_bc7(&compressed, width, height).unwrap();
    assert_eq!(decompressed.len(), rgba.len());

    for i in 0..(width * height) {
        let dr = (rgba[i * 4] as i32 - decompressed[i * 4] as i32).abs();
        let dg = (rgba[i * 4 + 1] as i32 - decompressed[i * 4 + 1] as i32).abs();
        let db = (rgba[i * 4 + 2] as i32 - decompressed[i * 4 + 2] as i32).abs();
        assert!(dr <= 10, "dr: {}", dr);
        assert!(dg <= 10, "dg: {}", dg);
        assert!(db <= 10, "db: {}", db);
    }
}

#[test]
fn test_limited_range_expansion() {
    assert_eq!(LIMITED_TO_FULL_LUT[16], 0);
    assert_eq!(LIMITED_TO_FULL_LUT[235], 255);
    assert_eq!(LIMITED_TO_FULL_LUT[0], 0);
    assert_eq!(LIMITED_TO_FULL_LUT[255], 255);
    assert!((LIMITED_TO_FULL_LUT[125] as i32 - 127).abs() <= 1);
}

#[test]
fn test_alpha_premultiply_and_demultiply() {
    let input = vec![200u8, 100u8, 50u8, 128u8];
    let premul = preprocess_rgba(&input, 1, 1, ColorRange::Full, AlphaMode::Premultiply);
    assert!((premul[0] as i32 - 100).abs() <= 1);
    assert!((premul[1] as i32 - 50).abs() <= 1);
    assert!((premul[2] as i32 - 25).abs() <= 1);
    assert_eq!(premul[3], 128);

    let demul = preprocess_rgba(&premul, 1, 1, ColorRange::Full, AlphaMode::Demultiply);
    assert!((demul[0] as i32 - 200).abs() <= 2);
    assert!((demul[1] as i32 - 100).abs() <= 2);
    assert!((demul[2] as i32 - 50).abs() <= 2);
}

#[test]
fn test_alpha_discard() {
    let input = vec![120u8, 130u8, 140u8, 0u8];
    let result = preprocess_rgba(&input, 1, 1, ColorRange::Full, AlphaMode::Discard);
    assert_eq!(result[0], 120);
    assert_eq!(result[1], 130);
    assert_eq!(result[2], 140);
    assert_eq!(result[3], 255);
}

#[test]
fn test_bc1_roundtrip() {
    let width = 8;
    let height = 8;
    let mut rgba = vec![0u8; width * height * 4];
    for i in 0..(width * height) {
        rgba[i * 4] = (i * 4) as u8;
        rgba[i * 4 + 1] = 200;
        rgba[i * 4 + 2] = 50;
        rgba[i * 4 + 3] = 255;
    }

    let compressed = compress_bc1(&rgba, width, height).unwrap();
    assert_eq!(compressed.len(), (width * height / 16) * 8);

    let decompressed = decompress_bc1(&compressed, width, height).unwrap();
    assert_eq!(decompressed.len(), rgba.len());
}

#[test]
fn test_bc3_roundtrip() {
    let width = 8;
    let height = 8;
    let mut rgba = vec![0u8; width * height * 4];
    for i in 0..(width * height) {
        rgba[i * 4] = 100;
        rgba[i * 4 + 1] = 150;
        rgba[i * 4 + 2] = 200;
        rgba[i * 4 + 3] = (i * 3) as u8;
    }

    let compressed = compress_bc3(&rgba, width, height).unwrap();
    assert_eq!(compressed.len(), (width * height / 16) * 16);

    let decompressed = decompress_bc3(&compressed, width, height).unwrap();
    assert_eq!(decompressed.len(), rgba.len());
}

#[test]
fn test_4byte_header_roundtrip() {
    let mut buf = Vec::new();
    SectionHeader::write_header(0xBB, 12345, &mut buf);
    assert_eq!(buf.len(), 4);
    let parsed = SectionHeader::parse(&buf).unwrap();
    assert_eq!(parsed.header_size, 4);
    assert_eq!(parsed.section_type, 0xBB);
    assert_eq!(parsed.data_size, 12345);
}

#[test]
fn test_8byte_header_roundtrip() {
    let mut buf = Vec::new();
    let size = 20_000_000;
    SectionHeader::write_header(0xBC, size, &mut buf);
    assert_eq!(buf.len(), 8);
    assert_eq!(buf[0..3], [0, 0, 0]);
    let parsed = SectionHeader::parse(&buf).unwrap();
    assert_eq!(parsed.header_size, 8);
    assert_eq!(parsed.section_type, 0xBC);
    assert_eq!(parsed.data_size, size);
}

#[test]
fn test_decode_instructions_roundtrip() {
    let chunks = vec![
        ChunkInfo { offset: 0, size: 100, compressor: 0x0B },
        ChunkInfo { offset: 100, size: 150, compressor: 0x0B },
        ChunkInfo { offset: 250, size: 200, compressor: 0x0A },
    ];

    let instructions_payload = DecodeInstructions::build(&chunks);
    let parsed = DecodeInstructions::parse(&instructions_payload).unwrap();
    assert_eq!(parsed.chunks, chunks);
}

#[test]
fn test_snappy_single_roundtrip() {
    let original = b"The quick brown fox jumps over the lazy dog. 1234567890! Repeating pattern! Repeating pattern!";
    let compressed = compress_snappy(original).unwrap();
    assert!(!compressed.is_empty());
    let decompressed = decompress_snappy(&compressed).unwrap();
    assert_eq!(decompressed, original);
}

#[test]
fn test_snappy_chunked_parallel_roundtrip() {
    let mut original = Vec::with_capacity(65536);
    for i in 0..65536 {
        original.push((i % 256) as u8);
    }

    let (chunks, infos) = compress_chunks_parallel(&original, 4, true).unwrap();
    assert_eq!(chunks.len(), 4);
    assert_eq!(infos.len(), 4);

    let mut frame_payload = Vec::new();
    for chunk in &chunks {
        frame_payload.extend_from_slice(chunk);
    }

    let decompressed = decompress_chunks_parallel(&frame_payload, &infos).unwrap();
    assert_eq!(decompressed.len(), original.len());
    assert_eq!(decompressed, original);
}

#[test]
fn test_ycocg_lossless_roundtrip_approx() {
    let test_colors = [
        (255, 255, 255),
        (0, 0, 0),
        (128, 128, 128),
        (255, 0, 0),
        (0, 255, 0),
        (0, 0, 255),
        (255, 255, 0),
        (0, 255, 255),
        (255, 0, 255),
    ];

    for &(r, g, b) in &test_colors {
        let (y, co, cg) = rgb_to_ycocg(r, g, b);
        let (r2, g2, b2) = ycocg_to_rgb(y, co, cg);

        let dr = (r as i32 - r2 as i32).abs();
        let dg = (g as i32 - g2 as i32).abs();
        let db = (b as i32 - b2 as i32).abs();

        assert!(dr <= 2, "R difference too large: {} vs {}", r, r2);
        assert!(dg <= 2, "G difference too large: {} vs {}", g, g2);
        assert!(db <= 2, "B difference too large: {} vs {}", b, b2);
    }
}

#[test]
fn test_scaled_ycocg_4x4_block_roundtrip() {
    let mut rgba = vec![0u8; 16 * 4];
    for i in 0..16 {
        rgba[i * 4] = (i * 15) as u8;
        rgba[i * 4 + 1] = 120;
        rgba[i * 4 + 2] = 200;
        rgba[i * 4 + 3] = 255;
    }

    let mut ycocg_buf = vec![0u8; 16 * 4];
    rgba_to_scaled_ycocg_dxt5_input(&rgba, 4, 4, &mut ycocg_buf);

    let mut restored = vec![0u8; 16 * 4];
    scaled_ycocg_dxt5_output_to_rgba(&ycocg_buf, 4, 4, &mut restored);

    for i in 0..16 {
        let dr = (rgba[i * 4] as i32 - restored[i * 4] as i32).abs();
        let dg = (rgba[i * 4 + 1] as i32 - restored[i * 4 + 1] as i32).abs();
        let db = (rgba[i * 4 + 2] as i32 - restored[i * 4 + 2] as i32).abs();
        assert!(dr <= 2, "Pixel {} dr: {}", i, dr);
        assert!(dg <= 2, "Pixel {} dg: {}", i, dg);
        assert!(db <= 2, "Pixel {} db: {}", i, db);
    }
}
