//! Colour transforms, block formats and frames against the machine's own arithmetic, and the
//! errors that malformed input gives.

use hap::bc6h::{decompress_bc6h, to_bytes, Bc6hError};
use hap::bc7::{compress_bc7, compress_bc7_with_refinement, decompress_bc7, Bc7Error, WEIGHTS4};
use hap::blocks::block_row_line;
use hap::bytes::{
    push_be16, push_be32, push_be64, push_le32, read_be16, read_be32, read_be64, read_le32,
};
use hap::color::{preprocess_rgba, LIMITED_TO_FULL_LUT};
use hap::decoder::{set_alpha, splat_channel, unpack_section_payload};
use hap::dxt::{
    compress_bc1, compress_bc1_with_params, compress_bc3_with_params, compress_bc4, decompress_bc1,
    decompress_bc3, decompress_bc4, take_channel, ChannelWeights, ColourFit, CompressParams, DxtError,
};
use hap::encoder::pack_single_texture_frame;
use hap::header::HeaderError;
use hap::snappy::{
    compress_chunks_parallel, compress_snappy, decompress_chunks_parallel, decompress_snappy,
    join_parts, tabulate, SnappyError,
};
use hap::ycocg::{
    decode_scaled_ycocg_bc3_direct, restore, restored_block_line, rgb_to_ycocg,
    rgba_to_scaled_ycocg_dxt5_input, rgba_to_scaled_ycocg_dxt5_input_with_dither,
    scaled_ycocg_dxt5_output_to_rgba, ycocg_to_rgb,
};
use hap::{
    decode_frame_to_rgba, decode_frame_to_texture, encode_frame, AlphaMode, ChunkInfo, ColorRange,
    DecodeError, DecodeInstructions, EncodeError, HapFormat, SectionHeader,
};

/// Bytes that look random, the same on every run.
fn noise(count: usize, seed: u64) -> Vec<u8> {
    let mut state = seed;
    (0..count)
        .map(|_| {
            state = state.wrapping_mul(6364136223846793005).wrapping_add(1442695040888963407);
            (state >> 56) as u8
        })
        .collect()
}

/// An image of smooth colour with a little noise.
fn smooth(width: usize, height: usize, seed: u64) -> Vec<u8> {
    let grain = noise(width * height * 4, seed);
    (0..width * height * 4)
        .map(|i| {
            let (x, y, c) = ((i / 4) % width, i / 4 / width, i % 4);
            let base = match c {
                0 => 40 + x * 3,
                1 => 200 - y * 2,
                2 => 90 + x + y,
                _ => 250 - x,
            };
            (base as u8).wrapping_add(grain[i] % 5)
        })
        .collect()
}

// ---------------------------------------------------------------------------------------------
// Flavours.
// ---------------------------------------------------------------------------------------------

#[test]
fn flavours_have_codes() {
    let table = [
        (HapFormat::Hap1, b"Hap1", "Hap (Hap 1)", [0xAB, 0xBB, 0xCB], 8, false),
        (HapFormat::Hap5, b"Hap5", "Hap Alpha (Hap 5)", [0xAE, 0xBE, 0xCE], 16, true),
        (HapFormat::HapY, b"HapY", "Hap Q", [0xAF, 0xBF, 0xCF], 16, false),
        (HapFormat::HapM, b"HapM", "Hap Q Alpha", [0x0D, 0x0D, 0x0D], 24, true),
        (HapFormat::HapA, b"HapA", "Hap Alpha-Only", [0xA1, 0xB1, 0xC1], 8, true),
        (HapFormat::Hap7, b"Hap7", "Hap R (Hap 7 / BC7)", [0xAC, 0xBC, 0xCC], 16, true),
        (HapFormat::HapH, b"HapH", "Hap HDR (BC6H)", [0xA2, 0xB2, 0xC2], 16, false),
    ];
    assert_eq!(HapFormat::ALL.len(), table.len());
    for (i, (format, code, name, types, block, alpha)) in table.into_iter().enumerate() {
        assert_eq!(HapFormat::ALL[i], format);
        assert_eq!(&format.fourcc(), code);
        assert_eq!(format.fourcc_text().as_bytes(), code);
        assert_eq!(HapFormat::from_fourcc(code), Some(format));
        assert_eq!(format.name(), name);
        assert_eq!(format.uncompressed_type_byte(), types[0]);
        assert_eq!(format.snappy_type_byte(), types[1]);
        assert_eq!(format.chunked_type_byte(), types[2]);
        assert_eq!(format.bytes_per_block(), block);
        assert_eq!(format.has_alpha(), alpha);
        assert_eq!(format.bits_per_pixel(), if alpha { 32 } else { 24 });
        assert_eq!(format.is_hdr(), format == HapFormat::HapH);
    }
    assert_eq!(HapFormat::from_fourcc(b"HapR"), Some(HapFormat::Hap7));
    assert_eq!(HapFormat::from_fourcc(b"hapr"), Some(HapFormat::Hap7));
    assert_eq!(HapFormat::from_fourcc(b"hap1"), None);
    assert_eq!(HapFormat::from_fourcc(b"avc1"), None);
}

// ---------------------------------------------------------------------------------------------
// Luma and chroma.
// ---------------------------------------------------------------------------------------------

#[test]
fn luma_and_chroma_of_a_pixel() {
    assert_eq!(rgb_to_ycocg(255, 255, 255), (255, 128, 128));
    assert_eq!(rgb_to_ycocg(0, 0, 0), (0, 128, 128));
    assert_eq!(rgb_to_ycocg(255, 0, 0), (63, 255, 65));
    assert_eq!(rgb_to_ycocg(0, 0, 255), (63, 1, 65));
    assert_eq!(rgb_to_ycocg(0, 255, 0), (127, 128, 255));
    assert_eq!(ycocg_to_rgb(63, 255, 65), (253, 0, 0));
    assert_eq!(ycocg_to_rgb(200, 128, 128), (200, 200, 200));
    for r in (0..256).step_by(5) {
        for g in (0..256).step_by(5) {
            for b in (0..256).step_by(5) {
                let (y, co, cg) = rgb_to_ycocg(r as u8, g as u8, b as u8);
                let (r2, g2, b2) = ycocg_to_rgb(y, co, cg);
                assert!((r - r2 as i32).abs() <= 2 && (g - g2 as i32).abs() <= 2 && (b - b2 as i32).abs() <= 2);
            }
        }
    }
}

fn reference_scaled(rgba: &[u8], width: usize, height: usize, dither: bool) -> Vec<u8> {
    const BAYER: [[i32; 4]; 4] = [[0, 8, 2, 10], [12, 4, 14, 6], [3, 11, 1, 9], [15, 7, 13, 5]];
    let mut out = vec![0u8; rgba.len()];
    for by in 0..height / 4 {
        for bx in 0..width / 4 {
            let at = |i: usize| ((by * 4 + i / 4) * width + bx * 4 + i % 4) * 4;
            let co = |i: usize| (rgba[at(i)] as i32 - rgba[at(i) + 2] as i32) >> 1;
            let cg = |i: usize| {
                (-(rgba[at(i)] as i32) + 2 * rgba[at(i) + 1] as i32 - rgba[at(i) + 2] as i32) >> 2
            };
            let dev = (0..16).map(|i| co(i).abs().max(cg(i).abs())).max().unwrap();
            let (shift, mark) = if dev <= 31 { (2, 24) } else if dev <= 63 { (1, 8) } else { (0, 0) };
            for i in 0..16 {
                let d = if dither { (BAYER[i / 4][i % 4] * 2 - 15) / 8 } else { 0 };
                let p = at(i);
                out[p] = ((co(i) << shift) + 128 + d).clamp(0, 255) as u8;
                out[p + 1] = ((cg(i) << shift) + 128 + d).clamp(0, 255) as u8;
                out[p + 2] = mark;
                out[p + 3] =
                    ((rgba[p] as i32 + 2 * rgba[p + 1] as i32 + rgba[p + 2] as i32) >> 2) as u8;
            }
        }
    }
    out
}

#[test]
fn scaled_blocks_agree() {
    let (w, h) = (16usize, 12usize);
    for seed in 0..6 {
        for rgba in [noise(w * h * 4, seed), smooth(w, h, seed)] {
            for dither in [false, true] {
                let mut out = vec![0u8; rgba.len()];
                rgba_to_scaled_ycocg_dxt5_input_with_dither(&rgba, w, h, &mut out, dither);
                assert_eq!(out, reference_scaled(&rgba, w, h, dither));
            }
            let mut plain = vec![0u8; rgba.len()];
            rgba_to_scaled_ycocg_dxt5_input(&rgba, w, h, &mut plain);
            assert_eq!(plain, reference_scaled(&rgba, w, h, false));
        }
    }
}

fn reference_pixel(src: &[u8], by_product: bool) -> [u8; 4] {
    let scale = (src[2] / 8 + 1) as f32;
    let part = |v: u8| {
        if by_product {
            (v as f32 - 128.0) * (1.0 / scale)
        } else {
            (v as f32 - 128.0) / scale
        }
    };
    let (co, cg, y) = (part(src[0]), part(src[1]), src[3] as f32);
    [
        (y + co - cg).clamp(0.0, 255.0) as u8,
        (y + cg).clamp(0.0, 255.0) as u8,
        (y - co - cg).clamp(0.0, 255.0) as u8,
        255,
    ]
}

#[test]
fn restored_pixels_agree() {
    let (w, h) = (64usize, 64usize);
    let src = noise(w * h * 4, 3);
    let mut out = vec![0u8; src.len()];
    scaled_ycocg_dxt5_output_to_rgba(&src, w, h, &mut out);
    for p in 0..w * h {
        assert_eq!(out[p * 4..p * 4 + 4], reference_pixel(&src[p * 4..p * 4 + 4], false));
    }
}

#[test]
fn scaled_images_come_back() {
    let (w, h) = (32usize, 16usize);
    for seed in 0..4 {
        for rgba in [noise(w * h * 4, seed), smooth(w, h, seed)] {
            let mut scaled = vec![0u8; rgba.len()];
            rgba_to_scaled_ycocg_dxt5_input(&rgba, w, h, &mut scaled);
            let mut back = vec![0u8; rgba.len()];
            scaled_ycocg_dxt5_output_to_rgba(&scaled, w, h, &mut back);
            for p in 0..w * h {
                let change = |c: usize| back[p * 4 + c] as i32 - rgba[p * 4 + c] as i32;
                assert!((-1..=0).contains(&change(0)));
                assert!((-1..=0).contains(&change(1)));
                assert!((0..=1).contains(&change(2)));
                assert_eq!(back[p * 4 + 3], 255);
            }
        }
    }
}

#[test]
fn blocks_of_hap_q_agree() {
    let (w, h) = (32usize, 16usize);
    let blocks = noise(w * h, 11);
    let mut out = vec![0u8; w * h * 4];
    decode_scaled_ycocg_bc3_direct(&blocks, w, h, &mut out).unwrap();
    let mut block = [0u8; 64];
    for by in 0..h / 4 {
        for bx in 0..w / 4 {
            let at = (by * (w / 4) + bx) * 16;
            bcdec_rs::bc3(&blocks[at..at + 16], &mut block, 16);
            for i in 0..16 {
                let p = ((by * 4 + i / 4) * w + bx * 4 + i % 4) * 4;
                assert_eq!(out[p..p + 4], reference_pixel(&block[i * 4..i * 4 + 4], true));
            }
        }
    }
    assert_eq!(
        decode_scaled_ycocg_bc3_direct(&blocks, 30, 16, &mut out),
        Err(DxtError::InvalidDimensions { width: 30, height: 16 })
    );
    assert_eq!(
        decode_scaled_ycocg_bc3_direct(&blocks[1..], w, h, &mut out),
        Err(DxtError::BufferSizeMismatch { expected: 512, actual: 511 })
    );
}

// ---------------------------------------------------------------------------------------------
// BC7.
// ---------------------------------------------------------------------------------------------

fn level(ep: &[f32; 4]) -> ([u8; 4], u8) {
    let mut out = [0u8; 4];
    for c in 0..4 {
        out[c] = ((ep[c].round() as i32).clamp(0, 255) >> 1) as u8;
    }
    (out, ep.iter().any(|&v| (v.round() as i32) & 1 != 0) as u8)
}

fn closest(px: &[[u8; 4]; 16], e0: ([u8; 4], u8), e1: ([u8; 4], u8)) -> [u8; 16] {
    let mut out = [0u8; 16];
    for (i, p) in px.iter().enumerate() {
        let mut best = i32::MAX;
        for k in 0..16 {
            let w = WEIGHTS4[k] as i32;
            let mut dist = 0;
            for c in 0..4 {
                let a = ((e0.0[c] << 1) | e0.1) as i32;
                let b = ((e1.0[c] << 1) | e1.1) as i32;
                let d = p[c] as i32 - (((64 - w) * a + w * b + 32) >> 6);
                dist += d * d;
            }
            if dist < best {
                best = dist;
                out[i] = k as u8;
            }
        }
    }
    out
}

fn refit(px: &[[u8; 4]; 16], indices: &[u8; 16]) -> (([u8; 4], u8), ([u8; 4], u8)) {
    let (mut sw, mut sw2) = (0.0f32, 0.0f32);
    let (mut sp, mut spw) = ([0.0f32; 4], [0.0f32; 4]);
    for (i, p) in px.iter().enumerate() {
        let w = WEIGHTS4[indices[i] as usize] as f32 / 64.0;
        sw += w;
        sw2 += w * w;
        for c in 0..4 {
            sp[c] += p[c] as f32;
            spw[c] += p[c] as f32 * w;
        }
    }
    let n = 16.0f32;
    let denom = n * sw2 - sw * sw;
    if denom.abs() < 1e-4 {
        let q = level(&[sp[0] / n, sp[1] / n, sp[2] / n, sp[3] / n]);
        return (q, q);
    }
    let (mut e0, mut e1) = ([0.0f32; 4], [0.0f32; 4]);
    for c in 0..4 {
        let slope = (n * spw[c] - sw * sp[c]) / denom;
        let start = (sp[c] - slope * sw) / n;
        e0[c] = start.clamp(0.0, 255.0);
        e1[c] = (start + slope).clamp(0.0, 255.0);
    }
    (level(&e0), level(&e1))
}

fn reference_block(px: &[[u8; 4]; 16], refinements: u32) -> [u8; 16] {
    let mut mean = [0f32; 4];
    for p in px {
        for c in 0..4 {
            mean[c] += p[c] as f32;
        }
    }
    for c in 0..4 {
        mean[c] /= 16.0;
    }
    let mut cov = [[0f32; 4]; 4];
    for p in px {
        for i in 0..4 {
            for j in 0..4 {
                cov[i][j] += (p[i] as f32 - mean[i]) * (p[j] as f32 - mean[j]);
            }
        }
    }
    let mut axis = [0f32; 4];
    for c in 0..4 {
        let lo = px.iter().map(|p| p[c]).min().unwrap() as f32;
        let hi = px.iter().map(|p| p[c]).max().unwrap() as f32;
        axis[c] = hi - lo;
    }
    for _ in 0..8 {
        let mut next = [0f32; 4];
        for i in 0..4 {
            for j in 0..4 {
                next[i] += cov[i][j] * axis[j];
            }
        }
        let len =
            (next[0] * next[0] + next[1] * next[1] + next[2] * next[2] + next[3] * next[3]).sqrt();
        if len > 1e-4 {
            for c in 0..4 {
                axis[c] = next[c] / len;
            }
        } else {
            break;
        }
    }
    let (mut min_t, mut max_t) = (f32::MAX, f32::MIN);
    for p in px {
        let t = (p[0] as f32 - mean[0]) * axis[0]
            + (p[1] as f32 - mean[1]) * axis[1]
            + (p[2] as f32 - mean[2]) * axis[2]
            + (p[3] as f32 - mean[3]) * axis[3];
        min_t = min_t.min(t);
        max_t = max_t.max(t);
    }
    let (mut a, mut b) = ([0f32; 4], [0f32; 4]);
    for c in 0..4 {
        a[c] = (mean[c] + min_t * axis[c]).clamp(0.0, 255.0);
        b[c] = (mean[c] + max_t * axis[c]).clamp(0.0, 255.0);
    }
    let (mut e0, mut e1) = (level(&a), level(&b));
    let mut indices = closest(px, e0, e1);
    for _ in 0..refinements {
        (e0, e1) = refit(px, &indices);
        indices = closest(px, e0, e1);
    }
    if indices[0] >= 8 {
        (e0, e1) = (e1, e0);
        for i in &mut indices {
            *i = 15 - *i;
        }
    }
    let mut bits = 0x40u128;
    let mut at = 7;
    for c in 0..4 {
        bits |= (e0.0[c] as u128) << at;
        bits |= (e1.0[c] as u128) << (at + 7);
        at += 14;
    }
    bits |= (e0.1 as u128) << 63;
    bits |= (e1.1 as u128) << 64;
    bits |= (indices[0] as u128) << 65;
    for i in 1..16 {
        bits |= (indices[i] as u128) << (64 + 4 * i);
    }
    bits.to_le_bytes()
}

fn block_pixels(rgba: &[u8], width: usize, bx: usize, by: usize) -> [[u8; 4]; 16] {
    let mut px = [[0u8; 4]; 16];
    for i in 0..16 {
        let p = ((by * 4 + i / 4) * width + bx * 4 + i % 4) * 4;
        px[i].copy_from_slice(&rgba[p..p + 4]);
    }
    px
}

#[test]
fn bc7_blocks_agree() {
    let (w, h) = (16usize, 16usize);
    for seed in 0..8 {
        let flat = vec![seed as u8 * 31; w * h * 4];
        for rgba in [noise(w * h * 4, seed), smooth(w, h, seed), flat] {
            for refinements in [0, 1, 2, 3] {
                let out = compress_bc7_with_refinement(&rgba, w, h, refinements).unwrap();
                for by in 0..h / 4 {
                    for bx in 0..w / 4 {
                        let at = (by * (w / 4) + bx) * 16;
                        let want = reference_block(&block_pixels(&rgba, w, bx, by), refinements);
                        assert_eq!(out[at..at + 16], want, "seed {} block {},{}", seed, bx, by);
                    }
                }
                if refinements == 2 {
                    assert_eq!(out, compress_bc7(&rgba, w, h).unwrap());
                }
            }
        }
    }
}

#[test]
fn flat_blocks_are_kept() {
    for colour in [[200u8, 100, 50, 254], [1, 3, 255, 77], [0, 0, 0, 0], [255, 255, 255, 255]] {
        let rgba: Vec<u8> = colour.iter().copied().cycle().take(64).collect();
        let frame = encode_frame(&rgba, 4, 4, HapFormat::Hap7, 1, true).unwrap();
        assert_eq!(decode_frame_to_rgba(&frame, 4, 4).unwrap(), rgba);
    }
    let mixed = [200u8, 100, 50, 255];
    let rgba: Vec<u8> = mixed.iter().copied().cycle().take(64).collect();
    let back = decompress_bc7(&compress_bc7(&rgba, 4, 4).unwrap(), 4, 4).unwrap();
    for i in 0..64 {
        assert!((0..=1).contains(&(back[i] as i32 - rgba[i] as i32)));
    }
}

#[test]
fn pixels_are_the_closest_of_their_palette() {
    let rgba = noise(64, 33);
    let block = compress_bc7(&rgba, 4, 4).unwrap();
    let bits = u128::from_le_bytes(block.clone().try_into().unwrap());
    let end = |second: usize, c: usize| {
        let shared = (bits >> (63 + second)) & 1;
        (((bits >> (7 + 14 * c + 7 * second)) & 0x7F) << 1 | shared) as i32
    };
    let entry = |k: usize, c: usize| {
        let w = WEIGHTS4[k] as i32;
        ((64 - w) * end(0, c) + w * end(1, c) + 32) >> 6
    };
    let back = decompress_bc7(&block, 4, 4).unwrap();
    for i in 0..16 {
        let distance = |k: usize| -> i32 {
            (0..4).map(|c| (rgba[i * 4 + c] as i32 - entry(k, c)).pow(2)).sum()
        };
        let best = (0..16).map(distance).min().unwrap();
        let shown: i32 =
            (0..4).map(|c| (rgba[i * 4 + c] as i32 - back[i * 4 + c] as i32).pow(2)).sum();
        assert_eq!(shown, best);
    }
}

#[test]
fn bc7_blocks_decode() {
    let (w, h) = (8usize, 8usize);
    let blocks = noise(64, 5);
    let out = decompress_bc7(&blocks, w, h).unwrap();
    let mut block = [0u8; 64];
    for b in 0..4 {
        bcdec_rs::bc7(&blocks[b * 16..b * 16 + 16], &mut block, 16);
        for i in 0..16 {
            let p = ((b / 2 * 4 + i / 4) * w + b % 2 * 4 + i % 4) * 4;
            assert_eq!(out[p..p + 4], block[i * 4..i * 4 + 4]);
        }
    }
    assert_eq!(compress_bc7(&[], 3, 4), Err(Bc7Error::InvalidDimensions { width: 3, height: 4 }));
    assert_eq!(
        compress_bc7(&[0; 63], 4, 4),
        Err(Bc7Error::BufferSizeMismatch { expected: 64, actual: 63 })
    );
    assert_eq!(decompress_bc7(&[], 4, 3), Err(Bc7Error::InvalidDimensions { width: 4, height: 3 }));
    assert_eq!(
        decompress_bc7(&[0; 15], 4, 4),
        Err(Bc7Error::BufferSizeMismatch { expected: 16, actual: 15 })
    );
}

// ---------------------------------------------------------------------------------------------
// BC1, BC3, BC4 and BC6H.
// ---------------------------------------------------------------------------------------------

#[test]
fn block_compression_is_that_of_the_crate() {
    let (w, h) = (16usize, 8usize);
    let rgba = smooth(w, h, 2);
    for (fit, algorithm) in [
        (ColourFit::Range, texpresso::Algorithm::RangeFit),
        (ColourFit::Cluster, texpresso::Algorithm::ClusterFit),
    ] {
        for (weights, theirs) in [
            (ChannelWeights::Perceptual, texpresso::COLOUR_WEIGHTS_PERCEPTUAL),
            (ChannelWeights::Uniform, texpresso::COLOUR_WEIGHTS_UNIFORM),
        ] {
            let params = texpresso::Params { algorithm, weights: theirs, weigh_colour_by_alpha: false };
            let ours = CompressParams { fit, weights };
            let mut want = vec![0u8; w * h / 2];
            texpresso::Format::Bc1.compress(&rgba, w, h, params, &mut want);
            assert_eq!(compress_bc1_with_params(&rgba, w, h, ours).unwrap(), want);
            let mut want = vec![0u8; w * h];
            texpresso::Format::Bc3.compress(&rgba, w, h, params, &mut want);
            assert_eq!(compress_bc3_with_params(&rgba, w, h, ours).unwrap(), want);
        }
    }
}

#[test]
fn block_decompression_is_that_of_the_crate() {
    let (w, h) = (8usize, 12usize);
    let blocks = noise(w * h, 9);
    let mut want = vec![0u8; w * h * 4];
    texpresso::Format::Bc1.decompress(&blocks[..w * h / 2], w, h, &mut want);
    assert_eq!(decompress_bc1(&blocks, w, h).unwrap(), want);
    texpresso::Format::Bc3.decompress(&blocks, w, h, &mut want);
    assert_eq!(decompress_bc3(&blocks, w, h).unwrap(), want);
    texpresso::Format::Bc4.decompress(&blocks[..w * h / 2], w, h, &mut want);
    assert_eq!(decompress_bc4(&blocks, w, h).unwrap(), take_channel(&want, 0));
}

#[test]
fn one_channel_survives() {
    let alpha = [0u8, 255, 0, 255, 255, 0, 255, 0, 0, 0, 255, 255, 0, 255, 255, 0];
    let blocks = compress_bc4(&alpha, 4, 4).unwrap();
    assert_eq!(blocks.len(), 8);
    assert_eq!(decompress_bc4(&blocks, 4, 4).unwrap(), alpha);
    assert_eq!(take_channel(&[1, 2, 3, 4, 5, 6, 7, 8], 3), vec![4, 8]);
    assert_eq!(
        compress_bc4(&alpha, 8, 4),
        Err(DxtError::BufferSizeMismatch { expected: 32, actual: 16 })
    );
    assert_eq!(compress_bc1(&[], 2, 4), Err(DxtError::InvalidDimensions { width: 2, height: 4 }));
    assert_eq!(
        decompress_bc1(&[0; 7], 4, 4),
        Err(DxtError::BufferSizeMismatch { expected: 8, actual: 7 })
    );
}

#[test]
fn hdr_blocks_decode() {
    // Blocks of modes whose endpoints have at most 12 bits.
    let mut blocks = noise(64, 21);
    for b in 0..4 {
        blocks[b * 16] = blocks[b * 16] & 0xE0 | [0x00, 0x01, 0x03, 0x0B][b];
    }
    for is_signed in [false, true] {
        let mut image = [0u32; 64];
        if is_signed {
            texture2ddecoder::decode_bc6_signed(&blocks, 8, 8, &mut image).unwrap();
        } else {
            texture2ddecoder::decode_bc6_unsigned(&blocks, 8, 8, &mut image).unwrap();
        }
        let out = decompress_bc6h(&blocks, 8, 8, is_signed).unwrap();
        for (i, p) in image.iter().enumerate() {
            let b = p.to_le_bytes();
            assert_eq!(out[i * 4..i * 4 + 4], [b[2], b[1], b[0], 255]);
        }
    }
    assert_eq!(
        decompress_bc6h(&blocks, 6, 8, true),
        Err(Bc6hError::InvalidDimensions { width: 6, height: 8 })
    );
    assert_eq!(
        decompress_bc6h(&blocks[..63], 8, 8, true),
        Err(Bc6hError::BufferSizeMismatch { expected: 64, actual: 63 })
    );
    blocks[0] = 0x0F;
    assert!(matches!(decompress_bc6h(&blocks, 8, 8, true), Err(Bc6hError::DecompressFailed(_))));
}

// ---------------------------------------------------------------------------------------------
// Colour.
// ---------------------------------------------------------------------------------------------

#[test]
fn preprocessing_agrees() {
    for v in 0..256usize {
        let want = if v <= 16 {
            0
        } else if v >= 235 {
            255
        } else {
            (((v - 16) * 255 + 109) / 219) as u8
        };
        assert_eq!(LIMITED_TO_FULL_LUT[v], want, "{}", v);
    }
    let px = [200u8, 100, 50, 128, 10, 20, 30, 0, 255, 128, 1, 255, 90, 90, 90, 60];
    let pre = preprocess_rgba(&px, 2, 2, ColorRange::Full, AlphaMode::Premultiply);
    for i in 0..4 {
        for c in 0..3 {
            let (v, a) = (px[i * 4 + c] as u32, px[i * 4 + 3] as u32);
            assert_eq!(pre[i * 4 + c] as u32, (v * a + 127) / 255);
        }
        assert_eq!(pre[i * 4 + 3], px[i * 4 + 3]);
    }
    let de = preprocess_rgba(&px, 2, 2, ColorRange::Full, AlphaMode::Demultiply);
    for i in 0..4 {
        for c in 0..3 {
            let (v, a) = (px[i * 4 + c] as u32, px[i * 4 + 3] as u32);
            let want = if a == 0 { 0 } else { ((v * 255 + a / 2) / a).min(255) };
            assert_eq!(de[i * 4 + c] as u32, want, "{} {}", v, a);
        }
    }
    let gone = preprocess_rgba(&px, 2, 2, ColorRange::Limited, AlphaMode::Discard);
    assert_eq!(gone[3], 255);
    assert_eq!(gone[0], LIMITED_TO_FULL_LUT[200]);
    assert!(matches!(
        preprocess_rgba(&px, 2, 2, ColorRange::Full, AlphaMode::Straight),
        std::borrow::Cow::Borrowed(_)
    ));
}

// ---------------------------------------------------------------------------------------------
// Bytes, sections and chunks.
// ---------------------------------------------------------------------------------------------

#[test]
fn numbers_as_bytes() {
    let mut v = Vec::new();
    push_le32(&mut v, 0x01020304);
    push_be16(&mut v, 0x0506);
    push_be32(&mut v, 0x0708090A);
    push_be64(&mut v, 0x0B0C0D0E0F101112);
    assert_eq!(v, [4, 3, 2, 1, 5, 6, 7, 8, 9, 10, 11, 12, 13, 14, 15, 16, 17, 18]);
    assert_eq!(read_le32(&v, 0), 0x01020304);
    assert_eq!(read_be16(&v, 4), 0x0506);
    assert_eq!(read_be32(&v, 6), 0x0708090A);
    assert_eq!(read_be64(&v, 10), 0x0B0C0D0E0F101112);
}

#[test]
fn headers_that_cannot_be_read() {
    assert_eq!(
        SectionHeader::parse(&[1, 2, 3]),
        Err(HeaderError::BufferTooSmall { expected: 4, actual: 3 })
    );
    assert!(matches!(
        SectionHeader::parse(&[0, 0, 0, 0xBB, 1]),
        Err(HeaderError::BufferTooSmall { expected: 8, actual: 5 })
    ));
    // The largest size of a short header, and the first that needs a long one.
    let mut out = Vec::new();
    SectionHeader::write_header(0xBB, 0xFFFFFF, &mut out);
    assert_eq!(out, [0xFF, 0xFF, 0xFF, 0xBB]);
    out.clear();
    SectionHeader::write_header(0xBB, 0x1000000, &mut out);
    assert_eq!(out, [0, 0, 0, 0xBB, 0, 0, 0, 1]);
    // An empty section has a long header, since a short one cannot say that it is empty.
    out.clear();
    SectionHeader::write_header(0xBB, 0, &mut out);
    assert_eq!(SectionHeader::parse(&out).unwrap().data_size, 0);
}

#[test]
fn frames_that_cannot_be_decoded() {
    assert!(matches!(
        decode_frame_to_rgba(&[1, 0, 0], 4, 4),
        Err(DecodeError::Header(HeaderError::BufferTooSmall { expected: 4, actual: 3 }))
    ));
    assert!(matches!(
        decode_frame_to_texture(&[9, 0, 0, 0xAB, 1, 2]),
        Err(DecodeError::Header(HeaderError::Truncated { .. }))
    ));
    let mut frame = vec![8, 0, 0, 0xAB];
    frame.extend_from_slice(&[0; 8]);
    assert!(decode_frame_to_rgba(&frame, 4, 4).is_ok());
    assert!(matches!(
        decode_frame_to_rgba(&frame, 6, 4),
        Err(DecodeError::InvalidDimensions { width: 6, height: 4 })
    ));
    assert!(matches!(
        decode_frame_to_rgba(&frame, 8, 4),
        Err(DecodeError::Dxt(DxtError::BufferSizeMismatch { expected: 16, actual: 8 }))
    ));
    frame[3] = 0xAC;
    assert!(matches!(
        decode_frame_to_rgba(&frame, 4, 4),
        Err(DecodeError::Bc7(Bc7Error::BufferSizeMismatch { expected: 16, actual: 8 }))
    ));
    frame[3] = 0xA2;
    assert!(matches!(
        decode_frame_to_rgba(&frame, 4, 4),
        Err(DecodeError::Bc6h(Bc6hError::BufferSizeMismatch { expected: 16, actual: 8 }))
    ));
    frame[3] = 0xA7;
    assert!(matches!(
        decode_frame_to_texture(&frame),
        Err(DecodeError::CorruptFrame(m)) if m == "Unknown low nibble format 0x07"
    ));
    assert!(matches!(
        unpack_section_payload(0x5B, &[]),
        Err(DecodeError::CorruptFrame(m)) if m == "Unsupported compressor high-nibble: 0x05"
    ));
    assert!(matches!(
        unpack_section_payload(0xBB, &[255; 20]),
        Err(DecodeError::Snappy(SnappyError::Decompress(_)))
    ));
    assert!(matches!(
        unpack_section_payload(0xCB, &[1, 0, 0, 2, 0]),
        Err(DecodeError::CorruptFrame(_))
    ));
    assert!(matches!(
        unpack_section_payload(0xCB, &[1, 0, 0, 1, 0]),
        Err(DecodeError::Header(_))
    ));
}

#[test]
fn images_that_cannot_be_encoded() {
    assert!(matches!(
        encode_frame(&[0; 64], 4, 4, HapFormat::HapH, 1, true),
        Err(EncodeError::UnsupportedFormat(HapFormat::HapH))
    ));
    assert!(matches!(
        encode_frame(&[0; 64], 5, 4, HapFormat::Hap1, 1, true),
        Err(EncodeError::InvalidDimensions { width: 5, height: 4 })
    ));
    assert!(matches!(
        encode_frame(&[0; 60], 4, 4, HapFormat::Hap1, 1, true),
        Err(EncodeError::BufferSizeMismatch { expected: 64, actual: 60 })
    ));
}

#[test]
fn packed_textures_come_out_again() {
    let texture = noise(1024, 17);
    for format in [HapFormat::Hap1, HapFormat::Hap5, HapFormat::HapY, HapFormat::HapA, HapFormat::Hap7] {
        for chunks in [0, 1, 2, 5, 16] {
            for snappy in [false, true] {
                let frame = pack_single_texture_frame(&texture, format, chunks, snappy).unwrap();
                let out = decode_frame_to_texture(&frame).unwrap();
                assert_eq!(out.format, format);
                assert_eq!(out.texture_bytes, texture);
                assert_eq!(out.alpha_bytes, None);
            }
        }
    }
}

#[test]
fn frames_of_every_kind_decode() {
    let (w, h) = (16usize, 8usize);
    let rgba = smooth(w, h, 4);
    for format in [HapFormat::Hap1, HapFormat::Hap5, HapFormat::HapY, HapFormat::HapM, HapFormat::HapA, HapFormat::Hap7] {
        for chunks in [1, 4] {
            let frame = encode_frame(&rgba, w, h, format, chunks, true).unwrap();
            let out = decode_frame_to_rgba(&frame, w, h).unwrap();
            for p in 0..w * h {
                for c in 0..4 {
                    let want = match (format, c) {
                        // The alpha format shows its one channel in all four.
                        (HapFormat::HapA, _) => {
                            rgba[p * 4 + 3]
                        }
                        (HapFormat::Hap1, 3) | (HapFormat::HapY, 3) => 255,
                        _ => rgba[p * 4 + c],
                    };
                    let got = out[p * 4 + c];
                    assert!(
                        (got as i32 - want as i32).abs() <= 12,
                        "{:?} pixel {} channel {}: {} for {}", format, p, c, got, want
                    );
                }
            }
        }
    }
}

#[test]
fn chunks_of_a_buffer() {
    let data: Vec<u8> = (0..1000u32).map(|i| (i / 100) as u8).collect();
    for count in [0, 1, 3, 7, 2000] {
        for snappy in [false, true] {
            let (chunks, table) = compress_chunks_parallel(&data, count, snappy).unwrap();
            assert_eq!(chunks.len(), count.clamp(1, data.len()));
            assert_eq!(chunks.len(), table.len());
            let joined: Vec<u8> = chunks.concat();
            assert_eq!(decompress_chunks_parallel(&joined, &table).unwrap(), data);
            let listed = DecodeInstructions::parse(&DecodeInstructions::build(&table)).unwrap();
            assert_eq!(listed.chunks, table);
        }
    }
    // Chunks of one size and the rest in the last.
    let sizes = |len: usize, count: usize| -> Vec<usize> {
        let (chunks, _) = compress_chunks_parallel(&data[..len], count, false).unwrap();
        chunks.iter().map(|c| c.len()).collect()
    };
    assert_eq!(sizes(10, 4), [3, 3, 3, 1]);
    assert_eq!(sizes(1000, 7), [143, 143, 143, 143, 143, 143, 142]);
    assert_eq!(sizes(8, 4), [2, 2, 2, 2]);
    // As many chunks as asked for, though nothing would be left for the last.
    assert_eq!(sizes(9, 6), [2, 2, 2, 1, 1, 1]);
    let (chunks, table) = compress_chunks_parallel(&[1, 2, 3, 4, 5], 4, false).unwrap();
    assert_eq!(chunks, [vec![1, 2], vec![3], vec![4], vec![5]]);
    assert_eq!(table[3], ChunkInfo { offset: 4, size: 1, compressor: 0x0A });
    for len in 1..40usize {
        for count in 1..=len {
            let full = len.div_ceil(count);
            if len.div_ceil(full) == count {
                let want: Vec<usize> = data[..len].chunks(full).map(|c| c.len()).collect();
                assert_eq!(sizes(len, count), want);
            }
            assert_eq!(sizes(len, count).len(), count);
        }
    }
    let (none, table) = compress_chunks_parallel(&[], 4, true).unwrap();
    assert!(none.is_empty() && table.is_empty());
    assert_eq!(compress_snappy(&[]).unwrap(), [0]);
    assert_eq!(decompress_snappy(&[0]).unwrap(), Vec::<u8>::new());
    let packed = compress_snappy(&data).unwrap();
    assert!(!packed.is_empty() && packed.len() < data.len());
    assert_eq!(decompress_snappy(&packed).unwrap(), data);
    assert!(matches!(decompress_snappy(&[255; 9]), Err(SnappyError::Decompress(_))));
    let past = [ChunkInfo { offset: 990, size: 11, compressor: 0x0A }];
    assert!(matches!(decompress_chunks_parallel(&data, &past), Err(SnappyError::OutOfBounds)));
    let past = [ChunkInfo { offset: usize::MAX, size: 2, compressor: 0x0B }];
    assert!(matches!(decompress_chunks_parallel(&data, &past), Err(SnappyError::OutOfBounds)));
}

#[test]
fn parts_of_decoded_frames() {
    assert_eq!(to_bytes(&[0x01020304, 0xFFA0B0C0]), [2, 3, 4, 255, 0xA0, 0xB0, 0xC0, 255]);
    let mut rgba = vec![1, 2, 3, 4, 5, 6, 7, 8];
    set_alpha(&mut rgba, &vec![90, 91]);
    assert_eq!(rgba, [1, 2, 3, 90, 5, 6, 7, 91]);
    assert_eq!(splat_channel(&vec![7, 9]), [7, 7, 7, 7, 9, 9, 9, 9]);
    // Two blocks of a block row: a line of the image takes four pixels of each.
    let decoded: Vec<u8> = (0..128).collect();
    assert_eq!(block_row_line(&decoded, 8, 5), [(16..32).collect::<Vec<u8>>(), (80..96).collect()].concat());
    let line = restored_block_line(&decoded, 8, 6);
    for x in 0..8 {
        let p = 64 * (x / 4) + 32 + 4 * (x % 4);
        assert_eq!(line[4 * x..4 * x + 4], reference_pixel(&decoded[p..p + 4], true));
        let scale = decoded[p + 2] / 8 + 1;
        let (r, g, b) = restore(decoded[p + 3], decoded[p], decoded[p + 1], scale, true);
        assert_eq!(line[4 * x..4 * x + 3], [r, g, b]);
    }
}

#[test]
fn parts_of_chunked_frames() {
    assert_eq!(join_parts(vec![Ok(vec![1, 2]), Ok(vec![]), Ok(vec![3])]).unwrap(), [1, 2, 3]);
    assert_eq!(join_parts(vec![]).unwrap(), Vec::<u8>::new());
    let mixed = vec![
        Ok(vec![1]),
        Err(SnappyError::OutOfBounds),
        Err(SnappyError::SizeMismatch { expected: 1, actual: 2 }),
    ];
    assert!(matches!(join_parts(mixed), Err(SnappyError::OutOfBounds)));
    let (chunks, table) = tabulate(vec![Ok(vec![1, 2]), Ok(vec![3, 4, 5])], true).unwrap();
    assert_eq!(chunks, [vec![1, 2], vec![3, 4, 5]]);
    assert_eq!(
        table,
        [
            ChunkInfo { offset: 0, size: 2, compressor: 0x0B },
            ChunkInfo { offset: 2, size: 3, compressor: 0x0B },
        ]
    );
    assert_eq!(tabulate(vec![Ok(vec![1])], false).unwrap().1[0].compressor, 0x0A);
    let size = SnappyError::SizeMismatch { expected: 1, actual: 2 };
    assert!(matches!(
        tabulate(vec![Ok(vec![1]), Err(size), Err(SnappyError::OutOfBounds)], true),
        Err(SnappyError::SizeMismatch { expected: 1, actual: 2 })
    ));
}

#[test]
fn instructions_that_cannot_be_read() {
    // A table of compressors for two chunks, and no sizes.
    assert!(matches!(
        DecodeInstructions::parse(&[2, 0, 0, 2, 0x0B, 0x0B]),
        Err(HeaderError::InvalidDecodeInstructions(_))
    ));
    // A compressor table that claims more bytes than there are.
    assert!(DecodeInstructions::parse(&[9, 0, 0, 2, 0x0B]).is_err());
    // Sub-sections of other types, before, between and after the tables.
    let chunks = [
        ChunkInfo { offset: 0, size: 5, compressor: 0x0B },
        ChunkInfo { offset: 5, size: 7, compressor: 0x0A },
    ];
    let built = DecodeInstructions::build(&chunks);
    for at in [0, 6, 18, built.len()] {
        for unknown in [vec![3, 0, 0, 0x09, 1, 2, 3], vec![0, 0, 0, 0x7F, 0, 0, 0, 0]] {
            let mut bytes = built[..at].to_vec();
            bytes.extend_from_slice(&unknown);
            bytes.extend_from_slice(&built[at..]);
            assert_eq!(DecodeInstructions::parse(&bytes).unwrap().chunks, chunks);
        }
    }
    // One chunk of 5 bytes.
    let one = DecodeInstructions::parse(&[1, 0, 0, 2, 0x0B, 4, 0, 0, 3, 5, 0, 0, 0]).unwrap();
    assert_eq!(one.chunks, vec![ChunkInfo { offset: 0, size: 5, compressor: 0x0B }]);
}
