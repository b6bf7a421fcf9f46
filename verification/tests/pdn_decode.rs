use std::io::Write;

use asset_decoders::pdn::decode_pdn;
use asset_decoders::pdn::PdnError;
use base64::Engine;

fn gzip(data: &[u8]) -> Vec<u8> {
    let mut enc = flate2::write::GzEncoder::new(Vec::new(), flate2::Compression::default());
    enc.write_all(data).unwrap();
    enc.finish().unwrap()
}

fn pdn_header(width: u32, height: u32) -> Vec<u8> {
    let mut buf = Vec::new();
    buf.extend_from_slice(b"PDN3");
    buf.resize(24, 0);
    buf.push(5);
    buf.extend_from_slice(b"width");
    buf.extend_from_slice(&width.to_le_bytes());
    buf.push(6);
    buf.extend_from_slice(b"height");
    buf.extend_from_slice(&height.to_le_bytes());
    // trailing slack so the forward value scan's window, which stops four
    // bytes short of the end, still reaches the height value
    buf.extend_from_slice(&[0u8; 4]);
    buf
}

/// The decoder's exact blend: BGRA source pixels land bottom-to-top on an
/// RGBA buffer, skipped at alpha 0, copied at alpha 255 or onto empty
/// pixels, and otherwise blended in integer arithmetic.
fn composite_expected(layers: &[Vec<u8>], e: usize) -> Vec<u8> {
    let mut rgba = vec![0u8; e];
    for layer in layers {
        let lim = layer.len().min(e);
        let mut j = 0;
        while j + 3 < lim {
            let sb = layer[j] as u32;
            let sg = layer[j + 1] as u32;
            let sr = layer[j + 2] as u32;
            let sa = layer[j + 3] as u32;
            if sa != 0 {
                let da = rgba[j + 3] as u32;
                if sa == 255 || da == 0 {
                    rgba[j] = sr as u8;
                    rgba[j + 1] = sg as u8;
                    rgba[j + 2] = sb as u8;
                    rgba[j + 3] = sa as u8;
                } else {
                    let den = sa * 255 + da * (255 - sa);
                    rgba[j] = ((sr * sa * 255 + rgba[j] as u32 * da * (255 - sa)) / den) as u8;
                    rgba[j + 1] =
                        ((sg * sa * 255 + rgba[j + 1] as u32 * da * (255 - sa)) / den) as u8;
                    rgba[j + 2] =
                        ((sb * sa * 255 + rgba[j + 2] as u32 * da * (255 - sa)) / den) as u8;
                    rgba[j + 3] = (den / 255) as u8;
                }
            }
            j += 4;
        }
    }
    rgba
}

#[test]
fn round_trip_four_layers_64_by_32() {
    let width = 64usize;
    let height = 32usize;
    let e = width * height * 4;
    let mut layers: Vec<Vec<u8>> = Vec::new();
    for k in 0..4usize {
        let mut layer = Vec::with_capacity(e);
        for p in 0..(width * height) {
            let b = (p * 3 + k) as u8;
            let g = (p + 7 * k) as u8;
            let r = (2 * p + k) as u8;
            let a = match k {
                0 => 255u8,
                1 => {
                    if p % 2 == 0 {
                        0
                    } else {
                        128
                    }
                }
                2 => 200,
                _ => {
                    if p % 3 == 0 {
                        255
                    } else {
                        0
                    }
                }
            };
            layer.extend_from_slice(&[b, g, r, a]);
        }
        layers.push(layer);
    }
    let mut buf = pdn_header(64, 32);
    for layer in &layers {
        buf.extend_from_slice(&gzip(layer));
    }
    let img = decode_pdn(&buf).unwrap();
    assert_eq!(img.width, 64);
    assert_eq!(img.height, 32);
    assert_eq!(img.rgba.len(), e);
    assert_eq!(img.rgba, composite_expected(&layers, e));
    let decoded = base64::engine::general_purpose::STANDARD
        .decode(&img.rgba_base64)
        .unwrap();
    assert_eq!(decoded, img.rgba);
}

#[test]
fn decoding_twice_is_byte_identical() {
    let layer = vec![7u8; 64 * 32 * 4];
    let mut buf = pdn_header(64, 32);
    buf.extend_from_slice(&gzip(&layer));
    let a = decode_pdn(&buf).unwrap();
    let b = decode_pdn(&buf).unwrap();
    assert_eq!(a.width, b.width);
    assert_eq!(a.height, b.height);
    assert_eq!(a.rgba, b.rgba);
    assert_eq!(a.rgba_base64, b.rgba_base64);
}

#[test]
fn swapped_dimensions_are_corrected_by_run_alignment() {
    // the header says 100x64, but the runs are whole multiples of 64*4 =
    // 256 bytes and not of 100*4 = 400, so the decoder flips to 64x100
    let mut buf = pdn_header(100, 64);
    let part1 = vec![0x10u8; 256];
    let part2 = vec![0x20u8; 256];
    let mut part3 = Vec::new();
    for i in 0..25088usize {
        part3.push(if i % 4 == 3 { 255 } else { (i % 251) as u8 });
    }
    buf.extend_from_slice(&gzip(&part1));
    buf.extend_from_slice(&gzip(&part2));
    buf.extend_from_slice(&gzip(&part3));
    let img = decode_pdn(&buf).unwrap();
    assert_eq!((img.width, img.height), (64, 100));
    assert_eq!(img.rgba.len(), 64 * 100 * 4);
    let mut stream = part1.clone();
    stream.extend_from_slice(&part2);
    stream.extend_from_slice(&part3);
    assert_eq!(img.rgba, composite_expected(&[stream], 64 * 100 * 4));
}

#[test]
fn missing_magic_is_a_format_mismatch() {
    let mut buf = vec![0u8; 64];
    buf[0..4].copy_from_slice(b"XXXX");
    assert_eq!(decode_pdn(&buf).unwrap_err(), PdnError::FormatMismatch);
}

#[test]
fn short_buffer_is_a_format_mismatch() {
    assert_eq!(decode_pdn(b"PDN3").unwrap_err(), PdnError::FormatMismatch);
    assert_eq!(decode_pdn(&[]).unwrap_err(), PdnError::FormatMismatch);
}

#[test]
fn unrecoverable_dimensions_are_reported() {
    let mut buf = vec![0u8; 80];
    buf[0..4].copy_from_slice(b"PDN3");
    assert_eq!(decode_pdn(&buf).unwrap_err(), PdnError::DimensionsNotFound);
}

#[test]
fn zero_signature_matches_mean_no_compressed_data() {
    let buf = pdn_header(64, 32);
    assert_eq!(decode_pdn(&buf).unwrap_err(), PdnError::NoCompressedData);
}

#[test]
fn streams_that_do_not_inflate_mean_nothing_decompressed() {
    let mut buf = pdn_header(64, 32);
    buf.extend_from_slice(&[0x1F, 0x8B, 0x08]);
    buf.extend_from_slice(&[0xFFu8; 32]);
    assert_eq!(
        decode_pdn(&buf).unwrap_err(),
        PdnError::NothingDecompressed
    );
}

#[test]
fn data_shorter_than_a_row_reconstructs_no_layer() {
    let mut buf = pdn_header(64, 64);
    buf.extend_from_slice(&gzip(&[1u8; 10]));
    assert_eq!(
        decode_pdn(&buf).unwrap_err(),
        PdnError::NoLayersReconstructed
    );
}
