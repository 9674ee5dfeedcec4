use cloak_core::formats::lsb::{
    capacity_breakdown, derive_length_mask, embed_lsb, embed_lsb_parallel,
    embed_lsb_parallel_with_padding, embed_lsb_with_padding, extract_lsb,
    generate_permutation, max_payload_bytes, slot_channel_values, LsbParams, PixelOrder,
};
use cloak_core::raster::Raster;
use cloak_core::CloakError;

fn make_test_rgba(width: u32, height: u32) -> Raster {
    let mut pixels = Vec::with_capacity((width * height * 4) as usize);
    for y in 0..height {
        for x in 0..width {
            pixels.push(((x * 17 + y * 31) % 256) as u8);
            pixels.push(((x * 41 + y * 13) % 256) as u8);
            pixels.push(((x * 7 + y * 53) % 256) as u8);
            pixels.push(255);
        }
    }
    Raster {
        width,
        height,
        pixels,
    }
}

#[test]
fn permutation_is_deterministic() {
    let p1 = generate_permutation("test", 100).unwrap();
    let p2 = generate_permutation("test", 100).unwrap();
    assert_eq!(p1, p2);
}

#[test]
fn permutation_differs_for_different_passphrase() {
    let p1 = generate_permutation("pass1", 100).unwrap();
    let p2 = generate_permutation("pass2", 100).unwrap();
    assert_ne!(p1, p2);
}

#[test]
fn permutation_visits_each_index_once() {
    let mut p = generate_permutation("secret", 257).unwrap();
    assert_eq!(p.len(), 257);
    p.sort();
    let expected: Vec<usize> = (0..257).collect();
    assert_eq!(p, expected);
}

#[test]
fn length_mask_is_deterministic() {
    let a = derive_length_mask("pass");
    let b = derive_length_mask("pass");
    let c = derive_length_mask("other");
    assert_eq!(a, b);
    assert_ne!(a, c);
}

#[test]
fn lsb_randomized_roundtrip() {
    let mut rgba = make_test_rgba(32, 32);
    let perm = generate_permutation("secret", 32 * 32).unwrap();
    let params = LsbParams {
        bit_depth: 1,
        pixel_order: PixelOrder::Randomized(perm.clone()),
        ..Default::default()
    };
    let payload = b"randomized embedding test!";

    embed_lsb(&mut rgba, payload, &params).unwrap();
    let extracted = extract_lsb(&rgba, &params).unwrap();
    assert_eq!(extracted, payload);
}

#[test]
fn wrong_passphrase_wrong_result() {
    let mut rgba = make_test_rgba(32, 32);
    let perm = generate_permutation("correct", 32 * 32).unwrap();
    let params = LsbParams {
        bit_depth: 1,
        pixel_order: PixelOrder::Randomized(perm),
        ..Default::default()
    };
    let payload = b"secret data";

    embed_lsb(&mut rgba, payload, &params).unwrap();

    // Try extracting with wrong permutation
    let wrong_perm = generate_permutation("wrong", 32 * 32).unwrap();
    let wrong_params = LsbParams {
        bit_depth: 1,
        pixel_order: PixelOrder::Randomized(wrong_perm),
        ..Default::default()
    };
    let result = extract_lsb(&rgba, &wrong_params);
    match result {
        Ok(data) => assert_ne!(data, payload),
        Err(_) => {} // Also acceptable (corrupted length)
    }
}

#[test]
fn parallel_roundtrip_sequential() {
    let mut rgba = make_test_rgba(128, 128);
    let payload = b"parallel embedding, sequential extraction";

    let params = LsbParams::default();
    embed_lsb_parallel(&mut rgba, payload, &params).unwrap();
    let extracted = extract_lsb(&rgba, &params).unwrap();
    assert_eq!(extracted, payload);
}

#[test]
fn parallel_roundtrip_bit_depths() {
    for bit_depth in 1..=4u8 {
        let mut rgba = make_test_rgba(128, 128);
        let params = LsbParams {
            bit_depth,
            ..Default::default()
        };
        let payload = b"multi-bit parallel test";
        embed_lsb_parallel(&mut rgba, payload, &params).unwrap();
        let extracted = extract_lsb(&rgba, &params).unwrap();
        assert_eq!(extracted, payload, "bit_depth={bit_depth}");
    }
}

#[test]
fn parallel_randomized_roundtrip() {
    let mut rgba = make_test_rgba(128, 128);
    let perm = generate_permutation("parallel-rand", 128 * 128).unwrap();
    let mask = derive_length_mask("parallel-rand");
    let params = LsbParams {
        bit_depth: 2,
        pixel_order: PixelOrder::Randomized(perm),
        length_mask: mask,
    };
    let payload = b"parallel randomized embedding";
    embed_lsb_parallel(&mut rgba, payload, &params).unwrap();
    let extracted = extract_lsb(&rgba, &params).unwrap();
    assert_eq!(extracted, payload);
}

#[test]
fn parallel_small_image_fallback() {
    let mut rgba = make_test_rgba(4, 4);
    let params = LsbParams::default();
    let payload = b"sm";
    // Should not panic: falls back to sequential
    embed_lsb_parallel(&mut rgba, payload, &params).unwrap();
    let extracted = extract_lsb(&rgba, &params).unwrap();
    assert_eq!(extracted, payload);
}

#[test]
fn parallel_matches_sequential_outside_padding() {
    // An empty payload has no padding, so both embeddings are fully determined.
    let params = LsbParams {
        bit_depth: 3,
        length_mask: [1, 2, 3, 4],
        ..Default::default()
    };
    let mut a = make_test_rgba(80, 80);
    let mut b = make_test_rgba(80, 80);
    embed_lsb(&mut a, b"", &params).unwrap();
    embed_lsb_parallel(&mut b, b"", &params).unwrap();
    assert_eq!(a.pixels, b.pixels);
}

#[test]
fn parallel_matches_sequential_for_whole_blocks() {
    // A payload of a whole number of 64-byte blocks draws no padding, so both
    // embeddings are fully determined, randomized order included.
    let perm = generate_permutation("blocks", 96 * 96).unwrap();
    let params = LsbParams {
        bit_depth: 2,
        pixel_order: PixelOrder::Randomized(perm),
        length_mask: derive_length_mask("blocks"),
    };
    let payload: Vec<u8> = (0..128u32).map(|i| (i * 7 + 3) as u8).collect();
    let mut a = make_test_rgba(96, 96);
    let mut b = make_test_rgba(96, 96);
    embed_lsb(&mut a, &payload, &params).unwrap();
    embed_lsb_parallel(&mut b, &payload, &params).unwrap();
    assert_eq!(a.pixels, b.pixels);
    assert_eq!(extract_lsb(&b, &params).unwrap(), payload);
}

#[test]
fn parallel_leaves_channels_past_the_stream() {
    // 4 header bytes = 32 bits at depth 1: slots 0..10 full, slot 10 carries
    // two bits (R, G); its B channel is untouched.
    let before = make_test_rgba(64, 64);
    let mut rgba = make_test_rgba(64, 64);
    embed_lsb_parallel(&mut rgba, b"", &LsbParams::default()).unwrap();
    assert_eq!(rgba.pixels[10 * 4 + 2], before.pixels[10 * 4 + 2]);
    assert_eq!(&rgba.pixels[11 * 4..], &before.pixels[11 * 4..]);
}

#[test]
fn parallel_payload_too_large() {
    let mut rgba = make_test_rgba(64, 64);
    let max = max_payload_bytes(64, 64, 1);
    let payload = vec![0u8; max + 1];
    let before = rgba.pixels.clone();
    let result = embed_lsb_parallel(&mut rgba, &payload, &LsbParams::default());
    match result {
        Err(CloakError::PayloadTooLarge { needed, capacity }) => {
            assert_eq!(needed, max + 1);
            assert_eq!(capacity, max);
        }
        other => panic!("expected PayloadTooLarge, got {other:?}"),
    }
    assert_eq!(rgba.pixels, before);
}

#[test]
fn slot_values_read_the_stream_in_order() {
    // Stream bits: 1011 0000 ...; depth 2 puts bits (1,0) in R, (1,1) in G, (0,0) in B.
    let bytes = vec![0b1011_0000u8];
    assert_eq!(slot_channel_values(&bytes, 2, 0), [0b10, 0b11, 0b00]);
    // Slot 1 starts at bit 6: (0,0) in R, then past the end of the stream.
    assert_eq!(slot_channel_values(&bytes, 2, 1), [0, 0, 0]);
}

#[test]
fn randomized_differs_from_sequential() {
    let mut rgba_seq = make_test_rgba(32, 32);
    let mut rgba_rand = rgba_seq.clone();

    let payload = b"test data for comparison";

    let seq_params = LsbParams::default();
    embed_lsb(&mut rgba_seq, payload, &seq_params).unwrap();

    let perm = generate_permutation("password", 32 * 32).unwrap();
    let rand_params = LsbParams {
        bit_depth: 1,
        pixel_order: PixelOrder::Randomized(perm),
        ..Default::default()
    };
    embed_lsb(&mut rgba_rand, payload, &rand_params).unwrap();

    // The raw pixel data should differ
    assert_ne!(rgba_seq.pixels, rgba_rand.pixels);
}

#[test]
fn embed_touches_only_low_bits_and_keeps_alpha() {
    let before = make_test_rgba(32, 32);
    let mut rgba = before.clone();
    let params = LsbParams {
        bit_depth: 2,
        ..Default::default()
    };
    embed_lsb(&mut rgba, b"low bits only", &params).unwrap();
    for (i, (a, b)) in before.pixels.iter().zip(rgba.pixels.iter()).enumerate() {
        if i % 4 == 3 {
            assert_eq!(a, b);
        } else {
            assert_eq!(a & 0xFC, b & 0xFC);
        }
    }
}

#[test]
fn masked_header_roundtrip_and_mismatch() {
    let mut rgba = make_test_rgba(32, 32);
    let params = LsbParams {
        length_mask: derive_length_mask("mask"),
        ..Default::default()
    };
    embed_lsb(&mut rgba, b"masked", &params).unwrap();
    assert_eq!(extract_lsb(&rgba, &params).unwrap(), b"masked");
    // Without the mask the header announces another length.
    let plain = extract_lsb(&rgba, &LsbParams::default());
    match plain {
        Ok(data) => assert_ne!(data, b"masked"),
        Err(_) => {}
    }
}

#[test]
fn extract_from_tiny_image_fails() {
    // 3x3 pixels at depth 1 carry 27 bits, fewer than the 32-bit header.
    let rgba = make_test_rgba(3, 3);
    let result = extract_lsb(&rgba, &LsbParams::default());
    assert!(matches!(result, Err(CloakError::CorruptedData(_))));
}

#[test]
fn extract_rejects_oversized_claim() {
    // A header of all ones claims far more bytes than the image holds.
    let mut rgba = make_test_rgba(16, 16);
    for p in rgba.pixels.iter_mut() {
        *p |= 1;
    }
    let result = extract_lsb(&rgba, &LsbParams::default());
    match result {
        Err(CloakError::CorruptedData(msg)) => assert!(msg.contains("exceeds image capacity")),
        other => panic!("expected CorruptedData, got {other:?}"),
    }
}

#[test]
fn capacity_breakdown_exact_values() {
    // 10x10 at depth 1: 300 bits, (300 - 32) / 8 = 33 bytes, no full block.
    let b = capacity_breakdown(10, 10, 1);
    assert_eq!(b.total_pixel_bits, 300);
    assert_eq!(b.length_header_bits, 32);
    assert_eq!(b.raw_capacity_bytes, 33);
    assert_eq!(b.full_pad_blocks, 0);
    assert_eq!(b.usable_bytes, 33);
    // 64x64 at depth 2: 24576 bits, 3068 raw bytes, 47 blocks of 64.
    let b = capacity_breakdown(64, 64, 2);
    assert_eq!(b.total_pixel_bits, 24576);
    assert_eq!(b.raw_capacity_bytes, 3068);
    assert_eq!(b.full_pad_blocks, 47);
    assert_eq!(b.usable_bytes, 3008);
    assert_eq!(max_payload_bytes(64, 64, 2), 3008);
    // Too small for the header at all.
    assert_eq!(max_payload_bytes(2, 2, 1), 0);
}

#[test]
fn max_payload_bounded_by_raw_pixels() {
    for w in [4u32, 7, 16, 33, 128] {
        for h in [4u32, 13, 64] {
            for bit_depth in 1u8..=4 {
                let raw_bytes = w as usize * h as usize * 3 * bit_depth as usize / 8;
                let max = max_payload_bytes(w, h, bit_depth);
                assert!(max <= raw_bytes, "{w}x{h} bd={bit_depth}");
            }
        }
    }
}

#[test]
fn max_payload_monotonic_in_bit_depth() {
    for (w, h) in [(8u32, 8u32), (10, 10), (33, 17), (128, 128)] {
        let mut prev = 0;
        for bit_depth in 1u8..=7 {
            let max = max_payload_bytes(w, h, bit_depth);
            assert!(max >= prev);
            prev = max;
        }
    }
}

#[test]
fn max_payload_monotonic_in_dimensions() {
    let sizes = [4u32, 10, 33, 64, 100];
    for bit_depth in 1u8..=4 {
        for &w1 in &sizes {
            for &h1 in &sizes {
                for &w2 in &sizes {
                    for &h2 in &sizes {
                        if w1 <= w2 && h1 <= h2 {
                            let small = max_payload_bytes(w1, h1, bit_depth);
                            let large = max_payload_bytes(w2, h2, bit_depth);
                            assert!(small <= large, "{w1}x{h1} vs {w2}x{h2} bd={bit_depth}");
                            assert!(large < 64 || large % 64 == 0);
                        }
                    }
                }
            }
        }
    }
}

#[test]
fn parallel_matches_sequential_for_the_same_padding() {
    let perm = generate_permutation("same-padding", 100 * 90).unwrap();
    let params = LsbParams {
        bit_depth: 3,
        pixel_order: PixelOrder::Randomized(perm),
        length_mask: derive_length_mask("same-padding"),
    };
    let payload: Vec<u8> = (0..77u32).map(|i| (i * 13 + 5) as u8).collect();
    let padding: Vec<u8> = (0..51u32).map(|i| (i * 29 + 7) as u8).collect();
    let mut a = make_test_rgba(100, 90);
    let mut b = make_test_rgba(100, 90);
    embed_lsb_with_padding(&mut a, &payload, &padding, &params).unwrap();
    embed_lsb_parallel_with_padding(&mut b, &payload, &padding, &params).unwrap();
    assert_eq!(a.pixels, b.pixels);
    assert_eq!(extract_lsb(&a, &params).unwrap(), payload);
}

#[test]
fn parallel_matches_sequential_errors_for_the_same_padding() {
    let params = LsbParams::default();
    let payload = vec![0u8; 5000];
    let padding = vec![0u8; 120];
    let mut a = make_test_rgba(64, 64);
    let mut b = make_test_rgba(64, 64);
    let ra = embed_lsb_with_padding(&mut a, &payload, &padding, &params);
    let rb = embed_lsb_parallel_with_padding(&mut b, &payload, &padding, &params);
    assert!(matches!(ra, Err(CloakError::PayloadTooLarge { needed: 5000, capacity: 1472 })));
    assert!(matches!(rb, Err(CloakError::PayloadTooLarge { needed: 5000, capacity: 1472 })));
    assert_eq!(a.pixels, b.pixels);
    assert_eq!(a.pixels, make_test_rgba(64, 64).pixels);
}
