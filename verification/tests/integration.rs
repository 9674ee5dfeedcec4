use std::io::Cursor;

use cloak_core::formats::bmp::BmpCodec;
use cloak_core::{CloakError, Decoder, EmbedOptions, Encoder, LsbCodec, LsbParams};
use image::{ImageFormat, RgbImage, RgbaImage};

fn make_png(width: u32, height: u32) -> Vec<u8> {
    let img = RgbaImage::from_fn(width, height, |x, y| {
        let r = ((x * 17 + y * 31) % 256) as u8;
        let g = ((x * 41 + y * 13) % 256) as u8;
        let b = ((x * 7 + y * 53) % 256) as u8;
        image::Rgba([r, g, b, 255])
    });
    let mut buf = Vec::new();
    img.write_to(&mut Cursor::new(&mut buf), ImageFormat::Png)
        .unwrap();
    buf
}

fn make_bmp(width: u32, height: u32) -> Vec<u8> {
    let img = RgbaImage::from_fn(width, height, |x, y| {
        let r = ((x * 17 + y * 31) % 256) as u8;
        let g = ((x * 41 + y * 13) % 256) as u8;
        let b = ((x * 7 + y * 53) % 256) as u8;
        image::Rgba([r, g, b, 255])
    });
    let mut buf = Vec::new();
    img.write_to(&mut Cursor::new(&mut buf), ImageFormat::Bmp)
        .unwrap();
    buf
}

fn make_jpeg(width: u32, height: u32) -> Vec<u8> {
    let img = RgbImage::from_fn(width, height, |x, y| {
        let r = ((x * 17 + y * 31) % 256) as u8;
        let g = ((x * 41 + y * 13) % 256) as u8;
        let b = ((x * 7 + y * 53) % 256) as u8;
        image::Rgb([r, g, b])
    });
    let mut buf = Vec::new();
    img.write_to(&mut Cursor::new(&mut buf), ImageFormat::Jpeg)
        .unwrap();
    buf
}

fn make_webp(width: u32, height: u32) -> Vec<u8> {
    let img = RgbaImage::from_fn(width, height, |x, y| {
        let r = ((x * 17 + y * 31) % 256) as u8;
        let g = ((x * 41 + y * 13) % 256) as u8;
        let b = ((x * 7 + y * 53) % 256) as u8;
        image::Rgba([r, g, b, 255])
    });
    let mut buf = Vec::new();
    img.write_to(&mut Cursor::new(&mut buf), ImageFormat::WebP)
        .unwrap();
    buf
}

fn default_opts() -> EmbedOptions {
    EmbedOptions {
        bit_depth: 1,
        randomized: false,
    }
}

const PASSPHRASE: &str = "test-passphrase-123";

#[test]
fn png_roundtrip() {
    let cover = make_png(64, 64);
    let payload = b"PNG end-to-end roundtrip";
    let opts = default_opts();

    let stego = cloak_core::embed(&cover, payload, PASSPHRASE, None, &opts).unwrap();
    let extracted = cloak_core::extract(&stego, PASSPHRASE, None, &opts).unwrap();

    assert_eq!(extracted, payload);

    // The unified codec alone, without encryption.
    let payload = b"Hello, steganography!";
    let codec = LsbCodec::new(LsbParams::default(), cloak_core::ImageFormat::Png);
    let stego = codec.encode(&cover, payload).unwrap();
    let extracted = codec.decode(&stego).unwrap();
    assert_eq!(extracted, payload);
}

#[test]
fn bmp_roundtrip() {
    let cover = make_bmp(64, 64);
    let payload = b"BMP end-to-end roundtrip";
    let opts = default_opts();

    let stego = cloak_core::embed(&cover, payload, PASSPHRASE, Some("cover.bmp"), &opts).unwrap();
    let extracted = cloak_core::extract(&stego, PASSPHRASE, Some("stego.bmp"), &opts).unwrap();

    assert_eq!(extracted, payload);

    // The BMP codec alone: one bit per channel, no encryption, no padding.
    let payload = b"BMP steganography works!";
    let codec = BmpCodec;
    let stego = codec.encode(&cover, payload).unwrap();
    let extracted = codec.decode(&stego).unwrap();
    assert_eq!(extracted, payload);
}

#[test]
fn integration_jpeg_to_png_roundtrip() {
    let cover = make_jpeg(64, 64);
    let payload = b"JPEG cover -> PNG stego";
    let opts = default_opts();

    // Embed into JPEG cover (produces PNG stego)
    let stego = cloak_core::embed(&cover, payload, PASSPHRASE, Some("photo.jpg"), &opts).unwrap();

    // Extract from the PNG output
    let extracted = cloak_core::extract(&stego, PASSPHRASE, None, &opts).unwrap();

    assert_eq!(extracted, payload);
}

#[test]
fn integration_webp_to_png_roundtrip() {
    let cover = make_webp(64, 64);
    let payload = b"WebP cover -> PNG stego";
    let opts = default_opts();

    let stego = cloak_core::embed(&cover, payload, PASSPHRASE, Some("image.webp"), &opts).unwrap();

    // Stego output is PNG
    let extracted = cloak_core::extract(&stego, PASSPHRASE, None, &opts).unwrap();

    assert_eq!(extracted, payload);
}

#[test]
fn multi_bit_roundtrip_depth_2() {
    let cover = make_png(64, 64);
    let payload = b"multi-bit depth 2 test payload";
    let opts = EmbedOptions {
        bit_depth: 2,
        randomized: false,
    };

    let stego = cloak_core::embed(&cover, payload, PASSPHRASE, None, &opts).unwrap();
    let extracted = cloak_core::extract(&stego, PASSPHRASE, None, &opts).unwrap();

    assert_eq!(extracted, payload);
}

#[test]
fn multi_bit_roundtrip_depth_4() {
    let cover = make_png(64, 64);
    let payload = b"multi-bit depth 4 test payload with more data for good measure";
    let opts = EmbedOptions {
        bit_depth: 4,
        randomized: false,
    };

    let stego = cloak_core::embed(&cover, payload, PASSPHRASE, None, &opts).unwrap();
    let extracted = cloak_core::extract(&stego, PASSPHRASE, None, &opts).unwrap();

    assert_eq!(extracted, payload);
}

#[test]
fn integration_randomized_roundtrip() {
    let cover = make_png(64, 64);
    let payload = b"randomized embedding test";
    let opts = EmbedOptions {
        bit_depth: 1,
        randomized: true,
    };

    let stego = cloak_core::embed(&cover, payload, PASSPHRASE, None, &opts).unwrap();
    let extracted = cloak_core::extract(&stego, PASSPHRASE, None, &opts).unwrap();

    assert_eq!(extracted, payload);
}

#[test]
fn randomized_multi_bit_roundtrip() {
    let cover = make_png(64, 64);
    let payload = b"randomized + multi-bit combined";
    let opts = EmbedOptions {
        bit_depth: 3,
        randomized: true,
    };

    let stego = cloak_core::embed(&cover, payload, PASSPHRASE, None, &opts).unwrap();
    let extracted = cloak_core::extract(&stego, PASSPHRASE, None, &opts).unwrap();

    assert_eq!(extracted, payload);
}

#[test]
fn integration_wrong_passphrase() {
    let cover = make_png(64, 64);
    let payload = b"secret data";
    let opts = default_opts();

    let stego = cloak_core::embed(&cover, payload, PASSPHRASE, None, &opts).unwrap();
    let result = cloak_core::extract(&stego, "wrong-passphrase", None, &opts);

    assert!(
        matches!(
            result,
            Err(CloakError::InvalidPassphrase | CloakError::CorruptedData(_))
        ),
        "expected InvalidPassphrase or CorruptedData, got: {result:?}"
    );
}

#[test]
fn wrong_bit_depth_extract() {
    let cover = make_png(64, 64);
    let payload = b"bit depth mismatch test";
    let embed_opts = EmbedOptions {
        bit_depth: 2,
        randomized: false,
    };
    let extract_opts = EmbedOptions {
        bit_depth: 1,
        randomized: false,
    };

    let stego = cloak_core::embed(&cover, payload, PASSPHRASE, None, &embed_opts).unwrap();
    let result = cloak_core::extract(&stego, PASSPHRASE, None, &extract_opts);

    // Should fail to decrypt or produce garbage
    match result {
        Ok(data) => assert_ne!(data, payload),
        Err(_) => {} // Also acceptable
    }
}

#[test]
fn wrong_randomize_flag() {
    let cover = make_png(64, 64);
    let payload = b"randomize mismatch test";
    let embed_opts = EmbedOptions {
        bit_depth: 1,
        randomized: true,
    };
    let extract_opts = EmbedOptions {
        bit_depth: 1,
        randomized: false,
    };

    let stego = cloak_core::embed(&cover, payload, PASSPHRASE, None, &embed_opts).unwrap();
    let result = cloak_core::extract(&stego, PASSPHRASE, None, &extract_opts);

    // Should fail to decrypt or produce garbage
    match result {
        Ok(data) => assert_ne!(data, payload),
        Err(_) => {} // Also acceptable
    }
}

#[test]
fn integration_capacity_check() {
    let cover = make_png(64, 64);
    let opts = default_opts();

    let cap = cloak_core::capacity(&cover, None, &opts).unwrap();
    assert!(cap > 0);

    // Payload at exact capacity should work
    let payload: Vec<u8> = (0..cap).map(|i| (i % 256) as u8).collect();
    let stego = cloak_core::embed(&cover, &payload, PASSPHRASE, None, &opts).unwrap();
    let extracted = cloak_core::extract(&stego, PASSPHRASE, None, &opts).unwrap();

    assert_eq!(extracted, payload);
}

#[test]
fn oversize_payload() {
    let cover = make_png(16, 16);
    let opts = default_opts();

    let cap = cloak_core::capacity(&cover, None, &opts).unwrap();
    let payload = vec![0xAA; cap + 1];

    let result = cloak_core::embed(&cover, &payload, PASSPHRASE, None, &opts);
    assert!(
        matches!(result, Err(CloakError::PayloadTooLarge { .. })),
        "expected PayloadTooLarge, got: {result:?}"
    );
}

const PASS2: &str = "proptest-pass";

#[test]
fn capacity_matches_report() {
    for (w, h) in [(4u32, 4u32), (7, 13), (16, 16), (64, 64), (100, 37)] {
        for bit_depth in 1u8..=4 {
            let cover = make_png(w, h);
            let opts = EmbedOptions {
                bit_depth,
                ..Default::default()
            };
            let cap = cloak_core::capacity(&cover, None, &opts).unwrap();
            let report = cloak_core::capacity_report(&cover, None, &opts).unwrap();
            assert_eq!(cap, report.usable_bytes);
            assert_eq!((report.width, report.height, report.bit_depth), (w, h, bit_depth));
            let expected = report
                .breakdown
                .usable_bytes
                .saturating_sub(cloak_core::crypto::overhead());
            assert_eq!(cap, expected);
        }
    }
}

#[test]
fn capacity_monotonic_with_bit_depth() {
    for (w, h) in [(8u32, 8u32), (9, 31), (64, 64), (128, 100)] {
        let cover = make_png(w, h);
        let mut prev_cap = 0;
        for bd in 1u8..=4 {
            let opts = EmbedOptions {
                bit_depth: bd,
                ..Default::default()
            };
            let cap = cloak_core::capacity(&cover, None, &opts).unwrap();
            assert!(cap >= prev_cap, "bd={bd}");
            prev_cap = cap;
        }
    }
}

#[test]
fn capacity_exact_values() {
    let cover = make_png(64, 64);
    // 64x64x3 = 12288 bits -> 1532 raw bytes -> 23 blocks = 1472, minus 49 overhead
    assert_eq!(cloak_core::capacity(&cover, None, &default_opts()).unwrap(), 1423);
    // A tiny cover has less room than the encryption overhead: capacity 0.
    let tiny = make_png(4, 4);
    assert_eq!(cloak_core::capacity(&tiny, None, &default_opts()).unwrap(), 0);
    // Bit depth 0 is taken as 1.
    let zero = EmbedOptions::default();
    assert_eq!(cloak_core::capacity(&cover, None, &zero).unwrap(), 1423);
}

#[test]
fn capacity_ignores_randomization() {
    let cover = make_png(33, 21);
    for bit_depth in 1u8..=4 {
        let seq = EmbedOptions {
            bit_depth,
            randomized: false,
        };
        let rand = EmbedOptions {
            bit_depth,
            randomized: true,
        };
        assert_eq!(
            cloak_core::capacity(&cover, None, &seq).unwrap(),
            cloak_core::capacity(&cover, None, &rand).unwrap()
        );
    }
}

#[test]
fn capacity_errors() {
    let opts = default_opts();
    assert!(matches!(
        cloak_core::capacity(b"plain text", Some("notes.txt"), &opts),
        Err(CloakError::UnsupportedFormat(_))
    ));
    assert!(matches!(
        cloak_core::capacity(b"\x89PNG\r\n\x1a\ngarbage", None, &opts),
        Err(CloakError::Image(_))
    ));
    assert!(matches!(
        cloak_core::capacity_report(b"plain text", None, &opts),
        Err(CloakError::UnsupportedFormat(_))
    ));
}

#[test]
fn exact_capacity_embeds_and_roundtrips() {
    for (w, h, bit_depth) in [(16u32, 16u32, 1u8), (23, 40, 3)] {
        let cover = make_png(w, h);
        let opts = EmbedOptions {
            bit_depth,
            ..Default::default()
        };
        let cap = cloak_core::capacity(&cover, None, &opts).unwrap();
        if cap == 0 {
            continue;
        }
        let payload: Vec<u8> = (0..cap).map(|i| (i % 256) as u8).collect();
        let stego = cloak_core::embed(&cover, &payload, PASS2, None, &opts).unwrap();
        let extracted = cloak_core::extract(&stego, PASS2, None, &opts).unwrap();
        assert_eq!(extracted, payload);
        let too_big = vec![0u8; cap + 1];
        assert!(matches!(
            cloak_core::embed(&cover, &too_big, PASS2, None, &opts),
            Err(CloakError::PayloadTooLarge { .. })
        ));
    }
}

#[test]
fn roundtrip_sequential_vs_randomized() {
    for (w, h, bit_depth) in [(32u32, 32u32, 1u8), (64, 64, 2)] {
        let cover = make_png(w, h);
        let payload = b"consistency test payload data!";
        let seq_opts = EmbedOptions {
            bit_depth,
            randomized: false,
        };
        let rand_opts = EmbedOptions {
            bit_depth,
            randomized: true,
        };
        let seq_cap = cloak_core::capacity(&cover, None, &seq_opts).unwrap();
        if seq_cap < payload.len() {
            continue;
        }
        let seq_stego = cloak_core::embed(&cover, payload, PASS2, None, &seq_opts).unwrap();
        let rand_stego = cloak_core::embed(&cover, payload, PASS2, None, &rand_opts).unwrap();
        let seq_out = cloak_core::extract(&seq_stego, PASS2, None, &seq_opts).unwrap();
        let rand_out = cloak_core::extract(&rand_stego, PASS2, None, &rand_opts).unwrap();
        assert_eq!(&seq_out[..], payload);
        assert_eq!(&rand_out[..], payload);
    }
}

#[test]
fn roundtrip_empty_payload_all_depths() {
    let cover = make_png(16, 16);
    for bit_depth in 1u8..=4 {
        let opts = EmbedOptions {
            bit_depth,
            ..Default::default()
        };
        let stego = cloak_core::embed(&cover, b"", PASS2, None, &opts).unwrap();
        let extracted = cloak_core::extract(&stego, PASS2, None, &opts).unwrap();
        assert!(extracted.is_empty());
    }
}

#[test]
fn roundtrip_tiff_cover() {
    let img = RgbaImage::from_fn(32, 32, |x, y| image::Rgba([(x * 5) as u8, (y * 3) as u8, (x ^ y) as u8, 255]));
    let mut cover = Vec::new();
    img.write_to(&mut Cursor::new(&mut cover), ImageFormat::Tiff).unwrap();
    let opts = default_opts();
    let payload = b"tiff cover";
    let stego = cloak_core::embed(&cover, payload, PASS2, Some("test.tiff"), &opts).unwrap();
    assert_eq!(cloak_core::ImageFormat::detect(&stego, None).unwrap(), cloak_core::ImageFormat::Tiff);
    let extracted = cloak_core::extract(&stego, PASS2, Some("out.tiff"), &opts).unwrap();
    assert_eq!(extracted, payload);
}

#[test]
fn extract_refuses_lossy_formats() {
    let jpeg = make_jpeg(16, 16);
    let result = cloak_core::extract(&jpeg, PASSPHRASE, None, &default_opts());
    assert!(matches!(result, Err(CloakError::UnsupportedFormat(_))));
}

#[test]
fn extract_from_clean_cover_fails() {
    let cover = make_png(32, 32);
    let result = cloak_core::extract(&cover, PASSPHRASE, None, &default_opts());
    assert!(result.is_err());
}

#[test]
fn embed_rejects_unknown_format() {
    let result = cloak_core::embed(b"hello", b"x", PASSPHRASE, Some("a.txt"), &default_opts());
    assert!(matches!(result, Err(CloakError::UnsupportedFormat(_))));
}

#[test]
fn payload_too_large_reports_sizes() {
    let cover = make_png(16, 16);
    let opts = default_opts();
    let payload = vec![1u8; 200];
    match cloak_core::embed(&cover, &payload, PASSPHRASE, None, &opts) {
        Err(CloakError::PayloadTooLarge { needed, capacity }) => {
            // needed counts the encryption overhead; capacity is the usable stego bytes
            assert_eq!(needed, 200 + 49);
            assert_eq!(capacity, 64);
        }
        other => panic!("expected PayloadTooLarge, got {other:?}"),
    }
}

#[test]
fn stego_is_detected_and_read_back_by_signature() {
    let rgba = RgbaImage::from_fn(40, 30, |x, y| image::Rgba([(x * 7) as u8, (y * 11) as u8, (x + y) as u8, 200]));
    for (fmt, name, out_fmt) in [
        (ImageFormat::Png, "c.png", cloak_core::ImageFormat::Png),
        (ImageFormat::Bmp, "c.bmp", cloak_core::ImageFormat::Bmp),
        (ImageFormat::Tiff, "c.tiff", cloak_core::ImageFormat::Tiff),
    ] {
        let mut cover = Vec::new();
        rgba.write_to(&mut Cursor::new(&mut cover), fmt).unwrap();
        let opts = default_opts();
        let payload = b"read back by signature";
        let stego = cloak_core::embed(&cover, payload, PASS2, Some(name), &opts).unwrap();
        assert_eq!(cloak_core::ImageFormat::detect(&stego, None).unwrap(), out_fmt);
        let decoded = image::load_from_memory(&stego).unwrap().to_rgba8();
        assert_eq!(decoded.dimensions(), (40, 30));
        let before = image::load_from_memory(&cover).unwrap().to_rgba8();
        for (a, b) in decoded.as_raw().iter().zip(before.as_raw().iter()) {
            assert_eq!(a & 0xFE, b & 0xFE);
        }
        for (a, b) in decoded.as_raw().chunks(4).zip(before.as_raw().chunks(4)) {
            assert_eq!(a[3], b[3]);
        }
        let extracted = cloak_core::extract(&stego, PASS2, None, &opts).unwrap();
        assert_eq!(extracted, payload);
    }
}
