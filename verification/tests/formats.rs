use std::io::Cursor;

use cloak_core::formats::bmp::{bits_to_byte, bits_to_u32, BmpCodec};
use cloak_core::formats::jpeg::JpegCodec;
use cloak_core::formats::lossy_output_needs_rename;
use cloak_core::formats::webp::WebpCodec;
use cloak_core::{Capacity, CloakError, Decoder, Encoder, ImageFormat as CloakFormat, LsbCodec, LsbParams};
use image::{ImageFormat, RgbImage, RgbaImage};

fn pattern_rgba(width: u32, height: u32) -> RgbaImage {
    RgbaImage::from_fn(width, height, |x, y| {
        let r = ((x * 17 + y * 31) % 256) as u8;
        let g = ((x * 41 + y * 13) % 256) as u8;
        let b = ((x * 7 + y * 53) % 256) as u8;
        image::Rgba([r, g, b, 255])
    })
}

fn make_image(width: u32, height: u32, format: ImageFormat) -> Vec<u8> {
    let mut buf = Vec::new();
    pattern_rgba(width, height)
        .write_to(&mut Cursor::new(&mut buf), format)
        .unwrap();
    buf
}

fn make_test_png(width: u32, height: u32) -> Vec<u8> {
    make_image(width, height, ImageFormat::Png)
}

fn make_test_gif(width: u32, height: u32) -> Vec<u8> {
    make_image(width, height, ImageFormat::Gif)
}

fn make_test_tiff(width: u32, height: u32) -> Vec<u8> {
    make_image(width, height, ImageFormat::Tiff)
}

fn make_test_bmp(width: u32, height: u32) -> Vec<u8> {
    make_image(width, height, ImageFormat::Bmp)
}

fn make_test_webp(width: u32, height: u32) -> Vec<u8> {
    make_image(width, height, ImageFormat::WebP)
}

fn make_test_jpeg(width: u32, height: u32) -> Vec<u8> {
    let img = RgbImage::from_fn(width, height, |x, y| {
        let r = ((x * 17 + y * 31) % 256) as u8;
        let g = ((x * 41 + y * 13) % 256) as u8;
        let b = ((x * 7 + y * 53) % 256) as u8;
        image::Rgb([r, g, b])
    });
    let mut buf = Vec::new();
    img.write_to(&mut Cursor::new(&mut buf), ImageFormat::Jpeg)
        .unwrap();
    buf
}

fn png_codec() -> LsbCodec {
    LsbCodec::new(LsbParams::default(), CloakFormat::Png)
}

fn codec_with_depth(bit_depth: u8, format: CloakFormat) -> LsbCodec {
    LsbCodec::new(
        LsbParams {
            bit_depth,
            ..Default::default()
        },
        format,
    )
}

// --- format detection ---

#[test]
fn gif_extension_detection() {
    let format = CloakFormat::detect(&[], Some("anim.gif")).unwrap();
    assert_eq!(format, CloakFormat::Gif);
}

#[test]
fn tiff_extension_detection() {
    let format = CloakFormat::detect(&[], Some("photo.tiff")).unwrap();
    assert_eq!(format, CloakFormat::Tiff);
    let format = CloakFormat::detect(&[], Some("photo.tif")).unwrap();
    assert_eq!(format, CloakFormat::Tiff);
}

#[test]
fn jpeg_extension_detection() {
    let format = CloakFormat::detect(&[], Some("photo.jpg")).unwrap();
    assert_eq!(format, CloakFormat::Jpeg);

    let format = CloakFormat::detect(&[], Some("photo.jpeg")).unwrap();
    assert_eq!(format, CloakFormat::Jpeg);
}

#[test]
fn webp_extension_detection() {
    let format = CloakFormat::detect(&[], Some("photo.webp")).unwrap();
    assert_eq!(format, CloakFormat::WebP);
}

#[test]
fn gif_format_detection() {
    let cover = make_test_gif(4, 4);
    let format = CloakFormat::detect(&cover, None).unwrap();
    assert_eq!(format, CloakFormat::Gif);
}

#[test]
fn tiff_format_detection() {
    let cover = make_test_tiff(4, 4);
    let format = CloakFormat::detect(&cover, None).unwrap();
    assert_eq!(format, CloakFormat::Tiff);
}

#[test]
fn jpeg_format_detection() {
    let cover = make_test_jpeg(4, 4);
    // JPEG magic bytes: FF D8 FF
    assert_eq!(cover[0], 0xFF);
    assert_eq!(cover[1], 0xD8);
    assert_eq!(cover[2], 0xFF);

    let format = CloakFormat::detect(&cover, None).unwrap();
    assert_eq!(format, CloakFormat::Jpeg);
}

#[test]
fn webp_format_detection() {
    let cover = make_test_webp(4, 4);
    assert_eq!(&cover[..4], b"RIFF");
    assert_eq!(&cover[8..12], b"WEBP");

    let format = CloakFormat::detect(&cover, None).unwrap();
    assert_eq!(format, CloakFormat::WebP);
}

#[test]
fn valid_magic_bytes_detect_correctly() {
    let png_magic = b"\x89PNG\r\n\x1a\n";
    assert_eq!(CloakFormat::detect(png_magic, None).unwrap(), CloakFormat::Png);

    let bmp_magic = b"BM\x00\x00\x00\x00";
    assert_eq!(CloakFormat::detect(bmp_magic, None).unwrap(), CloakFormat::Bmp);

    let jpeg_magic = b"\xFF\xD8\xFF\xE0";
    assert_eq!(CloakFormat::detect(jpeg_magic, None).unwrap(), CloakFormat::Jpeg);

    let gif_magic = b"GIF89a";
    assert_eq!(CloakFormat::detect(gif_magic, None).unwrap(), CloakFormat::Gif);
}

#[test]
fn magic_bytes_win_over_extension() {
    let png_magic = b"\x89PNG\r\n\x1a\n";
    assert_eq!(
        CloakFormat::detect(png_magic, Some("photo.jpg")).unwrap(),
        CloakFormat::Png
    );
}

#[test]
fn extension_detection_ignores_case() {
    assert_eq!(
        CloakFormat::detect(&[], Some("PHOTO.PNG")).unwrap(),
        CloakFormat::Png
    );
    assert_eq!(
        CloakFormat::detect(&[], Some("Scan.TiF")).unwrap(),
        CloakFormat::Tiff
    );
}

#[test]
fn unknown_format_is_rejected() {
    let result = CloakFormat::detect(&[1, 2, 3], Some("notes.txt"));
    match result {
        Err(CloakError::UnsupportedFormat(msg)) => assert!(msg.contains("notes.txt")),
        other => panic!("expected UnsupportedFormat, got {other:?}"),
    }
    let result = CloakFormat::detect(&[1, 2, 3], None);
    assert!(matches!(result, Err(CloakError::UnsupportedFormat(_))));
}

#[test]
fn detect_gif87a_and_big_endian_tiff() {
    assert_eq!(CloakFormat::detect(b"GIF87a", None).unwrap(), CloakFormat::Gif);
    assert_eq!(
        CloakFormat::detect(&[0x4D, 0x4D, 0x00, 0x2A], None).unwrap(),
        CloakFormat::Tiff
    );
}

#[test]
fn output_format_extension_and_lossiness() {
    assert_eq!(CloakFormat::Jpeg.output_format(), CloakFormat::Png);
    assert_eq!(CloakFormat::WebP.output_format(), CloakFormat::Png);
    assert_eq!(CloakFormat::Gif.output_format(), CloakFormat::Png);
    assert_eq!(CloakFormat::Bmp.output_format(), CloakFormat::Bmp);
    assert_eq!(CloakFormat::Tiff.output_format(), CloakFormat::Tiff);
    assert_eq!(CloakFormat::Png.extension(), ".png");
    assert_eq!(CloakFormat::Jpeg.extension(), ".jpg");
    assert_eq!(CloakFormat::Tiff.extension(), ".tiff");
    assert!(CloakFormat::Gif.is_lossy());
    assert!(!CloakFormat::Bmp.is_lossy());
}

#[test]
fn lossy_output_rename_rules() {
    assert!(lossy_output_needs_rename(CloakFormat::Jpeg, "out.JPG"));
    assert!(lossy_output_needs_rename(CloakFormat::WebP, "dir/out.webp"));
    assert!(!lossy_output_needs_rename(CloakFormat::Jpeg, "out.png"));
    assert!(!lossy_output_needs_rename(CloakFormat::Png, "out.jpg"));
    assert!(!lossy_output_needs_rename(CloakFormat::Jpeg, "-"));
    assert!(lossy_output_needs_rename(CloakFormat::Gif, "stego.gif"));
    assert!(lossy_output_needs_rename(CloakFormat::Gif, "anim.GIF"));
    assert!(!lossy_output_needs_rename(CloakFormat::Gif, "stego.png"));
    assert!(!lossy_output_needs_rename(CloakFormat::Png, "stego.gif"));
}

// --- PNG through the unified codec ---

#[test]
fn roundtrip_empty_payload() {
    let cover = make_test_png(16, 16);
    let codec = png_codec();
    let stego = codec.encode(&cover, b"").unwrap();
    let extracted = codec.decode(&stego).unwrap();
    assert!(extracted.is_empty());
}

#[test]
fn png_capacity_check() {
    let cover = make_test_png(10, 10);
    let codec = png_codec();
    let cap = codec.capacity(&cover).unwrap();
    assert_eq!(cap, 33);
}

#[test]
fn png_payload_too_large() {
    let cover = make_test_png(4, 4);
    let codec = png_codec();
    let cap = codec.capacity(&cover).unwrap();
    let payload = vec![0xAA; cap + 1];
    let result = codec.encode(&cover, &payload);
    assert!(matches!(result, Err(CloakError::PayloadTooLarge { .. })));
}

#[test]
fn png_max_capacity_payload() {
    let cover = make_test_png(32, 32);
    let codec = png_codec();
    let cap = codec.capacity(&cover).unwrap();
    let payload: Vec<u8> = (0..cap).map(|i| (i % 256) as u8).collect();
    let stego = codec.encode(&cover, &payload).unwrap();
    let extracted = codec.decode(&stego).unwrap();
    assert_eq!(extracted, payload);
}

#[test]
fn binary_data_roundtrip() {
    let cover = make_test_png(64, 64);
    let payload: Vec<u8> = (0..=255).collect();
    let codec = png_codec();
    let stego = codec.encode(&cover, &payload).unwrap();
    let extracted = codec.decode(&stego).unwrap();
    assert_eq!(extracted, payload);
}

fn multi_bit_png(bit_depth: u8, limit: usize) {
    let cover = make_test_png(32, 32);
    let codec = codec_with_depth(bit_depth, CloakFormat::Png);
    let cap = codec.capacity(&cover).unwrap();
    let payload: Vec<u8> = (0..cap.min(limit)).map(|i| (i % 256) as u8).collect();
    let stego = codec.encode(&cover, &payload).unwrap();
    let extracted = codec.decode(&stego).unwrap();
    assert_eq!(extracted, payload);
}

#[test]
fn multi_bit_roundtrip_2() {
    multi_bit_png(2, 200);
}

#[test]
fn multi_bit_roundtrip_3() {
    multi_bit_png(3, 300);
}

#[test]
fn multi_bit_roundtrip_4() {
    multi_bit_png(4, 400);
}

#[test]
fn png_capacity_scales_with_bit_depth() {
    let cover = make_test_png(10, 10);
    let cap1 = codec_with_depth(1, CloakFormat::Png).capacity(&cover).unwrap();
    let cap2 = codec_with_depth(2, CloakFormat::Png).capacity(&cover).unwrap();
    let cap4 = codec_with_depth(4, CloakFormat::Png).capacity(&cover).unwrap();
    assert!(cap2 > cap1);
    assert!(cap4 > cap2);
}

#[test]
fn wrong_bit_depth_fails_extract() {
    let cover = make_test_png(32, 32);
    let embed_codec = codec_with_depth(2, CloakFormat::Png);
    let extract_codec = codec_with_depth(1, CloakFormat::Png);
    let payload = b"multi-bit test";
    let stego = embed_codec.encode(&cover, payload).unwrap();
    let result = extract_codec.decode(&stego);
    match result {
        Ok(data) => assert_ne!(data, payload),
        Err(_) => {}
    }
}

#[test]
fn codec_rejects_undecodable_cover() {
    let codec = png_codec();
    assert!(matches!(codec.capacity(b"not an image"), Err(CloakError::Image(_))));
    assert!(matches!(codec.encode(b"not an image", b"x"), Err(CloakError::Image(_))));
    assert!(matches!(codec.decode(b"not an image"), Err(CloakError::Image(_))));
}

#[test]
fn codec_rejects_short_traversal() {
    let cover = make_test_png(8, 8);
    let codec = LsbCodec::new(
        LsbParams {
            pixel_order: cloak_core::formats::lsb::PixelOrder::Randomized(vec![0, 1, 2]),
            ..Default::default()
        },
        CloakFormat::Png,
    );
    assert!(matches!(codec.encode(&cover, b"x"), Err(CloakError::CorruptedData(_))));
}

// --- GIF covers ---

#[test]
fn gif_to_png_roundtrip() {
    let cover = make_test_gif(64, 64);
    let payload = b"GIF steganography!";
    let gif_codec = png_codec();
    let png = png_codec();

    let stego = gif_codec.encode(&cover, payload).unwrap();
    let extracted = png.decode(&stego).unwrap();

    assert_eq!(extracted, payload);
}

#[test]
fn gif_capacity() {
    let cover = make_test_gif(10, 10);
    let codec = png_codec();
    let cap = codec.capacity(&cover).unwrap();
    assert_eq!(cap, 33);
}

#[test]
fn gif_payload_too_large() {
    let cover = make_test_gif(4, 4);
    let codec = png_codec();
    let cap = codec.capacity(&cover).unwrap();
    let payload = vec![0xAA; cap + 1];
    let result = codec.encode(&cover, &payload);
    assert!(matches!(result, Err(CloakError::PayloadTooLarge { .. })));
}

#[test]
fn gif_max_capacity_payload() {
    let cover = make_test_gif(32, 32);
    let gif_codec = png_codec();
    let png = png_codec();
    let cap = gif_codec.capacity(&cover).unwrap();
    let payload: Vec<u8> = (0..cap).map(|i| (i % 256) as u8).collect();
    let stego = gif_codec.encode(&cover, &payload).unwrap();
    let extracted = png.decode(&stego).unwrap();
    assert_eq!(extracted, payload);
}

#[test]
fn gif_multi_bit_roundtrip() {
    let cover = make_test_gif(32, 32);
    let params = LsbParams {
        bit_depth: 2,
        ..Default::default()
    };
    let gif_codec = LsbCodec::new(params.clone(), CloakFormat::Png);
    let png = LsbCodec::new(params, CloakFormat::Png);
    let cap = gif_codec.capacity(&cover).unwrap();
    let payload: Vec<u8> = (0..cap.min(200)).map(|i| (i % 256) as u8).collect();
    let stego = gif_codec.encode(&cover, &payload).unwrap();
    let extracted = png.decode(&stego).unwrap();
    assert_eq!(extracted, payload);
}

// --- TIFF ---

#[test]
fn tiff_roundtrip() {
    let cover = make_test_tiff(64, 64);
    let payload = b"TIFF steganography!";
    let codec = LsbCodec::new(LsbParams::default(), CloakFormat::Tiff);
    let stego = codec.encode(&cover, payload).unwrap();
    let extracted = codec.decode(&stego).unwrap();
    assert_eq!(extracted, payload);
}

#[test]
fn tiff_capacity() {
    let cover = make_test_tiff(10, 10);
    let codec = LsbCodec::new(LsbParams::default(), CloakFormat::Tiff);
    let cap = codec.capacity(&cover).unwrap();
    assert_eq!(cap, 33);
}

#[test]
fn tiff_payload_too_large() {
    let cover = make_test_tiff(4, 4);
    let codec = LsbCodec::new(LsbParams::default(), CloakFormat::Tiff);
    let cap = codec.capacity(&cover).unwrap();
    let payload = vec![0xAA; cap + 1];
    let result = codec.encode(&cover, &payload);
    assert!(matches!(result, Err(CloakError::PayloadTooLarge { .. })));
}

#[test]
fn tiff_max_capacity_payload() {
    let cover = make_test_tiff(32, 32);
    let codec = LsbCodec::new(LsbParams::default(), CloakFormat::Tiff);
    let cap = codec.capacity(&cover).unwrap();
    let payload: Vec<u8> = (0..cap).map(|i| (i % 256) as u8).collect();
    let stego = codec.encode(&cover, &payload).unwrap();
    let extracted = codec.decode(&stego).unwrap();
    assert_eq!(extracted, payload);
}

#[test]
fn tiff_multi_bit_roundtrip() {
    let cover = make_test_tiff(32, 32);
    let codec = codec_with_depth(2, CloakFormat::Tiff);
    let cap = codec.capacity(&cover).unwrap();
    let payload: Vec<u8> = (0..cap.min(200)).map(|i| (i % 256) as u8).collect();
    let stego = codec.encode(&cover, &payload).unwrap();
    let extracted = codec.decode(&stego).unwrap();
    assert_eq!(extracted, payload);
}

#[test]
fn tiff_capacity_scales_with_bit_depth() {
    let cover = make_test_tiff(10, 10);
    let cap1 = codec_with_depth(1, CloakFormat::Tiff).capacity(&cover).unwrap();
    let cap2 = codec_with_depth(2, CloakFormat::Tiff).capacity(&cover).unwrap();
    let cap4 = codec_with_depth(4, CloakFormat::Tiff).capacity(&cover).unwrap();
    assert!(cap2 > cap1);
    assert!(cap4 > cap2);
}

// --- JPEG and WebP covers (stego written as PNG) ---

#[test]
fn jpeg_jpeg_to_png_roundtrip() {
    let cover = make_test_jpeg(64, 64);
    let payload = b"JPEG steganography!";
    let jpeg_codec = JpegCodec;
    let png = png_codec();

    let stego = jpeg_codec.encode(&cover, payload).unwrap();
    // Output is PNG, so extract with the PNG codec
    let extracted = png.decode(&stego).unwrap();

    assert_eq!(extracted, payload);
}

#[test]
fn jpeg_capacity() {
    let cover = make_test_jpeg(10, 10);
    let codec = JpegCodec;
    let cap = codec.capacity(&cover).unwrap();
    assert_eq!(cap, 33);
}

#[test]
fn jpeg_stego_is_png() {
    let cover = make_test_jpeg(16, 16);
    let stego = JpegCodec.encode(&cover, b"x").unwrap();
    assert_eq!(CloakFormat::detect(&stego, None).unwrap(), CloakFormat::Png);
}

#[test]
fn webp_webp_to_png_roundtrip() {
    let cover = make_test_webp(64, 64);
    let payload = b"WebP steganography!";
    let webp_codec = WebpCodec::default();
    let png = png_codec();

    let stego = webp_codec.encode(&cover, payload).unwrap();
    let extracted = png.decode(&stego).unwrap();

    assert_eq!(extracted, payload);
}

#[test]
fn webp_capacity() {
    let cover = make_test_webp(10, 10);
    let codec = WebpCodec::default();
    let cap = codec.capacity(&cover).unwrap();
    assert_eq!(cap, 33);
}

#[test]
fn webp_codec_new_keeps_params() {
    let cover = make_test_webp(10, 10);
    let codec = WebpCodec::new(LsbParams {
        bit_depth: 2,
        ..Default::default()
    });
    assert_eq!(codec.params.bit_depth, 2);
    // 10x10x3x2 = 600 bits, (600 - 32) / 8 = 71 raw bytes -> one 64-byte block
    assert_eq!(codec.capacity(&cover).unwrap(), 64);
}

// --- BMP codec ---

#[test]
fn bmp_capacity_check() {
    let cover = make_test_bmp(10, 10);
    let codec = BmpCodec;
    let cap = codec.capacity(&cover).unwrap();
    assert_eq!(cap, 33);
}

#[test]
fn bmp_payload_too_large() {
    let cover = make_test_bmp(4, 4);
    let codec = BmpCodec;
    let cap = codec.capacity(&cover).unwrap();
    let payload = vec![0xAA; cap + 1];
    let result = codec.encode(&cover, &payload);
    assert!(matches!(result, Err(CloakError::PayloadTooLarge { .. })));
}

#[test]
fn bmp_max_capacity_payload() {
    let cover = make_test_bmp(32, 32);
    let codec = BmpCodec;
    let cap = codec.capacity(&cover).unwrap();
    let payload: Vec<u8> = (0..cap).map(|i| (i % 256) as u8).collect();
    let stego = codec.encode(&cover, &payload).unwrap();
    let extracted = codec.decode(&stego).unwrap();
    assert_eq!(extracted, payload);
}

#[test]
fn bmp_capacity_is_not_block_rounded() {
    // 32x32: (3072 - 32) / 8 = 380 bytes; the unified codec rounds to 320.
    let cover = make_test_bmp(32, 32);
    assert_eq!(BmpCodec.capacity(&cover).unwrap(), 380);
    assert_eq!(png_codec().capacity(&cover).unwrap(), 320);
}

#[test]
fn bmp_stego_is_bmp_and_tiny_image_rejected() {
    let cover = make_test_bmp(8, 8);
    let stego = BmpCodec.encode(&cover, b"hi").unwrap();
    assert_eq!(CloakFormat::detect(&stego, None).unwrap(), CloakFormat::Bmp);
    // 3x3 pixels carry 27 bits, fewer than the 32-bit header
    let tiny = make_test_bmp(3, 3);
    assert!(matches!(BmpCodec.decode(&tiny), Err(CloakError::CorruptedData(_))));
}

#[test]
fn bits_fold_most_significant_first() {
    assert_eq!(bits_to_byte(&[1, 0, 1, 0, 0, 0, 0, 1]), 0xA1);
    assert_eq!(bits_to_byte(&[1, 1]), 3);
    let mut bits = vec![0u8; 31];
    bits.push(1);
    bits.extend_from_slice(&[1, 1, 1]);
    // only the first 32 entries count
    assert_eq!(bits_to_u32(&bits), 1);
    assert_eq!(bits_to_u32(&[]), 0);
}
