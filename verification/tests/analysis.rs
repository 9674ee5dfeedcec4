use std::io::Cursor;

use cloak_core::analysis::{
    apply_mask, channel_histogram, count_discordant, count_rank_lsb_flips, extract_bit_plane,
    flip_lsb, flip_lsb_neg, load_pixels, palette_usage, parse_gif_palette, pixel_histogram,
    rank_of_order, rgb_pixels, rs_group_counts, sample_pair_counts, smoothness,
};
use cloak_core::CloakError;
use image::{ImageFormat, RgbaImage};

fn make_test_png(width: u32, height: u32) -> Vec<u8> {
    let img = RgbaImage::from_fn(width, height, |x, y| {
        let r = ((x * 17 + y * 31) % 256) as u8;
        let g = ((x * 41 + y * 13) % 256) as u8;
        let b = ((x * 7 + y * 53) % 256) as u8;
        image::Rgba([r, g, b, 255])
    });
    let mut buf = Vec::new();
    img.write_to(&mut Cursor::new(&mut buf), ImageFormat::Png)
        .unwrap();
    buf
}

fn make_test_gif(palette: &[[u8; 3]], width: u16, height: u16, indices: &[u8]) -> Vec<u8> {
    let mut buf = Vec::new();
    {
        let palette_flat: Vec<u8> = palette.iter().flat_map(|c| c.iter().copied()).collect();
        let mut encoder = gif::Encoder::new(&mut buf, width, height, &palette_flat).unwrap();
        let mut frame = gif::Frame::default();
        frame.width = width;
        frame.height = height;
        frame.buffer = std::borrow::Cow::Borrowed(indices);
        encoder.write_frame(&frame).unwrap();
    }
    buf
}

fn pixels_of(data: &[u8]) -> Vec<[u8; 3]> {
    let img = load_pixels(data).unwrap();
    rgb_pixels(&img)
}

#[test]
fn histogram_sums_correctly() {
    let data = make_test_png(16, 16);
    let histogram = pixel_histogram(&pixels_of(&data));

    let total: u64 = histogram.iter().sum();
    assert_eq!(total, 768);
}

#[test]
fn histogram_counts_each_channel_value() {
    let pixels = vec![[0u8, 0, 7], [7, 255, 0]];
    let histogram = pixel_histogram(&pixels);
    assert_eq!(histogram.len(), 256);
    assert_eq!(histogram[0], 3);
    assert_eq!(histogram[7], 2);
    assert_eq!(histogram[255], 1);
    let red = channel_histogram(&pixels, 0);
    assert_eq!((red[0], red[7]), (1, 1));
    let blue = channel_histogram(&pixels, 2);
    assert_eq!((blue[7], blue[0]), (1, 1));
}

#[test]
fn extract_lsb_plane() {
    let data = make_test_png(8, 8);
    let plane = extract_bit_plane(&data, 0, 0).unwrap();

    assert_eq!(plane.width, 8);
    assert_eq!(plane.height, 8);
    assert_eq!(plane.data.len(), 64);
    assert!(plane.data.iter().all(|&v| v == 0 || v == 1));
}

#[test]
fn extract_msb_plane() {
    let data = make_test_png(8, 8);
    let plane = extract_bit_plane(&data, 2, 7).unwrap();

    assert_eq!(plane.data.len(), 64);
    assert!(plane.data.iter().all(|&v| v == 0 || v == 1));
}

#[test]
fn bit_plane_exact_values() {
    let data = make_test_png(4, 2);
    let plane = extract_bit_plane(&data, 1, 3).unwrap();
    let mut expected = Vec::new();
    for y in 0..2u32 {
        for x in 0..4u32 {
            let g = ((x * 41 + y * 13) % 256) as u8;
            expected.push((g >> 3) & 1);
        }
    }
    assert_eq!(plane.data, expected);
}

#[test]
fn invalid_channel() {
    let data = make_test_png(4, 4);
    assert!(extract_bit_plane(&data, 3, 0).is_err());
}

#[test]
fn invalid_bit() {
    let data = make_test_png(4, 4);
    assert!(extract_bit_plane(&data, 0, 8).is_err());
}

#[test]
fn bit_plane_of_non_image_fails() {
    assert!(matches!(extract_bit_plane(b"nope", 0, 0), Err(CloakError::Image(_))));
}

#[test]
fn flips_exact_values() {
    assert_eq!(flip_lsb(0), 1);
    assert_eq!(flip_lsb(1), 0);
    assert_eq!(flip_lsb(254), 255);
    assert_eq!(flip_lsb_neg(0), 1);
    assert_eq!(flip_lsb_neg(255), 254);
    assert_eq!(flip_lsb_neg(1), 2);
    assert_eq!(flip_lsb_neg(2), 1);
    assert_eq!(flip_lsb_neg(100), 99);
    assert_eq!(flip_lsb_neg(101), 102);
    for v in 1..=254u8 {
        assert_eq!(flip_lsb_neg(flip_lsb_neg(v)), v);
        assert_eq!(flip_lsb(flip_lsb(v)), v);
    }
}

#[test]
fn mask_and_smoothness() {
    assert_eq!(apply_mask(&[10, 11, 12, 13], &[0, 1, 1, 0]), vec![10, 10, 13, 13]);
    assert_eq!(apply_mask(&[10, 11, 12, 13], &[0, -1, -1, 0]), vec![10, 12, 11, 13]);
    assert_eq!(apply_mask(&[1, 2, 3], &[1]), vec![0]);
    assert_eq!(smoothness(&[10, 11, 12, 13]), 3);
    assert_eq!(smoothness(&[10, 10, 13, 13]), 3);
    assert_eq!(smoothness(&[10, 12, 11, 13]), 5);
    assert_eq!(smoothness(&[]), 0);
    assert_eq!(smoothness(&[255, 0]), 255);
}

#[test]
fn rs_counts_small_image() {
    // One row of four pixels, all channels equal: group [10, 11, 12, 13].
    let pixels = vec![[10u8, 10, 10], [11, 11, 11], [12, 12, 12], [13, 13, 13]];
    let counts = rs_group_counts(&pixels, 4);
    assert_eq!(counts.total_groups, 3);
    // mask m keeps smoothness 3 (neither); mask -m raises it to 5 (regular).
    assert_eq!((counts.r_m, counts.s_m), (0, 0));
    assert_eq!((counts.r_neg_m, counts.s_neg_m), (3, 0));
}

#[test]
fn rs_counts_group_layout() {
    let data = make_test_png(10, 3);
    let pixels = pixels_of(&data);
    let counts = rs_group_counts(&pixels, 10);
    // 3 channels x 3 rows x 2 whole groups of four per row
    assert_eq!(counts.total_groups, 18);
    assert!(counts.r_m + counts.s_m <= 18);
    assert!(counts.r_neg_m + counts.s_neg_m <= 18);
}

#[test]
fn sample_pair_counts_cover_every_pair() {
    let data = make_test_png(64, 64);
    let counts = sample_pair_counts(&pixels_of(&data));
    assert!(counts.total_pairs > 0);
    assert_eq!(counts.total_pairs, 3 * (64 * 64 - 1));
    assert_eq!(
        counts.even_even + counts.even_odd + counts.odd_even + counts.odd_odd,
        counts.total_pairs
    );
}

#[test]
fn sample_pairs_exact_tallies() {
    let pixels = vec![[0u8, 1, 2], [1, 3, 2], [4, 3, 9]];
    let counts = sample_pair_counts(&pixels);
    assert_eq!(counts.total_pairs, 6);
    // R: (0,1) close e/o, (1,4) far o/e; G: (1,3) far o/o, (3,3) close o/o;
    // B: (2,2) close e/e, (2,9) far e/o
    assert_eq!(counts.close_pairs, 3);
    assert_eq!(counts.even_even, 1);
    assert_eq!(counts.even_odd, 2);
    assert_eq!(counts.odd_even, 1);
    assert_eq!(counts.odd_odd, 2);
    assert_eq!(sample_pair_counts(&[]).total_pairs, 0);
    assert_eq!(sample_pair_counts(&[[1, 2, 3]]).total_pairs, 0);
}

#[test]
fn analyze_gif_on_non_gif_fails() {
    let png = make_test_png(8, 8);
    let result = parse_gif_palette(&png);
    assert!(result.is_err());
}

#[test]
fn gif_palette_and_indices_parse() {
    let palette = [[0, 0, 0], [85, 85, 85], [170, 170, 170], [255, 255, 255]];
    let indices: Vec<u8> = (0..16).map(|i| (i % 4) as u8).collect();
    let data = make_test_gif(&palette, 4, 4, &indices);

    let (parsed, idx) = parse_gif_palette(&data).unwrap();
    assert_eq!(parsed.len(), 4);
    assert_eq!(&parsed[..], &palette[..]);
    assert_eq!(idx, indices);
}

#[test]
fn gif_usage_and_ezstego_tallies() {
    let palette: Vec<[u8; 3]> = (0..16).map(|i| [i * 16, i * 16, i * 16]).collect();
    let indices: Vec<u8> = (0..256)
        .map(|i| {
            let base = (i / 2) % 8;
            (base * 2 + (i % 2)) as u8
        })
        .collect();
    let data = make_test_gif(&palette, 16, 16, &indices);
    let (parsed, idx) = parse_gif_palette(&data).unwrap();
    assert_eq!(parsed.len(), 16);

    let usage = palette_usage(parsed.len(), &idx);
    assert_eq!(usage.iter().sum::<u64>(), 256);
    assert_eq!(usage[0], 16);
    assert_eq!(usage[15], 16);

    // A luminance-sorted palette: rank of entry i is i.
    let ranks: Vec<usize> = (0..16).collect();
    let (flips, total) = count_rank_lsb_flips(&ranks, &idx);
    assert_eq!(total, 255);
    // pairs (2k, 2k+1) inside each step of two: 128 of them
    assert_eq!(flips, 128);
}

#[test]
fn usage_skips_indices_past_palette() {
    let usage = palette_usage(2, &[0, 1, 1, 5, 9]);
    assert_eq!(usage, vec![1, 2]);
    assert_eq!(count_rank_lsb_flips(&[0, 1], &[]), (0, 0));
    // index 7 has no rank and counts as rank 0; 0 ^ 1 == 1
    assert_eq!(count_rank_lsb_flips(&[5, 4], &[7, 1]), (0, 1));
    assert_eq!(count_rank_lsb_flips(&[0, 1], &[7, 1]), (1, 1));
}

#[test]
fn discordant_pairs() {
    // identity order: no discordant pair
    assert_eq!(count_discordant(&[0, 1, 2, 3]), (0, 6));
    // reversed order: every pair discordant
    assert_eq!(count_discordant(&[3, 2, 1, 0]), (6, 6));
    // one swap
    assert_eq!(count_discordant(&[1, 0, 2]), (1, 3));
    assert_eq!(count_discordant(&[]), (0, 0));
}

#[test]
fn ranks_invert_an_order() {
    assert_eq!(rank_of_order(&[2, 0, 1]), vec![1, 2, 0]);
    assert_eq!(rank_of_order(&[0, 1, 2, 3]), vec![0, 1, 2, 3]);
    // a repeated entry keeps its last rank; an entry never named keeps 0
    assert_eq!(rank_of_order(&[1, 1, 2]), vec![0, 1, 2]);
    assert_eq!(rank_of_order(&[]), Vec::<usize>::new());
}
