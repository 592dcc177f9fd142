use image_compression::codec::{decode, decode_grayscale, encode, MAX_PALETTE_COLORS};
use image_compression::color::{bucket, color_of_bucket, distance, luminance, Rgb};
use image_compression::decode::{grayscale_value, unpack, unpack_grayscale};
use image_compression::error::CodecError;
use image_compression::pack::{bits_per_pixel, pack};
use image_compression::palette::build_palette;
use image_compression::quantize::{nearest_index, quantize};
use image_compression::unpack::unpack_indices;
use image_compression::NUM_PALETTE_COLORS;

fn rgb(r: u8, g: u8, b: u8) -> Rgb {
    Rgb { r, g, b }
}

fn black() -> Rgb {
    rgb(0, 0, 0)
}

fn eight_colors() -> Vec<Rgb> {
    vec![
        rgb(240, 240, 240),
        rgb(224, 208, 32),
        rgb(16, 224, 128),
        rgb(192, 64, 64),
        rgb(32, 128, 192),
        rgb(128, 32, 160),
        rgb(48, 48, 48),
        rgb(0, 0, 16),
    ]
}

#[test]
fn pack_two_bit_indices_into_one_byte() {
    assert_eq!(pack(&[0, 1, 2, 3], 2), vec![0x1B]);
}

#[test]
fn pack_single_bit_is_left_justified() {
    assert_eq!(pack(&[1], 1), vec![0x80]);
}

#[test]
fn pack_three_bit_indices_across_bytes() {
    // 101 110 111 001 then four zero bits: 1011 1011 1001 0000
    assert_eq!(pack(&[5, 6, 7, 1], 3), vec![0xBB, 0x90]);
    assert_eq!(pack(&[], 3), Vec::<u8>::new());
    assert_eq!(pack(&[7, 7, 7, 7, 7, 7, 7, 7], 3), vec![0xFF, 0xFF, 0xFF]);
}

#[test]
fn bits_per_pixel_derivation() {
    assert_eq!(bits_per_pixel(1), Ok(1));
    assert_eq!(bits_per_pixel(2), Ok(1));
    assert_eq!(bits_per_pixel(3), Ok(2));
    assert_eq!(bits_per_pixel(8), Ok(3));
    assert_eq!(bits_per_pixel(9), Ok(4));
    assert_eq!(bits_per_pixel(256), Ok(8));
    assert_eq!(bits_per_pixel(257), Ok(9));
    assert_eq!(bits_per_pixel(usize::MAX), Ok(64));
}

#[test]
fn bits_per_pixel_refuses_empty_palette() {
    assert_eq!(bits_per_pixel(0), Err(CodecError::EmptyPalette));
}

#[test]
fn luminance_is_scaled_bt601() {
    assert_eq!(luminance(rgb(255, 255, 255)), 255_000);
    assert_eq!(luminance(rgb(1, 0, 0)), 299);
    assert_eq!(luminance(rgb(0, 1, 0)), 587);
    assert_eq!(luminance(rgb(0, 0, 1)), 114);
}

#[test]
fn buckets_clear_low_nibbles() {
    assert_eq!(bucket(rgb(0x12, 0x34, 0x56)), 0x135);
    assert_eq!(color_of_bucket(0x135), rgb(0x10, 0x30, 0x50));
    assert_eq!(bucket(rgb(255, 255, 255)), 4095);
}

#[test]
fn distance_is_squared_euclidean() {
    assert_eq!(distance(rgb(0, 0, 0), rgb(3, 4, 0)), 25);
    assert_eq!(distance(rgb(255, 255, 255), rgb(0, 0, 0)), 3 * 65025);
}

#[test]
fn solid_raster_palette_is_padded_with_black() {
    let raster = vec![rgb(200, 100, 50); 1000];
    let palette = build_palette(&raster, NUM_PALETTE_COLORS);
    assert_eq!(palette.len(), NUM_PALETTE_COLORS);
    assert_eq!(palette[0], rgb(192, 96, 48));
    for c in &palette[1..] {
        assert_eq!(*c, black());
    }
}

#[test]
fn empty_raster_palette_is_all_black() {
    let palette = build_palette(&[], 4);
    assert_eq!(palette, vec![black(); 4]);
}

#[test]
fn palette_keeps_most_frequent_sorted_by_luminance() {
    let mut raster = Vec::new();
    raster.extend(vec![rgb(20, 20, 20); 5]);
    raster.extend(vec![rgb(250, 250, 250); 3]);
    raster.extend(vec![rgb(130, 0, 0); 1]);
    raster.extend(vec![rgb(0, 200, 0); 4]);
    let palette = build_palette(&raster, 3);
    // kept: dark gray (5), green (4), white (3); red (1) is left out
    assert_eq!(palette, vec![rgb(240, 240, 240), rgb(0, 192, 0), rgb(16, 16, 16)]);
}

#[test]
fn near_colors_share_a_bucket() {
    let raster = vec![rgb(17, 18, 19), rgb(30, 31, 16), rgb(100, 100, 100)];
    let palette = build_palette(&raster, 2);
    assert_eq!(palette, vec![rgb(96, 96, 96), rgb(16, 16, 16)]);
}

#[test]
fn nearest_index_ties_go_to_lowest_index() {
    let palette = vec![rgb(10, 0, 0), rgb(0, 10, 0), rgb(0, 0, 1)];
    assert_eq!(nearest_index(rgb(0, 0, 0), &palette), 2);
    let palette = vec![rgb(10, 0, 0), rgb(0, 10, 0)];
    assert_eq!(nearest_index(rgb(0, 0, 0), &palette), 0);
    assert_eq!(nearest_index(rgb(0, 9, 0), &palette), 1);
}

#[test]
fn quantize_maps_each_pixel() {
    let palette = vec![rgb(255, 255, 255), rgb(0, 0, 0)];
    let raster = vec![rgb(250, 240, 230), rgb(5, 5, 5), rgb(100, 100, 100), rgb(200, 100, 150)];
    assert_eq!(quantize(&raster, &palette), vec![0, 1, 1, 0]);
}

#[test]
fn round_trip_when_pixels_are_palette_colors() {
    let palette = eight_colors();
    let raster: Vec<Rgb> = (0..101).map(|i| palette[(i * 7 + i / 3) % 8]).collect();
    let bpp = bits_per_pixel(palette.len()).unwrap();
    let indices = quantize(&raster, &palette);
    let packed = pack(&indices, bpp);
    assert_eq!(packed.len(), (101 * 3 + 7) / 8);
    let decoded = unpack(&packed, &palette, bpp, raster.len()).unwrap();
    assert_eq!(decoded.pixels, raster);
    assert_eq!(decoded.decoded, raster.len());
    assert!(!decoded.is_truncated());
}

#[test]
fn round_trip_with_single_color_palette() {
    let palette = vec![rgb(9, 8, 7)];
    let raster = vec![rgb(9, 8, 7); 13];
    let bpp = bits_per_pixel(1).unwrap();
    let packed = pack(&quantize(&raster, &palette), bpp);
    assert_eq!(packed, vec![0, 0]);
    let decoded = unpack(&packed, &palette, bpp, 13).unwrap();
    assert_eq!(decoded.pixels, raster);
}

#[test]
fn short_stream_is_truncated_not_fatal() {
    let palette = vec![rgb(1, 1, 1), rgb(2, 2, 2), rgb(3, 3, 3), rgb(4, 4, 4)];
    let decoded = unpack(&[0x1B], &palette, 2, 8).unwrap();
    assert!(decoded.is_truncated());
    assert_eq!(decoded.decoded, 4);
    assert_eq!(
        decoded.pixels,
        vec![rgb(1, 1, 1), rgb(2, 2, 2), rgb(3, 3, 3), rgb(4, 4, 4), black(), black(), black(), black()]
    );
}

#[test]
fn short_stream_with_partial_last_index() {
    // 3 bits per index, one byte: two whole indices, two bits left over
    let palette = eight_colors();
    let decoded = unpack(&[0b0010_1011], &palette, 3, 3).unwrap();
    assert_eq!(decoded.decoded, 2);
    assert_eq!(decoded.pixels, vec![palette[1], palette[2], black()]);
}

#[test]
fn empty_stream_is_fatal() {
    let palette = eight_colors();
    assert_eq!(unpack(&[], &palette, 3, 4).unwrap_err(), CodecError::UnexpectedEnd);
    let decoded = unpack(&[], &palette, 3, 0).unwrap();
    assert!(decoded.pixels.is_empty());
    assert!(!decoded.is_truncated());
}

#[test]
fn out_of_range_index_is_rejected() {
    let palette = vec![rgb(1, 1, 1), rgb(2, 2, 2), rgb(3, 3, 3), rgb(4, 4, 4), rgb(5, 5, 5)];
    // 011 111 11: index 3 then index 7
    let err = unpack(&[0b0111_1111], &palette, 3, 2).unwrap_err();
    assert_eq!(err, CodecError::IndexOutOfRange { pixel: 1, index: 7 });
    assert_eq!(unpack_indices(&[0b0111_1111], 3, 2, 8), Ok(vec![3, 7]));
}

#[test]
fn grayscale_ramp_values() {
    assert_eq!(grayscale_value(0, 8), 255);
    assert_eq!(grayscale_value(1, 8), 219);
    assert_eq!(grayscale_value(7, 8), 0);
    assert_eq!(grayscale_value(1, 3), 127);
    assert_eq!(grayscale_value(0, 1), 255);
    assert_eq!(grayscale_value(1, 1), 0);
    assert_eq!(grayscale_value(0, 0), 255);
    assert_eq!(grayscale_value(9, 8), 0);
}

#[test]
fn grayscale_ramp_never_rises() {
    for n in 2..20usize {
        assert_eq!(grayscale_value(0, n), 255);
        assert_eq!(grayscale_value(n - 1, n), 0);
        for i in 1..n {
            assert!(grayscale_value(i, n) <= grayscale_value(i - 1, n));
        }
    }
}

#[test]
fn grayscale_decode_uses_ramp() {
    let decoded = unpack_grayscale(&[0x1B, 0x90], 8, 3, 4).unwrap();
    let g = |v: u8| rgb(v, v, v);
    assert_eq!(decoded.pixels, vec![g(255), g(36), g(0), g(219)]);
    assert_eq!(unpack_grayscale(&[0xFF], 5, 3, 1).unwrap_err(), CodecError::IndexOutOfRange { pixel: 0, index: 7 });
}

#[test]
fn encode_then_decode_restores_coarse_raster() {
    let colors = vec![rgb(240, 16, 32), rgb(0, 0, 0), rgb(64, 128, 192), rgb(16, 16, 16)];
    let raster: Vec<Rgb> = (0..320).map(|i| colors[(i / 5 + i) % 4]).collect();
    let encoded = encode(&raster, NUM_PALETTE_COLORS).unwrap();
    assert_eq!(encoded.bits_per_pixel, 3);
    assert_eq!(encoded.palette.len(), NUM_PALETTE_COLORS);
    assert_eq!(encoded.packed.len(), 120);
    assert_ne!(encoded.compressed, encoded.packed);
    let decoded = decode(&encoded.compressed, &encoded.palette, raster.len()).unwrap();
    assert_eq!(decoded.pixels, raster);
    let gray = decode_grayscale(&encoded.compressed, NUM_PALETTE_COLORS, raster.len()).unwrap();
    assert_eq!(gray.pixels.len(), raster.len());
    assert!(!gray.is_truncated());
}

#[test]
fn encode_refuses_bad_palette_sizes() {
    let raster = vec![rgb(1, 2, 3); 4];
    assert_eq!(encode(&raster, 0).unwrap_err(), CodecError::EmptyPalette);
    assert_eq!(encode(&raster, MAX_PALETTE_COLORS + 1).unwrap_err(), CodecError::PaletteTooLarge);
}

#[test]
fn decode_errors() {
    assert_eq!(decode(&[1, 2, 3], &[], 4).unwrap_err(), CodecError::EmptyPalette);
    let big = vec![black(); MAX_PALETTE_COLORS + 1];
    assert_eq!(decode(&[1, 2, 3], &big, 4).unwrap_err(), CodecError::PaletteTooLarge);
    assert_eq!(decode(&[1, 2, 3], &eight_colors(), 4).unwrap_err(), CodecError::Decompression);
    assert_eq!(decode_grayscale(&[1, 2, 3], 0, 4).unwrap_err(), CodecError::EmptyPalette);
}

#[test]
fn palette_count_tie_keeps_lower_bucket() {
    let raster = vec![rgb(200, 0, 0), rgb(0, 0, 200), rgb(200, 0, 0), rgb(0, 0, 200)];
    assert_eq!(build_palette(&raster, 1), vec![rgb(0, 0, 192)]);
    let reversed: Vec<Rgb> = raster.iter().rev().cloned().collect();
    assert_eq!(build_palette(&reversed, 1), vec![rgb(0, 0, 192)]);
}

#[test]
fn palette_equal_luminance_orders_by_frequency_then_bucket() {
    assert_eq!(luminance(rgb(0, 144, 0)), luminance(rgb(240, 0, 112)));
    let mut raster = vec![rgb(0, 144, 0); 2];
    raster.extend(vec![rgb(240, 0, 112); 3]);
    assert_eq!(build_palette(&raster, 2), vec![rgb(240, 0, 112), rgb(0, 144, 0)]);
    let mut even = vec![rgb(240, 0, 112); 2];
    even.extend(vec![rgb(0, 144, 0); 2]);
    assert_eq!(build_palette(&even, 2), vec![rgb(0, 144, 0), rgb(240, 0, 112)]);
}

#[test]
fn palette_is_the_same_on_every_call() {
    let raster: Vec<Rgb> = (0..500u32).map(|i| rgb((i * 37 % 256) as u8, (i * 11 % 256) as u8, (i * 5 % 256) as u8)).collect();
    let first = build_palette(&raster, NUM_PALETTE_COLORS);
    for _ in 0..3 {
        assert_eq!(build_palette(&raster, NUM_PALETTE_COLORS), first);
    }
}
