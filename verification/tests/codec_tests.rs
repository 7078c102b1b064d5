use image::{DynamicImage, GrayImage, ImageBuffer, Luma, Rgb, RgbImage, Rgba, RgbaImage};
use stegano::frame::{DecodeError, EncodeError};
use stegano::grid::{PixelGrid, Rgba8};
use stegano::image_matrix::{image_matrix, map_pixel};
use stegano::method::{
    calculate_required_pixels, capacity, clamp_bits_per_channel, decode, encode, extract,
    hide_message, take_bits_from_pixel,
};
use stegano::raster::{buffer_of_grid, grid_of_image};

fn pixel(red: u8, green: u8, blue: u8, alpha: u8) -> Rgba8 {
    Rgba8 { red, green, blue, alpha }
}

fn gradient(width: u32, height: u32) -> PixelGrid {
    let mut pixels = Vec::new();
    for y in 0..height {
        for x in 0..width {
            pixels.push(pixel(x as u8, y as u8, 0, 0));
        }
    }
    PixelGrid::from_pixels(width, height, pixels).unwrap()
}

fn plain(width: u32, height: u32, fill: Rgba8) -> PixelGrid {
    let pixels = vec![fill; (width as usize) * (height as usize)];
    PixelGrid::from_pixels(width, height, pixels).unwrap()
}

fn gradient_image(width: u32, height: u32) -> RgbaImage {
    let mut img = ImageBuffer::new(width, height);
    for x in 0..width {
        for y in 0..height {
            img.put_pixel(x, y, Rgba([x as u8, y as u8, 0, 0]));
        }
    }
    img
}

#[test]
fn test_stego() {
    let mut img = ImageBuffer::new(250, 250);
    for x in 0..250 {
        for y in 0..250 {
            img.put_pixel(x, y, Rgba([x as u8, y as u8, 0, 0]));
        }
    }
    let message = b"Hello world";
    for bit in 1..=8 {
        println!("\n\n\nbit {}", bit);

        let source: RgbaImage = img.clone();
        let hidden = hide_message(source.try_into().unwrap(), message, bit).unwrap();
        let res = extract(hidden.0.try_into().unwrap(), bit).unwrap();
        assert_eq!(res, message);
        println!("equal? {}", res == message);
    }
}

#[test]
fn round_trip_on_a_grid_for_every_width() {
    let grid = gradient(250, 250);
    for bits in 1..=8u8 {
        let hidden = encode(&grid, b"Hello world", bits).unwrap();
        assert_eq!(decode(&hidden, bits).unwrap(), b"Hello world".to_vec());
    }
}

#[test]
fn round_trip_of_every_byte_value() {
    let grid = plain(20, 15, pixel(200, 100, 50, 25));
    let payload: Vec<u8> = (0..=255u8).rev().collect();
    for bits in 3..=8u8 {
        let hidden = encode(&grid, &payload, bits).unwrap();
        assert_eq!(decode(&hidden, bits).unwrap(), payload);
    }
}

#[test]
fn encoding_changes_only_the_carriers_it_needs_and_the_marker() {
    let grid = gradient(250, 250);
    for bits in 1..=8u8 {
        let hidden = encode(&grid, b"Hello world", bits).unwrap();
        assert_eq!(hidden.width(), 250);
        assert_eq!(hidden.height(), 250);
        let chunks = ((8 + 11) * 8 + bits as usize - 1) / bits as usize;
        let touched = (chunks + 2) / 3;
        let before = grid.pixels();
        let after = hidden.pixels();
        assert_eq!(after.len(), before.len());
        let last = before.len() - 1;
        for i in 0..before.len() {
            assert_eq!(after[i].alpha, before[i].alpha);
            if i == last {
                assert_eq!(after[i], pixel(1, 1, 1, before[i].alpha));
            } else if i >= touched {
                assert_eq!(after[i], before[i]);
            } else {
                assert_eq!(after[i].red as u32 >> bits, before[i].red as u32 >> bits);
                assert_eq!(after[i].green as u32 >> bits, before[i].green as u32 >> bits);
                assert_eq!(after[i].blue as u32 >> bits, before[i].blue as u32 >> bits);
            }
        }
    }
}

#[test]
fn frame_starts_with_the_length_in_64_bits() {
    let grid = plain(10, 10, pixel(0, 0, 0, 9));
    let hidden = encode(&grid, &[0xAB, 0xCD], 8).unwrap();
    let after = hidden.pixels();
    // eight bytes of length, then the payload, one byte to a channel
    assert_eq!(after[0], pixel(0, 0, 0, 9));
    assert_eq!(after[1], pixel(0, 0, 0, 9));
    assert_eq!(after[2], pixel(0, 2, 0xAB, 9));
    assert_eq!(after[3], pixel(0xCD, 0, 0, 9));
    assert_eq!(after[4], pixel(0, 0, 0, 9));
    assert_eq!(after[99], pixel(1, 1, 1, 9));
}

#[test]
fn payload_bits_follow_the_length_at_once() {
    // At 3 bits per channel the 64 bits of the length end inside chunk 21,
    // whose last two bits are the first two bits of the payload.
    let grid = plain(10, 10, pixel(0, 0, 0, 0));
    let hidden = encode(&grid, &[0b1100_0001], 3).unwrap();
    let after = hidden.pixels();
    // chunks 0..=20 hold 63 zero bits of the length
    for i in 0..7 {
        assert_eq!(after[i], pixel(0, 0, 0, 0));
    }
    // chunk 21: last bit of the length (1), then payload bits 1, 1
    // chunk 22: payload bits 0, 0, 0; chunk 23: payload bits 0, 0, 1
    assert_eq!(after[7], pixel(0b111, 0b000, 0b001, 0));
    assert_eq!(after[8], pixel(0, 0, 0, 0));
}

#[test]
fn low_bits_are_written_and_high_bits_kept() {
    let grid = plain(10, 10, pixel(0xFF, 0xFF, 0xFF, 0xFF));
    let hidden = encode(&grid, &[0x00], 2).unwrap();
    let after = hidden.pixels();
    // 64 bits of length 1 are 31 chunks of 00 and one of 01; then 4 chunks of 00
    for i in 0..10 {
        assert_eq!(after[i], pixel(0xFC, 0xFC, 0xFC, 0xFF));
    }
    assert_eq!(after[10], pixel(0xFC, 0xFD, 0xFC, 0xFF));
    assert_eq!(after[11], pixel(0xFC, 0xFC, 0xFC, 0xFF));
    assert_eq!(after[12], pixel(0xFF, 0xFF, 0xFF, 0xFF));
    assert_eq!(after[99], pixel(1, 1, 1, 0xFF));
}

#[test]
fn marker_is_set_for_every_width_and_payload() {
    let grid = plain(12, 10, pixel(77, 88, 99, 111));
    for bits in 1..=8u8 {
        for payload in [vec![0u8], vec![255u8; 5], b"marker".to_vec()] {
            let hidden = encode(&grid, &payload, bits).unwrap();
            assert_eq!(hidden.get_pixel(11, 9), Some(pixel(1, 1, 1, 111)));
            assert_eq!(*hidden.pixels().last().unwrap(), pixel(1, 1, 1, 111));
        }
    }
}

#[test]
fn capacity_is_what_all_pixels_but_the_last_hold_less_the_length() {
    assert_eq!(capacity(250, 250, 1), (62499 * 3 - 64) / 8);
    assert_eq!(capacity(250, 250, 8), (62499 * 24 - 64) / 8);
    assert_eq!(capacity(10, 10, 1), 29);
    assert_eq!(capacity(10, 10, 3), 103);
    assert_eq!(capacity(10, 10, 8), 289);
    assert_eq!(capacity(1, 1, 8), 0);
    assert_eq!(capacity(2, 2, 8), 1);
    assert_eq!(capacity(0, 100, 8), 0);
    assert_eq!(capacity(100, 0, 8), 0);
    assert_eq!(capacity(10, 10, 0), 0);
    assert_eq!(capacity(10, 10, 9), 0);
    assert_eq!(capacity(u32::MAX, u32::MAX, 8), u64::MAX);
}

#[test]
fn payload_of_exactly_the_capacity_is_encoded_and_one_more_byte_is_not() {
    for (width, height) in [(10u32, 10u32), (13, 11), (10, 17)] {
        let grid = plain(width, height, pixel(5, 6, 7, 8));
        for bits in 1..=8u8 {
            let room = capacity(width, height, bits) as usize;
            assert!(room > 0);
            let fits: Vec<u8> = (0..room).map(|i| (i * 7 + 3) as u8).collect();
            let hidden = encode(&grid, &fits, bits).unwrap();
            assert_eq!(decode(&hidden, bits).unwrap(), fits);
            let over = vec![0x5Au8; room + 1];
            assert_eq!(encode(&grid, &over, bits).err(), Some(EncodeError::PayloadTooLarge));
        }
    }
}

#[test]
fn encode_rejects_a_bad_width_first() {
    let grid = gradient(10, 10);
    assert_eq!(encode(&grid, b"x", 0).err(), Some(EncodeError::InvalidBitWidth));
    assert_eq!(encode(&grid, b"x", 9).err(), Some(EncodeError::InvalidBitWidth));
    assert_eq!(encode(&grid, b"", 0).err(), Some(EncodeError::InvalidBitWidth));
    assert_eq!(encode(&grid, &[0u8; 1000], 255).err(), Some(EncodeError::InvalidBitWidth));
}

#[test]
fn encode_rejects_an_empty_payload() {
    let grid = gradient(10, 10);
    for bits in 1..=8u8 {
        assert_eq!(encode(&grid, b"", bits).err(), Some(EncodeError::EmptyPayload));
    }
    let none = PixelGrid::from_pixels(0, 0, Vec::new()).unwrap();
    assert_eq!(encode(&none, b"", 4).err(), Some(EncodeError::EmptyPayload));
}

#[test]
fn encode_rejects_what_does_not_fit() {
    let none = PixelGrid::from_pixels(0, 5, Vec::new()).unwrap();
    assert_eq!(encode(&none, b"x", 8).err(), Some(EncodeError::PayloadTooLarge));
    let one = plain(1, 1, pixel(0, 0, 0, 0));
    assert_eq!(encode(&one, b"x", 8).err(), Some(EncodeError::PayloadTooLarge));
    let small = plain(10, 10, pixel(0, 0, 0, 0));
    assert_eq!(encode(&small, &[1u8; 30], 1).err(), Some(EncodeError::PayloadTooLarge));
    assert!(encode(&small, &[1u8; 29], 1).is_ok());
}

#[test]
fn encode_leaves_the_source_as_it_was() {
    let grid = gradient(16, 16);
    let copy = grid.pixels().clone();
    let _ = encode(&grid, b"unchanged", 4).unwrap();
    assert_eq!(*grid.pixels(), copy);
}

#[test]
fn decode_rejects_a_small_grid_first() {
    let marked = pixel(1, 1, 1, 0);
    assert_eq!(decode(&plain(9, 10, marked), 1).err(), Some(DecodeError::ImageTooSmall));
    assert_eq!(decode(&plain(10, 9, marked), 1).err(), Some(DecodeError::ImageTooSmall));
    assert_eq!(decode(&plain(9, 200, marked), 0).err(), Some(DecodeError::ImageTooSmall));
    let none = PixelGrid::from_pixels(0, 0, Vec::new()).unwrap();
    assert_eq!(decode(&none, 1).err(), Some(DecodeError::ImageTooSmall));
    let hidden = encode(&plain(5, 5, marked), b"x", 8).unwrap();
    assert_eq!(decode(&hidden, 8).err(), Some(DecodeError::ImageTooSmall));
}

#[test]
fn decode_without_the_marker_finds_no_message() {
    let grid = gradient(250, 250);
    for bits in 0..=9u8 {
        assert_eq!(decode(&grid, bits).err(), Some(DecodeError::NoEmbeddedMessage));
    }
    for last in [pixel(0, 1, 1, 0), pixel(1, 0, 1, 0), pixel(1, 1, 0, 0), pixel(1, 1, 2, 0)] {
        let mut pixels = vec![pixel(1, 1, 1, 0); 100];
        pixels[99] = last;
        let grid = PixelGrid::from_pixels(10, 10, pixels).unwrap();
        assert_eq!(decode(&grid, 4).err(), Some(DecodeError::NoEmbeddedMessage));
    }
}

#[test]
fn decode_rejects_a_bad_width_after_the_marker() {
    let hidden = encode(&gradient(10, 10), b"x", 4).unwrap();
    assert_eq!(decode(&hidden, 0).err(), Some(DecodeError::InvalidBitWidth));
    assert_eq!(decode(&hidden, 9).err(), Some(DecodeError::InvalidBitWidth));
}

#[test]
fn decode_of_a_stored_length_of_zero_is_empty() {
    let mut pixels = vec![pixel(0, 0, 0, 0); 100];
    pixels[99] = pixel(1, 1, 1, 0);
    let grid = PixelGrid::from_pixels(10, 10, pixels).unwrap();
    for bits in 1..=8u8 {
        assert_eq!(decode(&grid, bits), Ok(Vec::new()));
    }
    // bits above the width do not count
    let mut pixels = vec![pixel(0xF0, 0xF0, 0xF0, 0xFF); 100];
    pixels[99] = pixel(1, 1, 1, 0);
    let grid = PixelGrid::from_pixels(10, 10, pixels).unwrap();
    for bits in 1..=4u8 {
        assert_eq!(decode(&grid, bits), Ok(Vec::new()));
    }
}

#[test]
fn decode_rejects_a_length_that_the_grid_cannot_hold() {
    let mut pixels = vec![pixel(0xFF, 0xFF, 0xFF, 0); 100];
    pixels[99] = pixel(1, 1, 1, 0);
    let grid = PixelGrid::from_pixels(10, 10, pixels).unwrap();
    for bits in 1..=8u8 {
        assert_eq!(decode(&grid, bits).err(), Some(DecodeError::InconsistentFraming));
    }
}

#[test]
fn decode_reads_past_the_frame_up_to_the_end_of_the_grid_and_no_further() {
    // 8 bits per channel: the length takes 3 pixels, which hold one payload
    // byte too; a payload of 291 bytes takes 97 pixels more, and its last
    // two bytes are read from the marker.
    let mut pixels = vec![pixel(0, 0, 0, 0); 100];
    pixels[2] = pixel(0x01, 0x23, 0x41, 0); // length 0x0123 = 291
    pixels[99] = pixel(1, 1, 1, 0);
    let grid = PixelGrid::from_pixels(10, 10, pixels.clone()).unwrap();
    let mut expected = vec![0u8; 291];
    expected[0] = 0x41;
    expected[289] = 1;
    expected[290] = 1;
    assert_eq!(decode(&grid, 8), Ok(expected));
    pixels[2] = pixel(0x01, 0x24, 0x41, 0); // length 292 takes 98 pixels more
    let grid = PixelGrid::from_pixels(10, 10, pixels).unwrap();
    assert_eq!(decode(&grid, 8).err(), Some(DecodeError::InconsistentFraming));
}

#[test]
fn decode_with_another_width_gives_other_bytes_or_an_error() {
    let hidden = encode(&gradient(50, 50), b"Hello world", 2).unwrap();
    assert_ne!(decode(&hidden, 4), Ok(b"Hello world".to_vec()));
    assert_eq!(decode(&hidden, 2), Ok(b"Hello world".to_vec()));
}

#[test]
fn required_pixels_round_up() {
    assert_eq!(calculate_required_pixels(8, 1, 3), Some(22));
    assert_eq!(calculate_required_pixels(8, 2, 3), Some(11));
    assert_eq!(calculate_required_pixels(8, 3, 3), Some(8));
    assert_eq!(calculate_required_pixels(8, 4, 3), Some(6));
    assert_eq!(calculate_required_pixels(8, 5, 3), Some(5));
    assert_eq!(calculate_required_pixels(8, 6, 3), Some(4));
    assert_eq!(calculate_required_pixels(8, 7, 3), Some(4));
    assert_eq!(calculate_required_pixels(8, 8, 3), Some(3));
    assert_eq!(calculate_required_pixels(11, 1, 3), Some(30));
    assert_eq!(calculate_required_pixels(3, 8, 3), Some(1));
    assert_eq!(calculate_required_pixels(3, 8, 1), Some(3));
    assert_eq!(calculate_required_pixels(4, 8, 3), Some(2));
    assert_eq!(calculate_required_pixels(0, 5, 3), Some(0));
}

#[test]
fn required_pixels_are_none_without_a_bit_or_above_64_bits() {
    assert_eq!(calculate_required_pixels(8, 0, 3), None);
    assert_eq!(calculate_required_pixels(8, 1, 0), None);
    assert_eq!(calculate_required_pixels(u64::MAX, 1, 1), None);
    assert_eq!(calculate_required_pixels(u64::MAX, 8, 1), Some(u64::MAX));
    assert_eq!(calculate_required_pixels(u64::MAX, 255, u64::MAX), Some(1));
}

#[test]
fn bits_per_channel_are_held_to_eight() {
    assert_eq!(clamp_bits_per_channel(0), 0);
    assert_eq!(clamp_bits_per_channel(3), 3);
    assert_eq!(clamp_bits_per_channel(8), 8);
    assert_eq!(clamp_bits_per_channel(9), 8);
    assert_eq!(clamp_bits_per_channel(255), 8);
}

#[test]
fn bits_of_a_pixel_come_in_the_order_red_green_blue() {
    assert_eq!(take_bits_from_pixel(pixel(0b101, 0b110, 0b011, 0xFF), 2), vec![1, 2, 3]);
    assert_eq!(take_bits_from_pixel(pixel(9, 8, 7, 6), 8), vec![9, 8, 7]);
    assert_eq!(take_bits_from_pixel(pixel(9, 8, 7, 6), 0), vec![0, 0, 0]);
}

#[test]
fn grid_is_built_only_over_one_pixel_for_each_place() {
    assert!(PixelGrid::from_pixels(2, 3, vec![pixel(0, 0, 0, 0); 6]).is_some());
    assert!(PixelGrid::from_pixels(2, 3, vec![pixel(0, 0, 0, 0); 5]).is_none());
    assert!(PixelGrid::from_pixels(2, 3, vec![pixel(0, 0, 0, 0); 7]).is_none());
    assert!(PixelGrid::from_pixels(0, 3, Vec::new()).is_some());
}

#[test]
fn grid_holds_its_pixels_row_after_row() {
    let grid = gradient(4, 3);
    assert_eq!(grid.width(), 4);
    assert_eq!(grid.height(), 3);
    assert_eq!(grid.pixels().len(), 12);
    assert_eq!(grid.pixels()[5], pixel(1, 1, 0, 0));
    assert_eq!(grid.get_pixel(3, 2), Some(pixel(3, 2, 0, 0)));
    assert_eq!(grid.get_pixel(0, 1), Some(pixel(0, 1, 0, 0)));
    assert_eq!(grid.get_pixel(4, 0), None);
    assert_eq!(grid.get_pixel(0, 3), None);
}

#[test]
fn grid_of_an_image_reads_size_and_pixels_row_after_row() {
    let mut img: RgbaImage = ImageBuffer::new(3, 2);
    for y in 0..2u32 {
        for x in 0..3u32 {
            img.put_pixel(x, y, Rgba([x as u8, y as u8, 10 + (y * 3 + x) as u8, 200]));
        }
    }
    let grid = grid_of_image(&DynamicImage::ImageRgba8(img));
    assert_eq!(grid.width(), 3);
    assert_eq!(grid.height(), 2);
    let expected = vec![
        pixel(0, 0, 10, 200),
        pixel(1, 0, 11, 200),
        pixel(2, 0, 12, 200),
        pixel(0, 1, 13, 200),
        pixel(1, 1, 14, 200),
        pixel(2, 1, 15, 200),
    ];
    assert_eq!(*grid.pixels(), expected);
}

#[test]
fn grid_of_an_image_without_alpha_or_colour_is_opaque() {
    let mut rgb: RgbImage = ImageBuffer::new(2, 1);
    rgb.put_pixel(0, 0, Rgb([1, 2, 3]));
    rgb.put_pixel(1, 0, Rgb([4, 5, 6]));
    let grid = grid_of_image(&DynamicImage::ImageRgb8(rgb));
    assert_eq!(*grid.pixels(), vec![pixel(1, 2, 3, 255), pixel(4, 5, 6, 255)]);
    let mut gray: GrayImage = ImageBuffer::new(1, 2);
    gray.put_pixel(0, 0, Luma([7]));
    gray.put_pixel(0, 1, Luma([9]));
    let grid = grid_of_image(&DynamicImage::ImageLuma8(gray));
    assert_eq!(grid.width(), 1);
    assert_eq!(grid.height(), 2);
    assert_eq!(*grid.pixels(), vec![pixel(7, 7, 7, 255), pixel(9, 9, 9, 255)]);
}

#[test]
fn grid_of_an_empty_image_is_empty() {
    let img: RgbaImage = ImageBuffer::new(0, 0);
    let grid = grid_of_image(&DynamicImage::ImageRgba8(img));
    assert_eq!(grid.width(), 0);
    assert_eq!(grid.height(), 0);
    assert!(grid.pixels().is_empty());
}

#[test]
fn buffer_of_a_grid_holds_size_and_pixels() {
    let grid = gradient(5, 4);
    let buffer = buffer_of_grid(&grid).unwrap().0;
    assert_eq!(buffer.dimensions(), (5, 4));
    for y in 0..4u32 {
        for x in 0..5u32 {
            assert_eq!(*buffer.get_pixel(x, y), Rgba([x as u8, y as u8, 0, 0]));
        }
    }
    let marked = PixelGrid::from_pixels(1, 2, vec![pixel(1, 2, 3, 4), pixel(5, 6, 7, 8)]).unwrap();
    let buffer = buffer_of_grid(&marked).unwrap().0;
    assert_eq!(buffer.into_raw(), vec![1, 2, 3, 4, 5, 6, 7, 8]);
}

#[test]
fn buffer_of_a_grid_comes_back_as_the_same_grid() {
    let grid = gradient(7, 9);
    let buffer = buffer_of_grid(&grid).unwrap().0;
    let back = grid_of_image(&DynamicImage::ImageRgba8(buffer));
    assert_eq!(back.width(), 7);
    assert_eq!(back.height(), 9);
    assert_eq!(back.pixels(), grid.pixels());
}

#[test]
fn hidden_image_is_the_encoded_grid() {
    let img = gradient_image(30, 20);
    for bits in 1..=8u8 {
        let hidden = hide_message(DynamicImage::ImageRgba8(img.clone()), b"same", bits).unwrap().0;
        let encoded = encode(&gradient(30, 20), b"same", bits).unwrap();
        assert_eq!(hidden.dimensions(), (30, 20));
        let got = grid_of_image(&DynamicImage::ImageRgba8(hidden));
        assert_eq!(got.pixels(), encoded.pixels());
    }
}

#[test]
fn hidden_image_ends_with_the_marker() {
    let img = gradient_image(250, 250);
    let hidden = hide_message(DynamicImage::ImageRgba8(img), b"Hello world", 3).unwrap().0;
    assert_eq!(*hidden.get_pixel(249, 249), Rgba([1, 1, 1, 0]));
}

#[test]
fn hide_message_reports_each_error() {
    let img = DynamicImage::ImageRgba8(gradient_image(10, 10));
    assert_eq!(hide_message(img.clone(), b"x", 0).err(), Some(EncodeError::InvalidBitWidth));
    assert_eq!(hide_message(img.clone(), b"x", 9).err(), Some(EncodeError::InvalidBitWidth));
    assert_eq!(hide_message(img.clone(), b"", 1).err(), Some(EncodeError::EmptyPayload));
    assert_eq!(
        hide_message(img.clone(), &[0u8; 290], 8).err(),
        Some(EncodeError::PayloadTooLarge)
    );
    assert!(hide_message(img, &[0u8; 289], 8).is_ok());
}

#[test]
fn extract_reports_each_error() {
    let small = DynamicImage::ImageRgba8(gradient_image(9, 9));
    assert_eq!(extract(small, 1).err(), Some(DecodeError::ImageTooSmall));
    let unmarked = DynamicImage::ImageRgba8(gradient_image(10, 10));
    assert_eq!(extract(unmarked, 1).err(), Some(DecodeError::NoEmbeddedMessage));
    let img = DynamicImage::ImageRgba8(gradient_image(10, 10));
    let hidden = DynamicImage::ImageRgba8(hide_message(img, b"x", 1).unwrap().0);
    assert_eq!(extract(hidden.clone(), 0).err(), Some(DecodeError::InvalidBitWidth));
    assert_eq!(extract(hidden.clone(), 1), Ok(b"x".to_vec()));
    let mut full: RgbaImage = ImageBuffer::from_pixel(10, 10, Rgba([255, 255, 255, 255]));
    full.put_pixel(9, 9, Rgba([1, 1, 1, 255]));
    assert_eq!(
        extract(DynamicImage::ImageRgba8(full), 8).err(),
        Some(DecodeError::InconsistentFraming)
    );
}

#[test]
fn map_pixel_shows_the_lowest_bit() {
    assert_eq!(map_pixel(pixel(0, 1, 2, 3)), pixel(0, 255, 0, 3));
    assert_eq!(map_pixel(pixel(255, 254, 253, 0)), pixel(255, 0, 255, 0));
    assert_eq!(map_pixel(pixel(129, 128, 127, 77)), pixel(255, 0, 255, 77));
}

#[test]
fn image_matrix_maps_every_pixel() {
    let img = DynamicImage::ImageRgba8(gradient_image(6, 5));
    let matrix = image_matrix(&img).0;
    assert_eq!(matrix.dimensions(), (6, 5));
    for y in 0..5u32 {
        for x in 0..6u32 {
            let red = if x % 2 == 1 { 255 } else { 0 };
            let green = if y % 2 == 1 { 255 } else { 0 };
            assert_eq!(*matrix.get_pixel(x, y), Rgba([red, green, 0, 0]));
        }
    }
}

#[test]
fn image_matrix_shows_a_hidden_message() {
    let img: RgbaImage = ImageBuffer::from_pixel(10, 10, Rgba([0, 0, 0, 255]));
    let hidden = hide_message(DynamicImage::ImageRgba8(img), &[0xFF], 1).unwrap().0;
    let matrix = image_matrix(&DynamicImage::ImageRgba8(hidden)).0;
    // length 1: bit 63 is set; payload: bits 64..72 are set
    assert_eq!(*matrix.get_pixel(0, 0), Rgba([0, 0, 0, 255]));
    assert_eq!(*matrix.get_pixel(1, 2), Rgba([255, 255, 255, 255]));
    assert_eq!(*matrix.get_pixel(3, 2), Rgba([255, 255, 255, 255]));
    assert_eq!(*matrix.get_pixel(4, 2), Rgba([0, 0, 0, 255]));
    assert_eq!(*matrix.get_pixel(9, 9), Rgba([255, 255, 255, 255]));
}
