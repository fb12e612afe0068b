use engine::camera_probe::visible_pixels;
use engine::shot::Shot;

fn shot(width: u32, height: u32, green: impl Fn(u32, u32) -> u8) -> Shot {
    let mut pixels = Vec::new();
    for y in 0..height {
        for x in 0..width {
            pixels.extend_from_slice(&[x as u8, green(x, y), y as u8, 255]);
        }
    }
    Shot { width, height, pixels }
}

#[test]
fn a_pixel_is_read_row_by_row() {
    let s = shot(3, 2, |x, y| (10 * x + y) as u8);
    assert_eq!(s.pixel(0, 0), [0, 0, 0, 255]);
    assert_eq!(s.pixel(2, 0), [2, 20, 0, 255]);
    assert_eq!(s.pixel(1, 1), [1, 11, 1, 255]);
}

#[test]
fn visible_pixels_are_the_green_ones() {
    let s = shot(8, 5, |x, y| if x >= 2 && x < 5 && y < 3 { 200 } else { 40 });
    assert_eq!(visible_pixels(&s), 9);
    let empty = shot(4, 4, |_, _| 0);
    assert_eq!(visible_pixels(&empty), 0);
    let full = shot(4, 4, |_, _| 41);
    assert_eq!(visible_pixels(&full), 16);
}

#[test]
fn a_row_is_padded_to_256_bytes() {
    assert_eq!(engine::shot::padded_row_bytes(1), 256);
    assert_eq!(engine::shot::padded_row_bytes(64), 256);
    assert_eq!(engine::shot::padded_row_bytes(65), 512);
    assert_eq!(engine::shot::padded_row_bytes(1920), 7680);
    assert_eq!(engine::shot::padded_row_bytes(0), 0);
}

#[test]
fn padding_is_dropped_row_by_row() {
    let data = [1, 2, 3, 4, 5, 6, 7, 8, 90, 91, 9, 10, 11, 12, 13, 14, 15, 16];
    let s = Shot::from_padded_rows(&data, 2, 2, 10);
    assert_eq!(s.width, 2);
    assert_eq!(s.height, 2);
    assert_eq!(s.pixels, vec![1, 2, 3, 4, 5, 6, 7, 8, 9, 10, 11, 12, 13, 14, 15, 16]);
    assert_eq!(s.pixel(1, 1), [13, 14, 15, 16]);
}

#[test]
fn a_png_decodes_to_the_same_pixels() {
    let s = shot(3, 2, |x, y| (10 * x + y) as u8);
    let bytes = s.png().unwrap();
    assert_eq!(&bytes[..8], &[137, 80, 78, 71, 13, 10, 26, 10]);
    assert_eq!(&bytes[16..24], &[0, 0, 0, 3, 0, 0, 0, 2]);
    let decoder = png::Decoder::new(std::io::Cursor::new(bytes));
    let mut reader = decoder.read_info().unwrap();
    let mut out = vec![0; reader.output_buffer_size().unwrap()];
    let info = reader.next_frame(&mut out).unwrap();
    assert_eq!((info.width, info.height), (3, 2));
    assert_eq!(&out[..info.buffer_size()], &s.pixels[..]);
}

#[test]
fn a_png_of_nothing_or_of_the_wrong_length_fails() {
    assert!(Shot { width: 0, height: 2, pixels: vec![] }.png().is_err());
    assert!(Shot { width: 2, height: 0, pixels: vec![] }.png().is_err());
    assert!(Shot { width: 2, height: 1, pixels: vec![0; 7] }.png().is_err());
    assert!(Shot { width: 2, height: 1, pixels: vec![0; 8] }.png().is_ok());
}
