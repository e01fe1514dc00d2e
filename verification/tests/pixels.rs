use agent_spy::pixels::{blend, shows_at, to_image_data, upload_data, RgbaImage, BACKGROUND};

#[test]
fn opaque_pixels_hide_the_background() {
    assert_eq!(blend([0x12, 0x34, 0x56, 255], BACKGROUND), 0x123456);
    assert_eq!(blend([255, 255, 255, 255], 0), 0xffffff);
}

#[test]
fn transparent_pixels_show_the_background() {
    assert_eq!(blend([0x12, 0x34, 0x56, 0], BACKGROUND), 0x1e1e1e);
    assert_eq!(blend([255, 255, 255, 0], 0xff_abcdef), 0xabcdef);
}

#[test]
fn half_transparent_pixels_are_mixed() {
    // (200 * 128 + 30 * 127) / 255 is 115.3, (100 * 128 + 30 * 127) / 255 is 65.1, and
    // (30 * 127) / 255 is 14.9.
    assert_eq!(blend([200, 100, 0, 128], BACKGROUND), (115 << 16) | (65 << 8) | 14);
    // (255 * 1 + 0 * 254) / 255 is one.
    assert_eq!(blend([255, 0, 0, 1], 0), 0x010000);
}

#[test]
fn image_data_is_least_significant_byte_first() {
    let pixels = vec![1, 2, 3, 255, 9, 9, 9, 0];
    assert_eq!(to_image_data(&pixels, 0x0a0b0c), [3, 2, 1, 0, 0x0c, 0x0b, 0x0a, 0]);
    assert!(to_image_data(&Vec::new(), 0).is_empty());
}

fn image(width: u32, height: u32, pixel: [u8; 4]) -> RgbaImage {
    let count = (width * height) as usize;
    RgbaImage { width, height, pixels: pixel.repeat(count) }
}

#[test]
fn uploads_at_the_own_size_are_not_scaled() {
    let mut image = image(2, 1, [10, 20, 30, 255]);
    image.pixels[4] = 200;
    assert_eq!(upload_data(&image, (2, 1)), [30, 20, 10, 0, 30, 20, 200, 0]);
}

#[test]
fn uploads_are_shrunk() {
    let flat = image(64, 32, [10, 20, 30, 255]);
    assert!(shows_at(flat.dimensions(), (16, 8)));
    assert_eq!(upload_data(&flat, (16, 8)), [30, 20, 10, 0].repeat(16 * 8));

    // The average of black and white.
    let mut mixed = image(2, 2, [0, 0, 0, 255]);
    mixed.pixels[0..3].copy_from_slice(&[255, 255, 255]);
    mixed.pixels[12..15].copy_from_slice(&[255, 255, 255]);
    assert_eq!(upload_data(&mixed, (1, 1)), [128, 128, 128, 0]);
}

#[test]
fn uploads_agree_with_the_image_crate() {
    let mut pixels = Vec::new();
    for i in 0..50 * 40u32 {
        pixels.extend_from_slice(&[(i % 251) as u8, (i % 83) as u8, (i / 50) as u8, 255]);
    }
    let image = RgbaImage { width: 50, height: 40, pixels: pixels.clone() };
    let buffer = image::RgbaImage::from_raw(50, 40, pixels).unwrap();
    for size in [(49, 40), (50, 39), (25, 20), (7, 5), (1, 1), (50, 1), (51, 40), (200, 3), (9, 90), (99, 100), (0, 5)] {
        assert!(shows_at(image.dimensions(), size));
        let small = image::imageops::thumbnail(&buffer, size.0.into(), size.1.into());
        let mut expected = Vec::new();
        for pixel in small.pixels() {
            expected.extend_from_slice(&blend(pixel.0, BACKGROUND).to_le_bytes());
        }
        assert_eq!(upload_data(&image, size), expected);
    }
}

#[test]
fn sums_of_the_largest_blocks_fit() {
    let white = image(4100, 4100, [255, 255, 255, 255]);
    assert_eq!(upload_data(&white, (1, 1)), [255, 255, 255, 0]);
}

#[test]
fn sizes_that_cannot_be_shown() {
    assert!(shows_at((10, 10), (10, 10)));
    assert!(shows_at((6000, 4000), (1024, 683)));
    assert!(shows_at((10, 10), (11, 10)));
    assert!(shows_at((10, 10), (0, 10)));
    assert!(shows_at((8200, 8200), (2, 2)));
    assert!(!shows_at((8202, 8200), (2, 2)));
    assert!(!shows_at((6000, 4000), (1, 1)));
    assert!(shows_at((4096, 4096), (1, 1)));
    assert!(shows_at((4100, 4100), (1, 1)));
    assert!(!shows_at((4100, 4101), (1, 1)));
    assert!(!shows_at((u32::MAX, u32::MAX), (1, 1)));
    assert!(shows_at((0, 0), (0, 0)));
}
