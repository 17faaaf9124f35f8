use sprite_info::decode::decode_png;
use sprite_info::pixels::compute_png_checksum;
use sprite_info::pixels::Rgba;

fn encode(image: image::DynamicImage) -> Vec<u8> {
    let mut bytes = std::io::Cursor::new(Vec::new());
    image.write_to(&mut bytes, image::ImageOutputFormat::Png).expect("a PNG file in memory");
    bytes.into_inner()
}

#[test]
fn decoding_gives_the_size_and_the_pixels_row_by_row() {
    let mut image = image::RgbaImage::new(3, 2);
    let mut n: u8 = 0;
    for y in 0..2 {
        for x in 0..3 {
            image.put_pixel(x, y, image::Rgba([n, n + 100, 200 - n, 255 - n]));
            n += 1;
        }
    }
    let grid = decode_png(&encode(image::DynamicImage::ImageRgba8(image))).unwrap();
    assert_eq!(grid.dimensions(), (3, 2));
    assert_eq!(grid.get_pixel(0, 0), Rgba { red: 0, green: 100, blue: 200, alpha: 255 });
    assert_eq!(grid.get_pixel(1, 0), Rgba { red: 1, green: 101, blue: 199, alpha: 254 });
    assert_eq!(grid.get_pixel(2, 0), Rgba { red: 2, green: 102, blue: 198, alpha: 253 });
    assert_eq!(grid.get_pixel(0, 1), Rgba { red: 3, green: 103, blue: 197, alpha: 252 });
    assert_eq!(grid.get_pixel(2, 1), Rgba { red: 5, green: 105, blue: 195, alpha: 250 });
}

#[test]
fn decoding_a_red_square_gives_its_checksum() {
    let image = image::RgbaImage::from_pixel(4, 4, image::Rgba([255, 0, 0, 255]));
    let grid = decode_png(&encode(image::DynamicImage::ImageRgba8(image))).unwrap();
    assert_eq!(grid.dimensions(), (4, 4));
    assert_eq!(compute_png_checksum(&grid), "ff0000ff0");
}

#[test]
fn decoding_an_image_without_alpha_gives_opaque_pixels() {
    let image = image::RgbImage::from_pixel(2, 1, image::Rgb([10, 20, 30]));
    let grid = decode_png(&encode(image::DynamicImage::ImageRgb8(image))).unwrap();
    assert_eq!(grid.dimensions(), (2, 1));
    assert_eq!(grid.get_pixel(0, 0), Rgba { red: 10, green: 20, blue: 30, alpha: 255 });
    assert_eq!(grid.get_pixel(1, 0), Rgba { red: 10, green: 20, blue: 30, alpha: 255 });
}

#[test]
fn decoding_a_grey_image_gives_grey_opaque_pixels() {
    let image = image::GrayImage::from_pixel(1, 2, image::Luma([77]));
    let grid = decode_png(&encode(image::DynamicImage::ImageLuma8(image))).unwrap();
    assert_eq!(grid.dimensions(), (1, 2));
    assert_eq!(grid.get_pixel(0, 1), Rgba { red: 77, green: 77, blue: 77, alpha: 255 });
}

#[test]
fn decoding_is_the_same_on_every_run() {
    let image = image::RgbaImage::from_pixel(5, 3, image::Rgba([1, 2, 3, 4]));
    let bytes = encode(image::DynamicImage::ImageRgba8(image));
    let first = decode_png(&bytes).unwrap();
    let second = decode_png(&bytes).unwrap();
    assert_eq!(first.dimensions(), second.dimensions());
    assert_eq!(compute_png_checksum(&first), compute_png_checksum(&second));
}

#[test]
fn bytes_that_are_no_png_file_decode_to_nothing() {
    assert!(decode_png(&Vec::new()).is_none());
    assert!(decode_png(&b"hello".to_vec()).is_none());
    assert!(decode_png(&vec![0u8; 64]).is_none());
}

#[test]
fn png_file_that_was_cut_off_decodes_to_nothing() {
    let image = image::RgbaImage::from_pixel(8, 8, image::Rgba([9, 9, 9, 9]));
    let mut bytes = encode(image::DynamicImage::ImageRgba8(image));
    bytes.truncate(bytes.len() / 2);
    assert!(decode_png(&bytes).is_none());
}

#[test]
fn png_signature_alone_decodes_to_nothing() {
    let signature = vec![0x89, b'P', b'N', b'G', 0x0d, 0x0a, 0x1a, 0x0a];
    assert!(decode_png(&signature).is_none());
}
