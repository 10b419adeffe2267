use raytracer::color::Color;
use raytracer::encode::{encode_rgb16, png_outcome, EncodeError};
use raytracer::image::Image;
use raytracer::scalar::Scalar;

fn color(r: f32, g: f32, b: f32) -> Color {
    Color {
        r: Scalar::from_bits(r.to_bits()),
        g: Scalar::from_bits(g.to_bits()),
        b: Scalar::from_bits(b.to_bits()),
    }
}

#[test]
fn new_image_is_black() {
    let img = Image::new(3, 2).unwrap();
    assert_eq!(img.width(), 3);
    assert_eq!(img.height(), 2);
    for row in 0..2 {
        for col in 0..3 {
            assert_eq!(img.get(row, col).to_rgb16(), [0u8; 6]);
        }
    }
    assert_eq!(img.to_rgb16(), vec![0u8; 36]);
}

#[test]
fn image_that_cannot_be_laid_out_is_refused() {
    assert!(Image::new(usize::MAX, 2).is_none());
    assert!(Image::new(usize::MAX / 6 + 1, 1).is_none());
    assert!(Image::new(0, usize::MAX).is_some());
}

#[test]
fn set_changes_one_pixel() {
    let mut img = Image::new(3, 2).unwrap();
    img.set(1, 2, color(0.5, 0.25, 0.0));
    assert_eq!(img.get(1, 2).r.to_bits(), 0.5f32.to_bits());
    assert_eq!(img.get(1, 2).g.to_bits(), 0.25f32.to_bits());
    assert_eq!(img.get(0, 2).r.to_bits(), 0);
    assert_eq!(img.get(1, 1).r.to_bits(), 0);
}

#[test]
fn bytes_are_row_major_and_big_endian() {
    let mut img = Image::new(2, 2).unwrap();
    img.set(0, 1, color(0.5, 0.0, 0.0));
    img.set(1, 0, color(0.0, 0.9999, 0.25));
    let bytes = img.to_rgb16();
    assert_eq!(bytes.len(), 24);
    assert_eq!(&bytes[0..6], &[0, 0, 0, 0, 0, 0]);
    assert_eq!(&bytes[6..12], &[0x80, 0, 0, 0, 0, 0]);
    assert_eq!(&bytes[12..18], &[0, 0, 0xFF, 0xF9, 0x40, 0]);
    assert_eq!(&bytes[18..24], &[0, 0, 0, 0, 0, 0]);
}

#[test]
fn png_file_has_signature_and_header() {
    let mut img = Image::new(3, 2).unwrap();
    img.set(0, 0, color(0.5, 0.5, 0.5));
    let file = img.to_png().unwrap();
    assert_eq!(&file[0..8], &[137, 80, 78, 71, 13, 10, 26, 10]);
    // IHDR: length 13, then width 3, height 2, depth 16, colour type 2
    assert_eq!(&file[8..16], &[0, 0, 0, 13, b'I', b'H', b'D', b'R']);
    assert_eq!(&file[16..24], &[0, 0, 0, 3, 0, 0, 0, 2]);
    assert_eq!(&file[24..26], &[16, 2]);
    let n = file.len();
    assert_eq!(&file[n - 8..n - 4], b"IEND");
    assert_ne!(file, img.to_rgb16());
}

#[test]
fn png_round_trips_through_the_decoder() {
    let mut img = Image::new(4, 3).unwrap();
    for row in 0..3 {
        for col in 0..4 {
            img.set(row, col, color(row as f32 / 3.0, col as f32 / 4.0, 0.9));
        }
    }
    let file = img.to_png().unwrap();
    let mut decoder = png::Decoder::new(std::io::Cursor::new(file));
    decoder.set_transformations(png::Transformations::IDENTITY);
    let mut reader = decoder.read_info().unwrap();
    let mut buf = vec![0u8; 4 * 3 * 6];
    let info = reader.next_frame(&mut buf).unwrap();
    assert_eq!((info.width, info.height), (4, 3));
    assert_eq!(info.bit_depth, png::BitDepth::Sixteen);
    assert_eq!(info.color_type, png::ColorType::Rgb);
    assert_eq!(buf, img.to_rgb16());
}

#[test]
fn png_is_the_same_every_time() {
    let mut img = Image::new(5, 5).unwrap();
    img.set(2, 2, color(0.1, 0.2, 0.3));
    assert_eq!(img.to_png().unwrap(), img.to_png().unwrap());
}

#[test]
fn empty_images_are_not_encoded() {
    assert_eq!(Image::new(0, 4).unwrap().to_png(), Err(EncodeError::ZeroWidth));
    assert_eq!(Image::new(4, 0).unwrap().to_png(), Err(EncodeError::ZeroHeight));
    assert_eq!(Image::new(0, 0).unwrap().to_png(), Err(EncodeError::ZeroWidth));
}

#[test]
fn encoder_checks_size_and_length() {
    let data = vec![0u8; 12];
    assert!(encode_rgb16(2, 1, &data).is_ok());
    assert!(encode_rgb16(1, 2, &data).is_ok());
    assert_eq!(encode_rgb16(2, 2, &data), Err(EncodeError::BufferSize));
    assert_eq!(encode_rgb16(1, 1, &data), Err(EncodeError::BufferSize));
    assert_eq!(encode_rgb16(0, 2, &data), Err(EncodeError::ZeroWidth));
    assert_eq!(encode_rgb16(2, 0, &data), Err(EncodeError::ZeroHeight));
    assert_eq!(encode_rgb16(1 << 32, 1, &data), Err(EncodeError::TooLarge));
    assert_eq!(encode_rgb16(1, 1 << 32, &data), Err(EncodeError::TooLarge));
}

#[test]
fn encoder_failure_is_reported_as_rejected() {
    assert_eq!(png_outcome(Err(png::EncodingError::LimitsExceeded)), Err(EncodeError::Rejected));
    assert_eq!(png_outcome(Ok(vec![1, 2, 3])), Ok(vec![1, 2, 3]));
}
