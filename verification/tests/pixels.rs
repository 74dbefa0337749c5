use north_pole::pixels::{count_pixels, count_red, PictureError};

fn png(width: u32, height: u32, at: impl Fn(u32, u32) -> [u8; 4]) -> Vec<u8> {
    let picture = image::RgbaImage::from_fn(width, height, |x, y| image::Rgba(at(x, y)));
    let mut bytes = std::io::Cursor::new(Vec::new());
    picture.write_to(&mut bytes, image::ImageOutputFormat::Png).unwrap();
    bytes.into_inner()
}

#[test]
fn red_is_more_than_green_and_blue_together() {
    assert_eq!(count_red(&vec![]), 0);
    assert_eq!(
        count_red(&vec![
            (255, 0, 0, 255),
            (255, 128, 126, 0),
            (255, 128, 127, 255),
            (255, 255, 255, 255),
            (1, 0, 0, 0),
            (0, 0, 0, 0),
            (200, 100, 99, 1),
            (200, 100, 100, 1),
        ]),
        4
    );
}

#[test]
fn pixels_of_a_picture_are_counted() {
    // a red square in a grey picture
    let bytes = png(8, 6, |x, y| {
        if (2..5).contains(&x) && (1..4).contains(&y) {
            [250, 10, 20, 255]
        } else {
            [90, 90, 90, 255]
        }
    });
    assert_eq!(count_pixels(&bytes), Ok(9));
    let all = png(3, 3, |_, _| [9, 4, 4, 0]);
    assert_eq!(count_pixels(&all), Ok(9));
    let none = png(3, 3, |_, _| [8, 4, 4, 255]);
    assert_eq!(count_pixels(&none), Ok(0));
}

#[test]
fn bytes_that_are_no_picture_give_none() {
    assert_eq!(count_pixels(b"not a picture"), Err(PictureError::NoPicture));
    assert_eq!(count_pixels(&[]), Err(PictureError::NoPicture));
}

#[test]
fn a_picture_without_width_has_no_pixels() {
    // the word farbfeld, a width of 0 and a height of 2
    let mut bytes = b"farbfeld".to_vec();
    bytes.extend_from_slice(&[0, 0, 0, 0]);
    bytes.extend_from_slice(&[0, 0, 0, 2]);
    assert_eq!(bytes.len(), 16);
    assert_eq!(count_pixels(&bytes), Ok(0));
}

#[test]
fn a_picture_without_height_has_no_pixels() {
    let mut bytes = b"farbfeld".to_vec();
    bytes.extend_from_slice(&[0, 0, 0, 3]);
    bytes.extend_from_slice(&[0, 0, 0, 0]);
    assert_eq!(count_pixels(&bytes), Ok(0));
}

#[test]
fn pixels_are_walked_row_after_row() {
    // two rows of three pixels, sixteen bits to a part: only the last of
    // the first row and the first of the second are red
    let mut bytes = b"farbfeld".to_vec();
    bytes.extend_from_slice(&[0, 0, 0, 3]);
    bytes.extend_from_slice(&[0, 0, 0, 2]);
    let grey = [0x40, 0, 0x40, 0, 0x40, 0, 0xff, 0xff];
    let red = [0xff, 0xff, 0x10, 0, 0x10, 0, 0xff, 0xff];
    for pixel in [grey, grey, red, red, grey, grey] {
        bytes.extend_from_slice(&pixel);
    }
    assert_eq!(count_pixels(&bytes), Ok(2));
}

fn exr(width: u32, height: u32, at: impl Fn(u32, u32) -> [f32; 3]) -> Vec<u8> {
    let picture = image::Rgb32FImage::from_fn(width, height, |x, y| image::Rgb(at(x, y)));
    let mut bytes = std::io::Cursor::new(Vec::new());
    image::DynamicImage::ImageRgb32F(picture)
        .write_to(&mut bytes, image::ImageOutputFormat::OpenExr)
        .unwrap();
    bytes.into_inner()
}

#[test]
fn a_picture_of_floating_point_samples_is_not_counted() {
    let bytes = exr(4, 3, |_, _| [0.9, 0.1, 0.1]);
    assert!(matches!(
        image::load_from_memory(&bytes),
        Ok(image::DynamicImage::ImageRgb32F(_)) | Ok(image::DynamicImage::ImageRgba32F(_))
    ));
    assert_eq!(count_pixels(&bytes), Err(PictureError::FloatSamples));
}

#[test]
fn a_sample_that_is_no_number_does_no_harm() {
    let bytes = exr(2, 2, |x, y| match (x, y) {
        (1, 0) => [f32::NAN, 0.0, 0.0],
        _ => [0.5, 0.5, 0.5],
    });
    assert_eq!(count_pixels(&bytes), Err(PictureError::FloatSamples));
}

#[test]
fn samples_of_sixteen_bits_are_counted() {
    let picture = image::ImageBuffer::<image::Rgb<u16>, Vec<u16>>::from_fn(3, 2, |x, _| {
        if x == 0 {
            image::Rgb([0xffff, 0x4000, 0x4000])
        } else {
            image::Rgb([0x8000, 0x4000, 0x4000])
        }
    });
    let mut bytes = std::io::Cursor::new(Vec::new());
    image::DynamicImage::ImageRgb16(picture)
        .write_to(&mut bytes, image::ImageOutputFormat::Png)
        .unwrap();
    assert_eq!(count_pixels(&bytes.into_inner()), Ok(2));
}
