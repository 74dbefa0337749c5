//! Red pixels counted in a picture.

use vstd::prelude::*;

verus! {

/// A picture as the crate `image` holds it once it is read.
#[verifier::external_type_specification]
#[verifier::external_body]
pub struct ExDynamicImage(image::DynamicImage);

/// The number of pixels in a row of the picture.
pub uninterp spec fn picture_width(picture: image::DynamicImage) -> u32;

/// The number of rows of the picture.
pub uninterp spec fn picture_height(picture: image::DynamicImage) -> u32;

/// The samples of the picture are whole numbers of 8 or of 16 bits, not
/// floating-point numbers.
pub uninterp spec fn picture_is_whole(picture: image::DynamicImage) -> bool;

/// The pixel of a picture of whole numbers in the row `y`, counted from
/// the top, at the place `x`, counted from the left: its red, green, blue
/// and alpha, each in 8 bits.
pub uninterp spec fn picture_pixel(
    picture: image::DynamicImage,
    x: u32,
    y: u32,
) -> (u8, u8, u8, u8);

/// What the crate `image` reads from the bytes of a file: `None` where it
/// reads no picture, `Some(None)` where it reads a picture of
/// floating-point samples, and else the pixels of the picture, row after
/// row from the top and each row from the left.
pub uninterp spec fn image_pixels(bytes: Seq<u8>) -> Option<Option<Seq<(u8, u8, u8, u8)>>>;

/// Why a file gives no count of pixels.
#[derive(Clone, Copy, Debug, PartialEq, Eq)]
pub enum PictureError {
    /// The bytes are read as no picture.
    NoPicture,
    /// The picture holds floating-point samples, which are not turned into
    /// pixels here.
    FloatSamples,
}

/// The first `upto` pixels of the row `y` of a picture, from the left.
pub open spec fn row_pixels(
    picture: image::DynamicImage,
    y: u32,
    upto: nat,
) -> Seq<(u8, u8, u8, u8)>
    decreases upto,
{
    if upto == 0 {
        Seq::empty()
    } else {
        row_pixels(picture, y, (upto - 1) as nat).push(
            picture_pixel(picture, (upto - 1) as u32, y),
        )
    }
}

/// The pixels of the first `upto` rows of a picture, row after row from
/// the top.
pub open spec fn rows_pixels(picture: image::DynamicImage, upto: nat) -> Seq<(u8, u8, u8, u8)>
    decreases upto,
{
    if upto == 0 {
        Seq::empty()
    } else {
        rows_pixels(picture, (upto - 1) as nat) + row_pixels(
            picture,
            (upto - 1) as u32,
            picture_width(picture) as nat,
        )
    }
}

/// All the pixels of a picture, row after row from the top and each row
/// from the left; none for a picture without width or without height.
pub open spec fn pixels_in_order(picture: image::DynamicImage) -> Seq<(u8, u8, u8, u8)> {
    rows_pixels(picture, picture_height(picture) as nat)
}

/// What a picture gives in pixels: nothing where its samples are
/// floating-point numbers.
pub open spec fn pixels_read(picture: image::DynamicImage) -> Option<Seq<(u8, u8, u8, u8)>> {
    if picture_is_whole(picture) {
        Some(pixels_in_order(picture))
    } else {
        None
    }
}

/// `image::load_from_memory`: whether the bytes are read as a picture, and
/// the kind, the size and the pixels of the picture read, depend on the
/// bytes alone.
#[verifier::external_body]
fn load_picture(bytes: &[u8]) -> (picture: Option<image::DynamicImage>)
    ensures
        picture matches Some(p) ==> image_pixels(bytes@) == Some(pixels_read(p)),
        picture is None ==> image_pixels(bytes@) is None,
{
    image::load_from_memory(bytes).ok()
}

/// The variants of `image::DynamicImage` told apart: the eight that hold
/// samples of 8 or of 16 bits, and the others, which hold floating-point
/// samples or are not known here.
#[verifier::external_body]
fn is_whole(picture: &image::DynamicImage) -> (whole: bool)
    ensures
        whole == picture_is_whole(*picture),
{
    match picture {
        image::DynamicImage::ImageLuma8(_) => true,
        image::DynamicImage::ImageLumaA8(_) => true,
        image::DynamicImage::ImageRgb8(_) => true,
        image::DynamicImage::ImageRgba8(_) => true,
        image::DynamicImage::ImageLuma16(_) => true,
        image::DynamicImage::ImageLumaA16(_) => true,
        image::DynamicImage::ImageRgb16(_) => true,
        image::DynamicImage::ImageRgba16(_) => true,
        image::DynamicImage::ImageRgb32F(_) => false,
        image::DynamicImage::ImageRgba32F(_) => false,
        _ => false,
    }
}

/// `image::GenericImageView::width` of a picture.
#[verifier::external_body]
fn width_of(picture: &image::DynamicImage) -> (width: u32)
    ensures
        width == picture_width(*picture),
{
    image::GenericImageView::width(picture)
}

/// `image::GenericImageView::height` of a picture.
#[verifier::external_body]
fn height_of(picture: &image::DynamicImage) -> (height: u32)
    ensures
        height == picture_height(*picture),
{
    image::GenericImageView::height(picture)
}

/// `image::GenericImageView::get_pixel` of a picture of whole numbers, for
/// a place that lies within the picture: the four parts of the pixel
/// there. Samples of 16 bits are brought down to 8 without a step that
/// can fail; floating-point samples are, so such pictures are left out.
#[verifier::external_body]
fn pixel_at(picture: &image::DynamicImage, x: u32, y: u32) -> (pixel: (u8, u8, u8, u8))
    requires
        picture_is_whole(*picture),
        x < picture_width(*picture),
        y < picture_height(*picture),
    ensures
        pixel == picture_pixel(*picture, x, y),
{
    let p = image::GenericImageView::get_pixel(picture, x, y);
    (p.0[0], p.0[1], p.0[2], p.0[3])
}

/// Walks a picture of whole numbers row after row from the top, each row
/// from the left.
fn pixels_of(picture: &image::DynamicImage) -> (pixels: Vec<(u8, u8, u8, u8)>)
    requires
        picture_is_whole(*picture),
    ensures
        pixels@ == pixels_in_order(*picture),
{
    let width = width_of(picture);
    let height = height_of(picture);
    let mut pixels: Vec<(u8, u8, u8, u8)> = Vec::new();
    let mut y: u32 = 0;
    while y < height
        invariant
            y <= height,
            picture_is_whole(*picture),
            width == picture_width(*picture),
            height == picture_height(*picture),
            pixels@ == rows_pixels(*picture, y as nat),
        decreases height - y,
    {
        let ghost above = pixels@;
        let mut x: u32 = 0;
        while x < width
            invariant
                x <= width,
                y < height,
                picture_is_whole(*picture),
                width == picture_width(*picture),
                height == picture_height(*picture),
                pixels@ == above + row_pixels(*picture, y, x as nat),
            decreases width - x,
        {
            pixels.push(pixel_at(picture, x, y));
            proof {
                assert(pixels@ =~= above + row_pixels(*picture, y, (x + 1) as nat));
            }
            x = x + 1;
        }
        y = y + 1;
    }
    pixels
}

/// A pixel counts as red where its red is more than its green and its
/// blue together.
pub open spec fn is_red(pixel: (u8, u8, u8, u8)) -> bool {
    pixel.0 > pixel.1 + pixel.2
}

/// The number of red pixels.
pub open spec fn red_count(pixels: Seq<(u8, u8, u8, u8)>) -> nat
    decreases pixels.len(),
{
    if pixels.len() == 0 {
        0
    } else {
        red_count(pixels.drop_last()) + if is_red(pixels.last()) {
            1nat
        } else {
            0nat
        }
    }
}

/// No more pixels are red than there are.
proof fn lemma_red_count_bound(pixels: Seq<(u8, u8, u8, u8)>)
    ensures
        red_count(pixels) <= pixels.len(),
    decreases pixels.len(),
{
    if pixels.len() > 0 {
        lemma_red_count_bound(pixels.drop_last());
    }
}

/// Counts the red pixels.
pub fn count_red(pixels: &Vec<(u8, u8, u8, u8)>) -> (count: usize)
    ensures
        count == red_count(pixels@),
{
    let mut count: usize = 0;
    let mut i: usize = 0;
    proof {
        assert(pixels@.take(0) =~= Seq::empty());
    }
    while i < pixels.len()
        invariant
            i <= pixels.len(),
            count == red_count(pixels@.take(i as int)),
        decreases pixels.len() - i,
    {
        let p = pixels[i];
        proof {
            assert(pixels@.take(i + 1).drop_last() =~= pixels@.take(i as int));
            assert(pixels@.take(i + 1).last() == p);
            lemma_red_count_bound(pixels@.take(i as int));
        }
        if p.0 as u16 > p.1 as u16 + p.2 as u16 {
            count = count + 1;
        }
        i = i + 1;
    }
    proof {
        assert(pixels@.take(i as int) =~= pixels@);
    }
    count
}

/// Counts the red pixels of the picture in a file.
///
/// No count is given where the bytes of the file are read as no picture,
/// and none where the picture holds floating-point samples.
pub fn count_pixels(bytes: &[u8]) -> (count: Result<usize, PictureError>)
    ensures
        match image_pixels(bytes@) {
            Some(Some(pixels)) => count == Ok::<usize, PictureError>(red_count(pixels) as usize)
                && red_count(pixels) <= usize::MAX,
            Some(None) => count == Err::<usize, PictureError>(PictureError::FloatSamples),
            None => count == Err::<usize, PictureError>(PictureError::NoPicture),
        },
{
    match load_picture(bytes) {
        Some(picture) => {
            if is_whole(&picture) {
                Ok(count_red(&pixels_of(&picture)))
            } else {
                Err(PictureError::FloatSamples)
            }
        },
        None => Err(PictureError::NoPicture),
    }
}

} // verus!
