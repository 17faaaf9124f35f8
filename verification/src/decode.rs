//! Decoding of PNG files that are held in memory.
//!
//! The decoding itself is the work of the `image` crate and is not verified
//! here: this module gives its result a name and puts it into a
//! [`PixelGrid`].

use vstd::prelude::*;
use crate::pixels::PixelGrid;
use crate::pixels::Raster;
use crate::pixels::Rgba;

verus! {

/// What the `image` crate decodes from the bytes of a PNG file: the size of
/// the image and its pixels as red, green, blue and alpha samples of eight
/// bits, row by row; nothing for bytes that it does not accept as a PNG
/// file.
pub uninterp spec fn png_image(bytes: Seq<u8>) -> Option<Raster>;

/// The image that the bytes of a PNG file hold, if they hold one whose
/// pixels are as many as its size asks for.
pub open spec fn decodable(bytes: Seq<u8>) -> Option<Raster> {
    match png_image(bytes) {
        Some(image) => if image.pixels.len() == image.width * image.height {
            Some(image)
        } else {
            None
        },
        None => None,
    }
}

/// A decoded image as the decoder hands it over: its size and its pixels,
/// row by row.
struct DecodedImage {
    width: u32,
    height: u32,
    pixels: Vec<Rgba>,
}

impl View for DecodedImage {
    type V = Raster;

    closed spec fn view(&self) -> Raster {
        Raster { width: self.width, height: self.height, pixels: self.pixels@ }
    }
}

/// Calls `image::load_from_memory_with_format` with the PNG format on the
/// bytes and walks the decoded image with `GenericImageView::pixels`, which
/// hands out the pixels row by row, each as `Rgba<u8>`.
///
/// The contract claims that the outcome depends on the bytes alone, and
/// calls it `png_image`. It claims nothing about what is decoded from which
/// bytes.
#[verifier::external_body]
fn decode_with_image_crate(bytes: &Vec<u8>) -> (decoded: Option<DecodedImage>)
    ensures
        decoded matches Some(image) ==> png_image(bytes@) == Some(image@),
        decoded is None ==> png_image(bytes@) is None,
{
    let img = image::load_from_memory_with_format(bytes, image::ImageFormat::Png).ok()?;
    let (width, height) = image::GenericImageView::dimensions(&img);
    let pixels = image::GenericImageView::pixels(&img)
        .map(|(_, _, p)| Rgba { red: p[0], green: p[1], blue: p[2], alpha: p[3] })
        .collect();
    Some(DecodedImage { width, height, pixels })
}

/// Decodes the bytes of a PNG file. Nothing comes back for bytes that do
/// not hold an image.
pub fn decode_png(bytes: &Vec<u8>) -> (image: Option<PixelGrid>)
    ensures
        match image {
            Some(grid) => decodable(bytes@) == Some(grid@),
            None => decodable(bytes@) is None,
        },
{
    match decode_with_image_crate(bytes) {
        Some(decoded) => PixelGrid::new(decoded.width, decoded.height, decoded.pixels),
        None => None,
    }
}

} // verus!
