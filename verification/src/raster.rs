//! The boundary with the `image` crate.
//!
//! Everything in this module is trusted rather than proved: a codec image is
//! opaque to the verifier, so its size and pixels are given names, and each
//! call into the crate is wrapped in a function whose contract is stated over
//! those names.

use image::DynamicImage;
use image::GenericImageView;
use image::ImageBuffer;
use vstd::prelude::*;

verus! {

/// `image::DynamicImage`: an image in any of the pixel layouts that the crate
/// knows. Nothing inside it is visible here.
#[verifier::external_type_specification]
#[verifier::external_body]
pub struct ExDynamicImage(image::DynamicImage);

/// Number of pixel columns of an image.
pub uninterp spec fn image_width(image: DynamicImage) -> nat;

/// Number of pixel rows of an image.
pub uninterp spec fn image_height(image: DynamicImage) -> nat;

/// The pixels of an image in row-major order, each as the red, green, blue
/// and alpha samples that the image reports for it in 8 bits.
pub uninterp spec fn image_pixels(image: DynamicImage) -> Seq<[u8; 4]>;

/// Number of channels that an image stores for each pixel, as its colour
/// type counts them: three for red, green and blue without alpha.
pub uninterp spec fn image_channels(image: DynamicImage) -> nat;

/// Whether the samples of an 8-bit RGB image of the given size can be
/// counted in `usize`, those of one row and those of the whole image. The
/// crate makes no such image otherwise.
pub open spec fn fits_rgb8(width: nat, height: nat) -> bool {
    &&& 3 * width <= usize::MAX
    &&& 3 * width * height <= usize::MAX
}

/// The pixels that a buffer of interleaved red, green and blue samples
/// stands for: three samples per pixel, every pixel fully opaque.
pub open spec fn opaque_pixels(samples: Seq<u8>) -> Seq<[u8; 4]> {
    Seq::new(
        samples.len() / 3,
        |k: int| [samples[3 * k], samples[3 * k + 1], samples[3 * k + 2], 255u8],
    )
}

/// `GenericImageView::dimensions` of a `DynamicImage`: the width and the
/// height of the image. The pixel sequence has one entry per coordinate pair.
#[verifier::external_body]
pub(crate) fn dimensions(image: &DynamicImage) -> (dims: (u32, u32))
    ensures
        dims.0 == image_width(*image),
        dims.1 == image_height(*image),
        dims.0 * dims.1 == image_pixels(*image).len(),
{
    image.dimensions()
}

/// `GenericImageView::get_pixel` of a `DynamicImage`: the pixel in column `x`
/// of row `y`, converted to 8-bit RGBA. The crate panics on coordinates
/// outside the image, so they are excluded.
#[verifier::external_body]
pub(crate) fn get_pixel(image: &DynamicImage, x: u32, y: u32) -> (pixel: [u8; 4])
    requires
        x < image_width(*image),
        y < image_height(*image),
    ensures
        pixel == image_pixels(*image)[y * image_width(*image) + x],
{
    image.get_pixel(x, y).0
}

/// `ImageBuffer::from_raw` for 8-bit RGB, wrapped as a `DynamicImage`. The
/// crate accepts the buffer exactly when the samples of an image of that
/// size can be counted and the buffer holds at least as many; the image
/// then has the given size and three channels, and reads back the leading
/// samples three per pixel with full alpha.
#[verifier::external_body]
pub(crate) fn rgb8_from_raw(width: u32, height: u32, samples: Vec<u8>) -> (made: Option<DynamicImage>)
    ensures
        made is Some <==> (fits_rgb8(width as nat, height as nat) && 3 * width * height
            <= samples@.len()),
        made matches Some(image) ==> image_width(image) == width && image_height(image) == height
            && image_channels(image) == 3 && image_pixels(image) == opaque_pixels(
            samples@.take(3 * width * height),
        ),
{
    ImageBuffer::from_raw(width, height, samples).map(DynamicImage::ImageRgb8)
}

} // verus!
