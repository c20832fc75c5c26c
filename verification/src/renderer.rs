use vstd::prelude::*;

use image::{DynamicImage, ImageBuffer, Rgba};

verus! {

/// The colour that `text_to_png` reads from a piece of text, as its red,
/// green and blue channels, or `None` where it reads none. It is a lookup in
/// the crate's table of colour names, then a three- or six-digit hex reading.
pub uninterp spec fn renderer_color(text: Seq<char>) -> Option<(u8, u8, u8)>;

/// `<text_to_png::Color as TryFrom<&str>>::try_from`, with the colour taken
/// apart into its channels. Its answer depends on `text` alone (a fixed table
/// and a fixed hex reading), so it is named, not stated.
#[verifier::external_body]
pub(crate) fn lookup_renderer_color(text: &str) -> (found: Option<(u8, u8, u8)>)
    ensures
        found == renderer_color(text@),
{
    match text_to_png::Color::try_from(text) {
        Ok(color) => Some((color.r, color.g, color.b)),
        Err(()) => None,
    }
}

/// The error of the text renderer.
#[verifier::external_type_specification]
#[verifier::external_body]
pub struct ExTextToPngError(text_to_png::TextToPngError);

/// The error of the image decoder.
#[verifier::external_type_specification]
#[verifier::external_body]
pub struct ExImageError(image::ImageError);

/// An in-memory image of the image crate.
#[verifier::external_type_specification]
#[verifier::external_body]
pub struct ExDynamicImage(image::DynamicImage);

/// The width and height, in pixels, that an image was made with.
pub uninterp spec fn image_dimensions(image: DynamicImage) -> (u32, u32);

/// The pixels of an image, row by row from the top left, each as its
/// channel values.
pub uninterp spec fn image_pixels(image: DynamicImage) -> Seq<Seq<u8>>;

/// Whether an image holds 8-bit RGBA pixels (`DynamicImage::ImageRgba8`),
/// and so keeps an alpha channel.
pub uninterp spec fn image_is_rgba8(image: DynamicImage) -> bool;

/// `image::ImageBuffer::from_pixel` with an RGBA pixel, held as a
/// `DynamicImage::ImageRgba8`: an image of `width` by `height` pixels, each a
/// copy of `pixel`. The buffer holds four bytes a pixel; the crate panics where
/// that many bytes cannot be held in a vector, which `requires` leaves out.
#[verifier::external_body]
pub(crate) fn rgba_filled(width: u32, height: u32, pixel: [u8; 4]) -> (image: DynamicImage)
    requires
        width * height * 4 <= isize::MAX,
    ensures
        image_is_rgba8(image),
        image_dimensions(image) == (width, height),
        image_pixels(image) == Seq::new((width * height) as nat, |i: int| pixel@),
{
    DynamicImage::ImageRgba8(ImageBuffer::from_pixel(width, height, Rgba(pixel)))
}

} // verus!
