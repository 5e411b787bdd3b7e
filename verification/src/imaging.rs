//! The image that a rendering fills: a `DynamicImage` of the `image`
//! crate, seen as a map from pixel coordinates to colours.

use vstd::prelude::*;

verus! {

/// Declares `image::DynamicImage`: an image of any of the pixel layouts
/// of the `image` crate. Nothing inside it is visible here.
#[verifier::external_type_specification]
#[verifier::external_body]
pub struct ExDynamicImage(image::DynamicImage);

/// Declares `image::Rgba`: a pixel of four channels. Nothing inside it
/// is visible here.
#[verifier::external_type_specification]
#[verifier::external_body]
#[verifier::reject_recursive_types(T)]
pub struct ExRgba<T>(image::Rgba<T>);

/// The red, green, blue and opacity that a pixel holds, in that order.
pub uninterp spec fn rgba_channels(pixel: image::Rgba<u8>) -> (u8, u8, u8, u8);

/// Makes an `image::Rgba` of its four channels: red, green, blue and
/// opacity, each as given.
#[verifier::external_body]
pub(crate) fn rgba(red: u8, green: u8, blue: u8, opacity: u8) -> (pixel: image::Rgba<u8>)
    ensures
        rgba_channels(pixel) == (red, green, blue, opacity),
{
    image::Rgba([red, green, blue, opacity])
}

/// The red, green and blue of every pixel of `img`, as `get_pixel`
/// reports them, by column and row. The map is defined on the pixels of
/// the image and on no others.
pub uninterp spec fn image_pixels(img: image::DynamicImage) -> Map<(u32, u32), (u8, u8, u8)>;

/// Whether `img` stores its pixels as three bytes: red, green, blue.
pub uninterp spec fn image_is_rgb8(img: image::DynamicImage) -> bool;

/// Calls `image::DynamicImage::new_rgb8`. The image it makes stores
/// three bytes for each pixel, holds `width` columns and `height` rows,
/// and every byte of it is zero. The buffer must fit in memory: the
/// call panics where three bytes for each pixel are more than a vector
/// can hold.
#[verifier::external_body]
pub(crate) fn new_rgb8(width: u32, height: u32) -> (img: image::DynamicImage)
    requires
        3 * width * height <= isize::MAX,
    ensures
        image_is_rgb8(img),
        forall|at: (u32, u32)|
            (#[trigger] image_pixels(img).dom().contains(at)) <==> (at.0 < width && at.1 < height),
        forall|at: (u32, u32)|
            at.0 < width && at.1 < height ==> (#[trigger] image_pixels(img)[at]) == (0u8, 0u8, 0u8),
{
    image::DynamicImage::new_rgb8(width, height)
}

/// Calls `image::GenericImage::put_pixel` on a `DynamicImage`. In an
/// image of three bytes for each pixel the red, green and blue given
/// replace those of the pixel at column `x` and row `y`; the opacity is
/// dropped, and no other pixel changes. The call panics for a pixel
/// outside the image.
#[verifier::external_body]
pub(crate) fn put_pixel(img: &mut image::DynamicImage, x: u32, y: u32, pixel: image::Rgba<u8>)
    requires
        image_is_rgb8(*old(img)),
        image_pixels(*old(img)).dom().contains((x, y)),
    ensures
        image_is_rgb8(*final(img)),
        image_pixels(*final(img)) == image_pixels(*old(img)).insert(
            (x, y),
            (rgba_channels(pixel).0, rgba_channels(pixel).1, rgba_channels(pixel).2),
        ),
{
    image::GenericImage::put_pixel(img, x, y, pixel)
}

} // verus!
