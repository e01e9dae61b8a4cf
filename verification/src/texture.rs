//! Images that colour surfaces: a grid of texels, kept in an image buffer
//! of the `image` crate.

use vstd::prelude::*;

verus! {

/// An image of three bytes (red, green, blue) for each texel, row by row
/// from the top, each row from the left. It is kept in an
/// `image::RgbImage`, of which the proofs know the width, the height and
/// the bytes, as the functions below state them.
#[verifier::external_body]
#[derive(Debug)]
pub struct TextureImage {
    image: image::RgbImage,
}

/// The width of an image in texels.
pub uninterp spec fn texture_width(image: TextureImage) -> u32;

/// The height of an image in texels.
pub uninterp spec fn texture_height(image: TextureImage) -> u32;

/// The bytes of an image: three for each texel, row by row.
pub uninterp spec fn texture_data(image: TextureImage) -> Seq<u8>;

/// `image::ImageBuffer::from_raw`: the image of the given size over the
/// given bytes, if there are at least three bytes for each texel and their
/// number can be counted; nothing, if not.
#[verifier::external_body]
fn image_from_raw(width: u32, height: u32, data: Vec<u8>) -> (r: Option<TextureImage>)
    ensures
        r.is_some() <==> 3 * width * height <= data.len(),
        r matches Some(image) ==> texture_width(image) == width && texture_height(image) == height
            && texture_data(image) == data@,
{
    match image::RgbImage::from_raw(width, height, data) {
        Some(image) => Some(TextureImage { image }),
        None => None,
    }
}

/// `image::ImageBuffer::width`.
#[verifier::external_body]
fn image_width(image: &TextureImage) -> (w: u32)
    ensures
        w == texture_width(*image),
{
    image.image.width()
}

/// `image::ImageBuffer::height`.
#[verifier::external_body]
fn image_height(image: &TextureImage) -> (h: u32)
    ensures
        h == texture_height(*image),
{
    image.image.height()
}

/// `image::ImageBuffer::get_pixel`: the three bytes of the texel in column
/// `x` of row `y`, which stand at the place `3 * (y * width + x)` of the
/// bytes of the image. The texel has to be one of the image.
#[verifier::external_body]
fn image_pixel(image: &TextureImage, x: u32, y: u32) -> (p: (u8, u8, u8))
    requires
        x < texture_width(*image),
        y < texture_height(*image),
    ensures
        p == texel(*image, x, y),
{
    let pixel = image.image.get_pixel(x, y);
    (pixel[0], pixel[1], pixel[2])
}

/// The red, green and blue bytes of the texel in column `x` of row `y`.
pub open spec fn texel(image: TextureImage, x: u32, y: u32) -> (u8, u8, u8) {
    let at = 3 * (y * texture_width(image) + x);
    (texture_data(image)[at], texture_data(image)[at + 1], texture_data(image)[at + 2])
}

impl TextureImage {
    /// The image of the given size over the given bytes, three for each
    /// texel, row by row; nothing, if the bytes are too few.
    pub fn new(width: u32, height: u32, data: Vec<u8>) -> (r: Option<TextureImage>)
        ensures
            r.is_some() <==> 3 * width * height <= data.len(),
            r matches Some(image) ==> texture_width(image) == width && texture_height(image)
                == height && texture_data(image) == data@,
    {
        image_from_raw(width, height, data)
    }

    /// The width in texels.
    pub fn width(&self) -> (w: u32)
        ensures
            w == texture_width(*self),
    {
        image_width(self)
    }

    /// The height in texels.
    pub fn height(&self) -> (h: u32)
        ensures
            h == texture_height(*self),
    {
        image_height(self)
    }

    /// The texel in column `x` of row `y`, if the image has one there.
    pub fn get_pixel(&self, x: u32, y: u32) -> (p: Option<(u8, u8, u8)>)
        ensures
            p == if x < texture_width(*self) && y < texture_height(*self) {
                Some(texel(*self, x, y))
            } else {
                None
            },
    {
        if x < image_width(self) && y < image_height(self) {
            Some(image_pixel(self, x, y))
        } else {
            None
        }
    }
}

} // verus!
