//! Images of three 8-bit channels per pixel, kept in a buffer of the `image` crate.

use vstd::prelude::*;

verus! {

/// One pixel: its red, green and blue channel.
pub type Color = (u8, u8, u8);

/// The pixel of a buffer that nothing has been written to.
pub open spec fn black() -> Color {
    (0u8, 0u8, 0u8)
}

/// An image: an `image::RgbImage`, reached only through the functions of this module.
#[verifier::external_body]
pub struct PixelBuffer {
    inner: image::RgbImage,
}

/// The size that an image was made with: its width, then its height.
pub uninterp spec fn image_size(img: PixelBuffer) -> (nat, nat);

/// The pixels of an image, by column and row.
pub uninterp spec fn image_pixels(img: PixelBuffer) -> Map<(int, int), Color>;

/// Number of columns of an image.
pub open spec fn image_width(img: PixelBuffer) -> nat {
    image_size(img).0
}

/// Number of rows of an image.
pub open spec fn image_height(img: PixelBuffer) -> nat {
    image_size(img).1
}

/// The pixel in column `x` of row `y`.
#[verifier::inline]
pub open spec fn pixel_at(img: PixelBuffer, x: int, y: int) -> Color {
    image_pixels(img)[(x, y)]
}

/// Row `y` of an image, from left to right.
pub open spec fn image_row(img: PixelBuffer, y: int) -> Seq<Color> {
    Seq::new(image_width(img), |x: int| pixel_at(img, x, y))
}

/// Column `x` of an image, from top to bottom.
pub open spec fn image_column(img: PixelBuffer, x: int) -> Seq<Color> {
    Seq::new(image_height(img), |y: int| pixel_at(img, x, y))
}

/// An image of this size can be made: the three bytes of each pixel of a row can
/// be counted in a `usize`, and those of all rows fit in a vector.
pub open spec fn size_fits(width: nat, height: nat) -> bool {
    &&& 3 * width <= usize::MAX
    &&& 3 * width * height <= isize::MAX
}

/// `image::ImageBuffer::dimensions`: the width and the height of the image.
/// They are those of an image that can be made: the buffer was made by
/// `image::ImageBuffer::new`, which makes no other.
#[verifier::external_body]
pub(crate) fn dimensions(img: &PixelBuffer) -> (size: (u32, u32))
    ensures
        (size.0 as nat, size.1 as nat) == image_size(*img),
        size_fits(size.0 as nat, size.1 as nat),
{
    img.inner.dimensions()
}

/// `image::ImageBuffer::new`: an image of the given size whose pixels are all black.
/// It panics when the bytes of a row cannot be counted in a `usize`, or those of
/// the image do not fit in a vector.
#[verifier::external_body]
pub(crate) fn new_image(width: u32, height: u32) -> (img: PixelBuffer)
    requires
        size_fits(width as nat, height as nat),
    ensures
        image_size(img) == (width as nat, height as nat),
        forall|x: int, y: int|
            0 <= x < width && 0 <= y < height ==> #[trigger] image_pixels(img)[(x, y)] == black(),
{
    PixelBuffer { inner: image::RgbImage::new(width, height) }
}

/// `image::ImageBuffer::get_pixel`: the pixel in column `x` of row `y`.
/// It panics outside the image.
#[verifier::external_body]
pub(crate) fn get_pixel(img: &PixelBuffer, x: u32, y: u32) -> (color: Color)
    requires
        x < image_width(*img),
        y < image_height(*img),
    ensures
        color == image_pixels(*img)[(x as int, y as int)],
{
    let image::Rgb([r, g, b]) = *img.inner.get_pixel(x, y);
    (r, g, b)
}

/// `image::ImageBuffer::put_pixel`: sets the pixel in column `x` of row `y` and
/// changes nothing else. It panics outside the image.
#[verifier::external_body]
pub(crate) fn put_pixel(img: &mut PixelBuffer, x: u32, y: u32, color: Color)
    requires
        x < image_width(*old(img)),
        y < image_height(*old(img)),
    ensures
        image_size(*final(img)) == image_size(*old(img)),
        image_pixels(*final(img)) == image_pixels(*old(img)).insert((x as int, y as int), color),
{
    img.inner.put_pixel(x, y, image::Rgb([color.0, color.1, color.2]))
}

/// Whether an image of `width` by `height` pixels can be made.
pub(crate) fn fits(width: u32, height: u32) -> (ok: bool)
    ensures
        ok == size_fits(width as nat, height as nat),
{
    proof {
        assert(3 * width * height <= 3 * 0x1_0000_0000 * 0x1_0000_0000) by (nonlinear_arith)
            requires
                width < 0x1_0000_0000,
                height < 0x1_0000_0000,
        ;
    }
    let row = 3 * (width as u128);
    row <= usize::MAX as u128 && row * (height as u128) <= isize::MAX as u128
}

impl PixelBuffer {
    /// A black image of the given size, or nothing where an image of that size
    /// cannot be made.
    pub fn blank(width: u32, height: u32) -> (made: Option<PixelBuffer>)
        ensures
            made is Some <==> size_fits(width as nat, height as nat),
            made matches Some(img) ==> {
                &&& image_width(img) == width
                &&& image_height(img) == height
                &&& forall|x: int, y: int|
                    0 <= x < width && 0 <= y < height ==> #[trigger] pixel_at(img, x, y) == black()
            },
    {
        if fits(width, height) {
            Some(new_image(width, height))
        } else {
            None
        }
    }

    /// Number of columns. Every image has a size that an image can be made with.
    pub fn width(&self) -> (w: u32)
        ensures
            w == image_width(*self),
            size_fits(image_width(*self), image_height(*self)),
    {
        dimensions(self).0
    }

    /// Number of rows.
    pub fn height(&self) -> (h: u32)
        ensures
            h == image_height(*self),
            size_fits(image_width(*self), image_height(*self)),
    {
        dimensions(self).1
    }

    /// The pixel in column `x` of row `y`, or nothing outside the image.
    pub fn pixel(&self, x: u32, y: u32) -> (found: Option<Color>)
        ensures
            found == if x < image_width(*self) && y < image_height(*self) {
                Some(pixel_at(*self, x as int, y as int))
            } else {
                None
            },
    {
        let (width, height) = dimensions(self);
        if x < width && y < height {
            Some(get_pixel(self, x, y))
        } else {
            None
        }
    }

    /// Sets the pixel in column `x` of row `y` and says whether there is such a
    /// pixel; outside the image nothing changes.
    pub fn set_pixel(&mut self, x: u32, y: u32, color: Color) -> (done: bool)
        ensures
            done == (x < image_width(*old(self)) && y < image_height(*old(self))),
            image_width(*final(self)) == image_width(*old(self)),
            image_height(*final(self)) == image_height(*old(self)),
            done ==> image_pixels(*final(self)) == image_pixels(*old(self)).insert(
                (x as int, y as int),
                color,
            ),
            !done ==> image_pixels(*final(self)) == image_pixels(*old(self)),
    {
        let (width, height) = dimensions(self);
        if x < width && y < height {
            put_pixel(self, x, y, color);
            true
        } else {
            false
        }
    }
}

} // verus!
