//! The output image: an 8-bit RGB buffer of the `image` crate.

use vstd::prelude::*;
use crate::palette::CHANNELS;

verus! {

/// An RGB image with 8 bits per sample.
///
/// It holds an `image::ImageBuffer<image::Rgb<u8>, Vec<u8>>`, of which
/// contracts know the width, the height and the samples.
#[verifier::external_body]
pub struct Raster {
    inner: image::ImageBuffer<image::Rgb<u8>, Vec<u8>>,
}

/// Width of the image, in pixels.
pub uninterp spec fn raster_width(img: Raster) -> nat;

/// Height of the image, in pixels.
pub uninterp spec fn raster_height(img: Raster) -> nat;

/// The samples of the image, row by row, the red, green and blue sample of a
/// pixel side by side.
pub uninterp spec fn raster_samples(img: Raster) -> Seq<u8>;

/// Position of the first sample of pixel `(x, y)` in an image `width` pixels
/// wide.
pub open spec fn sample_index(width: int, x: int, y: int) -> int {
    (y * width + x) * CHANNELS
}

impl Raster {
    /// What holds of every image: it has three samples per pixel.
    pub open spec fn wf(&self) -> bool {
        raster_samples(*self).len() == CHANNELS * raster_width(*self) * raster_height(*self)
    }

    /// Whether `(x, y)` is a pixel of the image.
    pub open spec fn has(&self, x: int, y: int) -> bool {
        0 <= x < raster_width(*self) && 0 <= y < raster_height(*self)
    }

    /// The pixel at column `x` and row `y`.
    pub open spec fn pixel_at(&self, x: int, y: int) -> (u8, u8, u8) {
        let i = sample_index(raster_width(*self) as int, x, y);
        (raster_samples(*self)[i], raster_samples(*self)[i + 1], raster_samples(*self)[i + 2])
    }

    /// A black image, by `ImageBuffer::new`: `width` by `height` pixels, all
    /// samples zero. The call panics when the samples are more than a vector
    /// holds, `isize::MAX` bytes, which is ruled out.
    #[verifier::external_body]
    pub(crate) fn blank(width: u32, height: u32) -> (img: Raster)
        requires
            CHANNELS * width * height <= isize::MAX,
        ensures
            raster_width(img) == width,
            raster_height(img) == height,
            raster_samples(img) == Seq::new(
                (CHANNELS * width * height) as nat,
                |i: int| 0u8,
            ),
    {
        Raster { inner: image::ImageBuffer::new(width, height) }
    }

    /// Sets the pixel at column `x` and row `y`, by `ImageBuffer::put_pixel`:
    /// its three samples, at `(y * width + x) * 3` and the two positions
    /// after, are replaced and nothing else changes. The call panics for a
    /// pixel out of bounds, which is ruled out.
    #[verifier::external_body]
    pub(crate) fn put(&mut self, x: u32, y: u32, rgb: (u8, u8, u8))
        requires
            x < raster_width(*old(self)),
            y < raster_height(*old(self)),
        ensures
            raster_width(*final(self)) == raster_width(*old(self)),
            raster_height(*final(self)) == raster_height(*old(self)),
            raster_samples(*final(self)) == raster_samples(*old(self)).update(
                sample_index(raster_width(*old(self)) as int, x as int, y as int),
                rgb.0,
            ).update(
                sample_index(raster_width(*old(self)) as int, x as int, y as int) + 1,
                rgb.1,
            ).update(
                sample_index(raster_width(*old(self)) as int, x as int, y as int) + 2,
                rgb.2,
            ),
    {
        self.inner.put_pixel(x, y, image::Rgb([rgb.0, rgb.1, rgb.2]))
    }

    /// The pixel at column `x` and row `y`, by `ImageBuffer::get_pixel`: the
    /// three samples from `(y * width + x) * 3` on. The call panics for a
    /// pixel out of bounds, which is ruled out.
    #[verifier::external_body]
    pub(crate) fn get(&self, x: u32, y: u32) -> (rgb: (u8, u8, u8))
        requires
            x < raster_width(*self),
            y < raster_height(*self),
        ensures
            rgb == self.pixel_at(x as int, y as int),
    {
        let p = self.inner.get_pixel(x, y);
        (p.0[0], p.0[1], p.0[2])
    }

    /// Width in pixels, by `ImageBuffer::width`.
    #[verifier::external_body]
    pub(crate) fn stored_width(&self) -> (w: u32)
        ensures
            w == raster_width(*self),
    {
        self.inner.width()
    }

    /// Height in pixels, by `ImageBuffer::height`.
    #[verifier::external_body]
    pub(crate) fn stored_height(&self) -> (h: u32)
        ensures
            h == raster_height(*self),
    {
        self.inner.height()
    }

    /// Width of the image, in pixels.
    pub fn width(&self) -> (w: u32)
        ensures
            w == raster_width(*self),
    {
        self.stored_width()
    }

    /// Height of the image, in pixels.
    pub fn height(&self) -> (h: u32)
        ensures
            h == raster_height(*self),
    {
        self.stored_height()
    }

    /// The samples of the image, row by row, three per pixel.
    pub fn to_bytes(&self) -> (bytes: Vec<u8>)
        ensures
            bytes@.len() == (raster_height(*self) * raster_width(*self)) * CHANNELS,
            forall|i: int| 0 <= i < bytes@.len() ==> bytes@[i] == raster_samples(*self)[i],
            self.wf() ==> bytes@ == raster_samples(*self),
    {
        let width = self.stored_width();
        let height = self.stored_height();
        let mut bytes: Vec<u8> = Vec::new();
        let mut y: u32 = 0;
        while y < height
            invariant
                y <= height,
                width == raster_width(*self),
                height == raster_height(*self),
                bytes@.len() == (y * width) * CHANNELS,
                forall|i: int| 0 <= i < bytes@.len() ==> bytes@[i] == raster_samples(*self)[i],
            decreases height - y,
        {
            let mut x: u32 = 0;
            while x < width
                invariant
                    y < height,
                    x <= width,
                    width == raster_width(*self),
                    height == raster_height(*self),
                    bytes@.len() == (y * width + x) * CHANNELS,
                    forall|i: int| 0 <= i < bytes@.len() ==> bytes@[i] == raster_samples(*self)[i],
                decreases width - x,
            {
                let rgb = self.get(x, y);
                bytes.push(rgb.0);
                bytes.push(rgb.1);
                bytes.push(rgb.2);
                x = x + 1;
            }
            proof {
                assert((y * width + width) * CHANNELS == ((y + 1) * width) * CHANNELS)
                    by (nonlinear_arith);
            }
            y = y + 1;
        }
        proof {
            assert((height * width) * CHANNELS == CHANNELS * width * height) by (nonlinear_arith);
            if self.wf() {
                assert(bytes@ =~= raster_samples(*self));
            }
        }
        bytes
    }

    /// The pixel at column `x` and row `y`, if the image has one there.
    pub fn pixel(&self, x: u32, y: u32) -> (rgb: Option<(u8, u8, u8)>)
        ensures
            self.has(x as int, y as int) ==> rgb == Some(self.pixel_at(x as int, y as int)),
            !self.has(x as int, y as int) ==> rgb is None,
    {
        if x < self.stored_width() && y < self.stored_height() {
            Some(self.get(x, y))
        } else {
            None
        }
    }
}

} // verus!
