//! Images: samples, their size, and the length of a line.
use std::marker::PhantomData;

use vstd::prelude::*;

use crate::color::Subsampling;
use crate::dimensions::PixelDimensions;
use crate::pixels::{
    Ayuv16, Ayuv16Ref, Ayuv8, Ayuv8Ref, Depth, Grey, GreyRef, Pixels, PixelsRef, Rgb16, Rgb16Ref,
    Rgb8, Rgb8Ref, Rgba16, Rgba16Ref, Rgba8, Rgba8Ref, Yuv16, Yuv16Ref, Yuv8, Yuv8Ref,
};

verus! {

/// An image.
#[derive(Debug)]
pub struct Image<T> {
    pixels: T,
    dimensions: PixelDimensions,
    subsampling: Subsampling,
    line_stride: usize,
}

pub type ImageGrey = Image<Grey>;

pub type ImageRgb8 = Image<Rgb8>;

pub type ImageRgb16 = Image<Rgb16>;

pub type ImageRgba8 = Image<Rgba8>;

pub type ImageRgba16 = Image<Rgba16>;

pub type ImageYuv8 = Image<Yuv8>;

pub type ImageYuv16 = Image<Yuv16>;

pub type ImageAyuv8 = Image<Ayuv8>;

pub type ImageAyuv16 = Image<Ayuv16>;

impl<T> Image<T> {
    /// The samples.
    pub closed spec fn spec_pixels(&self) -> T {
        self.pixels
    }

    /// The size in pixels.
    pub closed spec fn spec_dimensions(&self) -> PixelDimensions {
        self.dimensions
    }

    /// The number of samples of a line.
    pub closed spec fn spec_line_stride(&self) -> usize {
        self.line_stride
    }

    /// How the chroma of the image is to be subsampled.
    pub closed spec fn spec_subsampling(&self) -> Subsampling {
        self.subsampling
    }

    /// The index of a sample.
    pub open spec fn place(&self, row: int, col: int) -> int {
        row * self.spec_line_stride() + col
    }

    /// The size in pixels.
    pub fn dimensions(&self) -> (r: PixelDimensions)
        ensures
            r == self.spec_dimensions(),
    {
        self.dimensions
    }

    /// The number of samples of a line.
    pub fn line_stride(&self) -> (r: usize)
        ensures
            r == self.spec_line_stride(),
    {
        self.line_stride
    }

    /// The samples.
    pub fn pixels(&self) -> (r: &T)
        ensures
            *r == self.spec_pixels(),
    {
        &self.pixels
    }

    /// The samples, to be changed in place.
    pub fn pixels_mut(&mut self) -> (r: &mut T)
        ensures
            *r == old(self).spec_pixels(),
            final(self).spec_pixels() == *final(r),
            final(self).spec_dimensions() == old(self).spec_dimensions(),
            final(self).spec_line_stride() == old(self).spec_line_stride(),
            final(self).spec_subsampling() == old(self).spec_subsampling(),
    {
        &mut self.pixels
    }

    /// How the chroma of the image is to be subsampled.
    pub fn subsampling(&self) -> (r: Subsampling)
        ensures
            r == self.spec_subsampling(),
    {
        self.subsampling
    }

    fn offset(&self, place: (usize, usize)) -> (r: usize)
        requires
            self.place(place.0 as int, place.1 as int) <= usize::MAX,
        ensures
            r == self.place(place.0 as int, place.1 as int),
    {
        proof {
            assert(0 <= place.0 * self.line_stride) by (nonlinear_arith)
                requires
                    0 <= place.0,
                    0 <= self.line_stride,
            ;
        }
        (place.0 * self.line_stride) + place.1
    }
}

impl<T: Depth> Image<T> {
    /// An image whose lines follow each other without a gap.
    pub fn new(dimensions: PixelDimensions, pixels: T, subsampling: Subsampling) -> (r: Self)
        requires
            T::channels() * dimensions.width <= usize::MAX,
        ensures
            r.spec_pixels() == pixels,
            r.spec_dimensions() == dimensions,
            r.spec_subsampling() == subsampling,
            r.spec_line_stride() == T::channels() * dimensions.width,
    {
        let line_stride: usize = T::depth() as usize * dimensions.width;
        Image { pixels, dimensions, subsampling, line_stride }
    }

    /// The number of channels.
    pub fn depth(&self) -> (r: u8)
        ensures
            r == T::channels(),
    {
        T::depth()
    }
}

impl<const DEPTH: usize, T: Copy> Image<Pixels<DEPTH, T>> {
    /// The same image, borrowed.
    pub fn as_ref(&self) -> (r: ImageRef<'_, PixelsRef<'_, DEPTH, T>>)
        ensures
            r.spec_pixels()@ == self.spec_pixels()@,
            r.spec_dimensions() == self.spec_dimensions(),
            r.spec_line_stride() == self.spec_line_stride(),
    {
        ImageRef {
            pixels: self.pixels.borrow(),
            dimensions: self.dimensions,
            line_stride: self.line_stride,
            _phantom: PhantomData,
        }
    }

    /// The sample at a row and a column of samples.
    pub fn pixel(&self, place: (usize, usize)) -> (r: T)
        requires
            self.place(place.0 as int, place.1 as int) < self.spec_pixels()@.len(),
        ensures
            r == self.spec_pixels()@[self.place(place.0 as int, place.1 as int)],
    {
        let len: usize = self.pixels.as_slice().len();
        assert(self.place(place.0 as int, place.1 as int) < len);
        let offset: usize = self.offset(place);
        self.pixels.pixel(offset)
    }

    /// Replaces the sample at a row and a column of samples.
    pub fn update_pixel(&mut self, place: (usize, usize), value: T)
        requires
            old(self).place(place.0 as int, place.1 as int) < old(self).spec_pixels()@.len(),
        ensures
            final(self).spec_pixels()@ == old(self).spec_pixels()@.update(
                old(self).place(place.0 as int, place.1 as int),
                value,
            ),
            final(self).spec_dimensions() == old(self).spec_dimensions(),
            final(self).spec_line_stride() == old(self).spec_line_stride(),
            final(self).spec_subsampling() == old(self).spec_subsampling(),
    {
        let len: usize = self.pixels.as_slice().len();
        assert(self.place(place.0 as int, place.1 as int) < len);
        let offset: usize = self.offset(place);
        self.pixels.update(offset, value);
    }
}

pub type ImageRefGrey<'a> = ImageRef<'a, GreyRef<'a>>;

pub type ImageRefRgb8<'a> = ImageRef<'a, Rgb8Ref<'a>>;

pub type ImageRefRgb16<'a> = ImageRef<'a, Rgb16Ref<'a>>;

pub type ImageRefRgba8<'a> = ImageRef<'a, Rgba8Ref<'a>>;

pub type ImageRefRgba16<'a> = ImageRef<'a, Rgba16Ref<'a>>;

pub type ImageRefYuv8<'a> = ImageRef<'a, Yuv8Ref<'a>>;

pub type ImageRefYuv16<'a> = ImageRef<'a, Yuv16Ref<'a>>;

pub type ImageRefAyuv8<'a> = ImageRef<'a, Ayuv8Ref<'a>>;

pub type ImageRefAyuv16<'a> = ImageRef<'a, Ayuv16Ref<'a>>;

/// A borrowed image.
#[derive(Debug)]
pub struct ImageRef<'a, T> {
    pixels: T,
    dimensions: PixelDimensions,
    line_stride: usize,
    _phantom: PhantomData<&'a ()>,
}

impl<'a, T> ImageRef<'a, T> {
    /// The samples.
    pub closed spec fn spec_pixels(&self) -> T {
        self.pixels
    }

    /// The size in pixels.
    pub closed spec fn spec_dimensions(&self) -> PixelDimensions {
        self.dimensions
    }

    /// The number of samples of a line.
    pub closed spec fn spec_line_stride(&self) -> usize {
        self.line_stride
    }
}

impl<'a, T: Depth> ImageRef<'a, T> {
    /// The size in pixels.
    pub fn dimensions(&self) -> (r: PixelDimensions)
        ensures
            r == self.spec_dimensions(),
    {
        self.dimensions
    }

    /// The number of channels.
    pub fn depth(&self) -> (r: u8)
        ensures
            r == T::channels(),
    {
        T::depth()
    }

    /// The number of samples of a line.
    pub fn line_stride(&self) -> (r: usize)
        ensures
            r == self.spec_line_stride(),
    {
        self.line_stride
    }

    /// The samples.
    pub fn pixels(&self) -> (r: &T)
        ensures
            *r == self.spec_pixels(),
    {
        &self.pixels
    }
}

/// Places of an image go on one by one in a line, and line by line a stride apart.
pub proof fn law_places_go_on_by_lines<T>(image: Image<T>, row: int, col: int)
    ensures
        image.place(0, 0) == 0,
        image.place(row, col + 1) == image.place(row, col) + 1,
        image.place(row + 1, col) == image.place(row, col) + image.spec_line_stride(),
        0 <= row && 0 <= col < image.spec_line_stride() ==> image.place(row, col)
            / (image.spec_line_stride() as int) == row && image.place(row, col)
            % (image.spec_line_stride() as int) == col,
{
    let stride = image.spec_line_stride() as int;
    assert((row + 1) * stride == row * stride + stride && 0 * stride == 0) by (nonlinear_arith);
    if 0 <= row && 0 <= col < stride {
        crate::numeric::lemma_place(row, col, stride);
    }
}

} // verus!
