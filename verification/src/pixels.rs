//! Samples in memory, channel after channel and pixel after pixel.
use vstd::prelude::*;

verus! {

/// Types that know how many channels a pixel has.
pub trait Depth {
    /// The number of channels.
    spec fn channels() -> u8;

    /// The number of channels.
    fn depth() -> (r: u8)
        ensures
            r == Self::channels(),
    ;
}

/// Samples of `DEPTH` channels.
#[derive(Debug)]
pub struct Pixels<const DEPTH: usize, T> {
    data: Vec<T>,
}

impl<const DEPTH: usize, T> View for Pixels<DEPTH, T> {
    type V = Seq<T>;

    closed spec fn view(&self) -> Seq<T> {
        self.data@
    }
}

impl<const DEPTH: usize, T> Depth for Pixels<DEPTH, T> {
    open spec fn channels() -> u8 {
        DEPTH as u8
    }

    fn depth() -> u8 {
        DEPTH as u8
    }
}

impl<const DEPTH: usize, T: Copy> Pixels<DEPTH, T> {
    /// Takes samples as they are.
    pub fn new(data: Vec<T>) -> (r: Self)
        ensures
            r@ == data@,
    {
        Pixels { data }
    }

    /// The same samples, borrowed.
    pub fn borrow(&self) -> (r: PixelsRef<'_, DEPTH, T>)
        ensures
            r@ == self@,
    {
        PixelsRef { data: self.data.as_slice() }
    }

    /// The number of channels.
    pub fn depth() -> (r: usize)
        ensures
            r == DEPTH,
    {
        DEPTH
    }

    /// The sample at an index.
    pub fn pixel(&self, idx: usize) -> (r: T)
        requires
            idx < self@.len(),
        ensures
            r == self@[idx as int],
    {
        self.data[idx]
    }

    /// Replaces the sample at an index.
    pub fn update(&mut self, idx: usize, value: T)
        requires
            idx < old(self)@.len(),
        ensures
            final(self)@ == old(self)@.update(idx as int, value),
    {
        self.data.set(idx, value);
    }

    /// All samples.
    pub fn as_slice(&self) -> (r: &[T])
        ensures
            r@ == self@,
    {
        self.data.as_slice()
    }

    /// All samples, to be changed in place.
    pub fn as_mut_slice(&mut self) -> (r: &mut [T])
        ensures
            r@ == old(self)@,
            final(self)@ == final(r)@,
    {
        self.data.as_mut_slice()
    }

    /// Hands the samples back.
    pub fn into(self) -> (r: Vec<T>)
        ensures
            r@ == self@,
    {
        self.data
    }
}

/// Borrowed samples of `DEPTH` channels.
#[derive(Debug)]
pub struct PixelsRef<'a, const DEPTH: usize, T> {
    data: &'a [T],
}

impl<'a, const DEPTH: usize, T> View for PixelsRef<'a, DEPTH, T> {
    type V = Seq<T>;

    closed spec fn view(&self) -> Seq<T> {
        self.data@
    }
}

impl<'a, const DEPTH: usize, T> Depth for PixelsRef<'a, DEPTH, T> {
    open spec fn channels() -> u8 {
        DEPTH as u8
    }

    fn depth() -> u8 {
        DEPTH as u8
    }
}

impl<'a, const DEPTH: usize, T: Copy> PixelsRef<'a, DEPTH, T> {
    /// Takes samples as they are.
    pub fn new(data: &'a [T]) -> (r: Self)
        ensures
            r@ == data@,
    {
        PixelsRef { data }
    }

    /// The sample at an index.
    pub fn pixel(&self, idx: usize) -> (r: T)
        requires
            idx < self@.len(),
        ensures
            r == self@[idx as int],
    {
        self.data[idx]
    }

    /// All samples.
    pub fn as_slice(&self) -> (r: &[T])
        ensures
            r@ == self@,
    {
        self.data
    }
}

pub type Grey = Pixels<1, u8>;

pub type Rgb8 = Pixels<3, u8>;

pub type Rgb16 = Pixels<3, u16>;

pub type Rgba8 = Pixels<4, u8>;

pub type Rgba16 = Pixels<4, u16>;

pub type Yuv8 = Pixels<3, u8>;

pub type Yuv16 = Pixels<3, u16>;

pub type Ayuv8 = Pixels<4, u8>;

pub type Ayuv16 = Pixels<4, u16>;

pub type GreyRef<'a> = PixelsRef<'a, 1, u8>;

pub type Rgb8Ref<'a> = PixelsRef<'a, 3, u8>;

pub type Rgb16Ref<'a> = PixelsRef<'a, 3, u16>;

pub type Rgba8Ref<'a> = PixelsRef<'a, 4, u8>;

pub type Rgba16Ref<'a> = PixelsRef<'a, 4, u16>;

pub type Yuv8Ref<'a> = PixelsRef<'a, 3, u8>;

pub type Yuv16Ref<'a> = PixelsRef<'a, 3, u16>;

pub type Ayuv8Ref<'a> = PixelsRef<'a, 4, u8>;

pub type Ayuv16Ref<'a> = PixelsRef<'a, 4, u16>;

} // verus!
