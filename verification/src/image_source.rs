//! Decoded images as the source of outlines.

use std::sync::Arc;
use vstd::prelude::*;

verus! {

/// An image of the `image` crate that several owners share.
#[verifier::external_body]
#[derive(Debug)]
pub struct SharedImage {
    pub image: Arc<image::RgbaImage>,
}

/// The width of an image in pixels.
pub uninterp spec fn image_width(i: SharedImage) -> u32;

/// The height of an image in pixels.
pub uninterp spec fn image_height(i: SharedImage) -> u32;

/// The bytes that hold the pixels of an image, four for every pixel, row by row.
pub uninterp spec fn image_bytes(i: SharedImage) -> Seq<u8>;

impl SharedImage {
    /// `ImageBuffer::width`: the width that the image was made with.
    #[verifier::external_body]
    pub(crate) fn width(&self) -> (r: u32)
        ensures
            r == image_width(*self),
    {
        self.image.width()
    }

    /// `ImageBuffer::height`: the height that the image was made with.
    #[verifier::external_body]
    pub(crate) fn height(&self) -> (r: u32)
        ensures
            r == image_height(*self),
    {
        self.image.height()
    }

    /// `ImageBuffer::as_raw`: the container of the image. Every way to make an
    /// image takes care that the container holds the four bytes of each of its
    /// pixels; it may hold more.
    #[verifier::external_body]
    pub(crate) fn as_raw(&self) -> (r: &Vec<u8>)
        ensures
            r@ == image_bytes(*self),
            image_width(*self) * image_height(*self) * 4 <= r@.len(),
    {
        self.image.as_raw()
    }
}

impl Clone for SharedImage {
    /// `Arc::clone`: another owner of the same image.
    #[verifier::external_body]
    fn clone(&self) -> (r: Self)
        ensures
            r == *self,
    {
        SharedImage { image: Arc::clone(&self.image) }
    }
}

} // verus!
