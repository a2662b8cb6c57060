//! Seam carving: content-aware resizing of images by removing or inserting
//! seams, connected paths of pixels of low energy.
//!
//! - [`array`]: the dense two-dimensional grid, and the removal of a seam from it.
//! - [`seam`]: finding the cheapest vertical seam of an energy grid, and
//!   widening or heightening an image along a batch of seams.
//! - [`cost`]: what the cheapest seam is, and the proof that the seam found is one.
//! - [`widen`]: what a line of pixels looks like after an insertion.
//! - [`pixels`]: images, kept in buffers of the `image` crate.

pub mod array;
pub mod cost;
pub mod pixels;
pub mod seam;
pub mod widen;
