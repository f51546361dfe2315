//! Median-cut color quantization.
//!
//! Given the raw pixels of an image, the library builds a histogram of the
//! distinct 24-bit colors, recursively partitions the color space into boxes
//! of similar colors, and averages every final box into one representative
//! color, yielding a palette of at most `K` colors ordered by how many pixels
//! carry each of them.

pub mod bucket;
pub mod color;
pub mod engine;
pub mod histogram;
pub mod sorting;
pub mod sums;
