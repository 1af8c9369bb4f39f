//! Cutting a raster image into a grid of tiles.
//!
//! An image is cut either into a fixed three-by-three grid of equal tiles, or
//! into tiles of a requested size whose last column and last row are clipped
//! at the image's edge. Tiles come out row by row, left to right.

pub mod coverage;
pub mod decoded;
pub mod geometry;
pub mod grid;
pub mod split;

pub use decoded::{split_image, split_image_with_size};
pub use geometry::Rect;
pub use grid::{Grid, PixelGrid};
pub use split::{split_by_size, split_uniform, SplitError};
