//! A scene of raster images placed on a 2D canvas: an ordered store of image
//! records, nearest-neighbour resampling and rotation of their pixels,
//! hit-testing, and the per-frame draw list.
pub mod raster;
pub mod scene;
