//! A photo-mosaic engine: it indexes a set of small tile images by their
//! representative color, matches every sample position of a target image to
//! the closest tile, and composites the chosen tiles into an output raster,
//! with the work split into horizontal bands that reassemble deterministically.

pub mod codec;
pub mod color;
pub mod imaging;
pub mod index;
pub mod mosaic;
pub mod raster;
