//! Raster image conversions: BMP, QOI, PNG (with its own zlib/DEFLATE codec), ICO, lossless WebP,
//! and the integer core of baseline JPEG, all converting through [`raster::RawImage`]; every
//! direction between the first five through [`RasterConverter`].

pub mod bmp;
pub mod converter;
pub mod ico;
pub mod jpeg;
pub mod png;
pub mod qoi;
pub mod raster;
pub mod vp8l;
pub mod vp8l_laws;
pub mod webp;
pub mod zlib;

pub use converter::RasterConverter;
pub use raster::RawImage;
