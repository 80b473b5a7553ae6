//! Turning raster images into PDF pages.


pub mod bmp;
pub mod codec;
pub mod document;
pub mod error;
pub mod jpeg;
pub mod kept;
pub mod measured;
pub mod picture;
pub mod raster;
pub mod shown;
pub mod tiff_codec;
pub mod tiff_header;

pub use error::ImagePdfError;
