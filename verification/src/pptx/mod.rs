//! Presentations whose slides show images. They look like the pages they were
//! rendered from, but cannot be edited.

pub mod image_file;
pub mod measured;
pub mod package;
pub mod parts;
pub mod shown;
pub mod typed;

pub use image_file::{ImageInput, PptxError};
pub use package::{write_image_pptx, SlideImage};
pub use parts::SlideImageFormat;
