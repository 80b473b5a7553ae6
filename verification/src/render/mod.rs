//! Rendering the text of pages as images.

pub mod encode;
pub mod error;
pub mod image_format;
pub mod glyph;
pub mod named;
pub mod raster;
pub mod run;
pub mod shown;

pub use error::RenderError;
pub use image_format::ImageFormat;
pub use run::{render_pdf, render_pdf_telling, RenderOptions, RenderResult};
