//! Document conversion engines: reading text out of PDF files, writing PDF,
//! DOCX and image-backed documents, and the rules that decide which
//! conversions may run.

pub mod archive;
pub mod bridge;
pub mod bytes;
pub mod checked;
pub mod docx;
pub mod docx_counted;
pub mod docx_layout;
pub mod docx_marks;
pub mod docx_shown;
pub mod text;
pub mod utf8_check;
pub mod xml;
pub mod xml_marks;
pub mod zip_store;
pub mod image;
pub mod jobs;
pub mod look;
pub mod markdown;
pub mod markdown_marks;
pub mod pdf;
pub mod paged;
pub mod paginate;
pub mod pdf_out;
pub mod pdf_writer;
pub mod pptx;
pub mod read_back;
pub mod render;
pub mod rounding;
pub mod self_check;
pub mod stopping;
pub mod svg;
pub mod table;
pub mod words;
