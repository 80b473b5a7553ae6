//! Reading the text layer of PDF files.

pub mod asked;
pub mod big;
pub mod cmap;
pub mod content;
pub mod decimal;
pub mod document;
pub mod error;
pub mod extract;
pub mod filter;
pub mod font_text;
pub mod indexed;
pub mod lexer;
pub mod mapped;
pub mod number;
pub mod object;
pub mod ordered;
pub mod pages;
pub mod selection;
pub mod selection_parts;
pub mod shown;
pub mod spelling;
pub mod value;
pub mod written;
pub mod xref;
pub mod xref_stream;

pub use error::PdfError;
