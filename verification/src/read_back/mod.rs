//! What is read of a file that was written from texts.

pub mod size;
pub mod tokens;
pub mod page_text;
pub mod font_map;
pub mod values;
pub mod bodies;
pub mod layout;
pub mod lookups;
pub mod objects;
pub mod index;
pub mod file;
