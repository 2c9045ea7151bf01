//! A terminal ebook reader's core: text extraction from (X)HTML chapters,
//! word wrapping, chapter navigation, scrolling and saved reading positions.

pub mod text;
pub mod wrap;
pub mod html;
pub mod reader;
pub mod state;
pub mod app;
