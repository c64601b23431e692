//! HTML rendering: writing the expanded tree out as HTML.
//!
//! [`render`] writes the DOM fragment only; [`render_page`] writes a self-contained
//! page with the default CSS inlined. This layer only reads the tree.

pub mod document;
pub mod escape;
pub mod render;

pub use document::{DEFAULT_CSS, render_page};
pub use render::render;
