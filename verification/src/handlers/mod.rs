//! The machinery for writing expanders.

pub mod headings;
pub mod natural;
pub mod wrap;

pub use headings::Headings;
pub use natural::{NaturalExpander, ParagraphHandler};
pub use wrap::Wrap;
