//! The parser: line scanning, header recognition, splitting and recursion.

pub mod anchor;
pub mod header;
pub mod line;
pub mod newline;
pub mod seed;
pub mod split;
pub mod texts;

pub use header::{CallHeader, parse_call_header};
pub use seed::parse;
pub use split::parse_blocks;
