//! neomark: a markup language in which everything is a block.
//!
//! Blocks come in two kinds: natural blocks, produced by ordinary writing and
//! separated by blank lines, and call blocks, `::name params...` headers whose
//! bodies are delimited by indentation. Bodies are dedented and parsed again, so
//! call blocks nest.
//!
//! * [`parse`] plants the blocks of a document in a tree, unexpanded;
//! * a [`Dispatcher`] hands them to the expanders of a [`Registry`] until none is
//!   left;
//! * [`html::render`] and [`html::render_page`] write the tree out as HTML.

pub mod text;
pub mod ast;
pub mod parse;
pub mod inline;
pub mod html;
pub mod handlers;
pub mod stdlib;
pub mod dispatch;
pub mod cli;

pub use text::{chars_to_string, str_chars};
pub use ast::{Ast, Attr, Block, CallBlock, ErrorKind, ErrorNode, KindTag, NaturalBlock, NodeKind, Params, Span};
pub use parse::{CallHeader, parse, parse_blocks, parse_call_header};
pub use dispatch::{Context, Dispatcher, Fallback, Handler, Invocation, Key, Matched, Pattern, PatternError, Registry};
pub use stdlib::{Builtin, FromBuiltin, register_defaults};
pub use indextree::NodeId;
