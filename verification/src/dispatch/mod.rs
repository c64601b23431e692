//! Dispatch and expansion of blocks.
//!
//! This is a rewriting system: the tree may hold unexpanded blocks and expanded
//! nodes at the same time, and the [`Dispatcher`] hands the former to the
//! expanders registered in a [`Registry`] until none is left. Expansion is top
//! down: an expander that moves a block's children into its result has them
//! expanded in turn; one that keeps only the raw body (like `::code`) has them
//! never visited. Errors are data: a block nobody claims becomes an error node.

pub mod context;
pub mod dispatcher;
pub mod handler;
pub mod key;
pub mod matched;
pub mod place;
pub mod registry;
pub mod settle;
pub mod unclaimed;

pub use context::Context;
pub use dispatcher::Dispatcher;
pub use handler::{Fallback, Handler};
pub use key::{Key, Pattern, PatternError};
pub use matched::{Invocation, Matched};
pub use registry::Registry;
