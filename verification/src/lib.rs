//! An in-memory content tree for a directory of ordered markdown files.
//!
//! The crate models a site as a tree of sections and pages. A [`locator::Locator`]
//! names a logical site location; the reader builds the tree from a pure
//! directory snapshot; the [`store::Store`] owns the tree together with a
//! locator-keyed lookup index; the watcher module applies incremental
//! mutations for filesystem events.

pub mod errors;
pub mod link_checker;
pub mod locator;
pub mod markdown;
pub mod node;
pub mod reader;
pub mod render;
pub mod search;
pub mod store;
pub mod strutil;
pub mod watcher;
