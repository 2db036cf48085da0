//! A tree whose nodes are keys supplied by the caller.
//!
//! [`MappedTree`] keeps, for every key in it, the key's parent and the ordered
//! list of its children, in a hash map keyed by the keys themselves. Keys are
//! attached below a present key, removed together with everything below them,
//! and the root can be replaced by another key.
//!
//! The modules:
//! - `model`: the link table that a tree stands for, the predicates that make
//!   a table a tree, and the table that each operation produces;
//! - `tree`: the container and its operations, each with its contract over
//!   the model;
//! - `laws`: what holds of every tree and of every operation;
//! - `chains`, `preserve`: the lemmas behind the contracts, on chains of
//!   parent links and on the tables that the operations produce;
//! - `error`: why an insertion is refused.

pub mod chains;
pub mod error;
pub mod laws;
pub mod model;
pub mod preserve;
mod rebase;
mod sweep;
pub mod tree;

pub use error::InsertError;
pub use tree::MappedTree;
