//! An ordered map kept as a skip list: several levels of forward links over one
//! ascending chain of entries, each entry's height drawn at random.
//!
//! The nodes live in an arena and name each other by handle. Every operation is
//! verified against a mathematical model: the ascending sequence of entries, and
//! the map that this sequence denotes.

pub mod laws;
pub mod level;
pub mod links;
pub mod list;
pub mod model;
pub mod order;
pub mod text;

pub use list::edit::AllocError;
pub use list::iter::{IntoIter, Iter, IterMut};
pub use list::SkipList;
