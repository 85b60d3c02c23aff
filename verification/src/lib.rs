//! A query engine over kind-tagged trees: select every element of a kind in a
//! subtree, or only among its immediate children, and move from one selection
//! to another along the structure of the tree.
//!
//! - `path`: positions in a tree and their order, the document order.
//! - `axis`: the ways from one position to another: up, and among siblings.
//! - `tree`: trees, matches, and the walk that finds the elements of a kind.
//! - `builder`: putting a tree together from the steps of a walk.
//! - `record`: equality and order of matches, by their paths.
//! - `order`: sequences of matches in document order.
//! - `walk`: what holds of the matches that a walk yields.
//! - `result`: selections and their operators.
//! - `query`: starting a query at a tree.
//! - `laws`: what holds of selections and of their operators.

pub mod path;
pub mod axis;
pub mod tree;
pub mod builder;
pub mod record;
pub mod order;
pub mod walk;
pub mod result;
pub mod query;
pub mod laws;

pub use crate::axis::Axis;
pub use crate::builder::TreeBuilder;
pub use crate::query::{children, find, query, Queryable};
pub use crate::result::QueryResult;
pub use crate::tree::{Kind, Node, Tree};
