//! A path router over a compressed radix tree.
//!
//! A pattern is a byte string of literal bytes and wildcard tokens: `:name`
//! stands for one segment of a path, `*name` at the end of a pattern for all
//! that is left of it. [`Node::insert`] puts a pattern with its value into
//! the tree, [`Node::at`] finds the value for a path and binds the wildcards.
//!
//! The contracts speak of a tree in two ways. [`Node::routes`] is what the
//! tree holds: a map from patterns to values. [`Node::wf`] says that the
//! tree is well formed: every priority is the number of values at and below
//! its node, `indices` names the static children, which stand by falling
//! priority, and a wildcard child stands last. An insertion that succeeds
//! adds one pattern to the map and keeps the tree well formed; one that
//! fails leaves the tree as it was. What `at` answers is
//! [`resolve::answer`] of the map, so it does not depend on the order in
//! which the patterns came.

pub mod audit;
pub mod error;
pub mod insert;
pub mod laws;
pub mod lookup;
pub mod order;
pub mod params;
pub mod pattern;
pub mod plant;
pub mod refuse;
pub mod resolve;
pub mod roundtrip;
pub mod routes;
pub mod tree;

pub use error::{InsertError, MatchError};
pub use params::Params;
pub use pattern::find_wildcard;
pub use tree::{Node, NodeType};
