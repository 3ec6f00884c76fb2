//! A hierarchical, polymorphic tree of items.
//!
//! A `Node` owns one `Item` (anything with a name and a namespace) and an
//! ordered collection of child nodes. Back-references — a node's handle to
//! itself and to its parent — are represented as paths of child indices from
//! the root, so they never extend a subtree's lifetime; a path that no longer
//! resolves is stale and every operation treats it as absent. The tree
//! supports upward and downward traversal with stop predicates, ancestor and
//! descendant search, shallow filtering, and a structural serialization that
//! omits the back-references and round-trips losslessly.

pub mod cond;
pub mod item;
pub mod node;
pub mod search;
pub mod traverse;
pub mod trees;
pub mod yaml;
