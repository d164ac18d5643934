//! Path-addressed rewriting of tree-shaped documents.
//!
//! A document is an immutable tree of scalars, sequences and keyed mappings.
//! A path expression selects zero or more nodes of it; a rewriter decides, for
//! each selected node, whether it stays or is replaced, and reports one value
//! per node. The engine returns a new document that differs from the old one
//! only where a node was replaced.

pub mod node;
pub mod path;
pub mod engine;
pub mod append;
