//! A named tree of nodes with a registry of paths, a job system that cascades
//! from a node to its descendants, and a join that grafts one tree onto another.
//!
//! The caller supplies the content of a node, its attributes and the jobs that
//! act on the attributes. The sample content type lives in `game_tree`.

/// Node names: their order, their normal form and their numbered variants.
pub mod names;
/// Sequences of named entries, kept in the order of their names.
pub mod entries;
/// Paths from the root of a tree to its nodes.
pub mod path;
/// The clock that measures the time between two updates.
pub mod clock;
/// The index from the names of nodes to their paths.
pub mod registry;
/// Nodes, and what the caller supplies for them.
pub mod node;
/// How a subtree changes when one of its nodes is replaced.
pub mod shape;
/// The tree and its registry.
pub mod tree;
/// A sample content type for the nodes of a scene.
pub mod game_tree;
/// When the registry of a tree and its nodes agree, and what keeps them so.
pub mod consistency;
