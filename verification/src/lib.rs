//! Reduce a pre-built workspace "recipe" — the manifests and lock file of a
//! multi-crate workspace — to exactly the members needed to build one target
//! member, directly or transitively.
//!
//! The recipe is a snapshot: every member's manifest text and an optional
//! combined lock file. Reducing it keeps a downstream build's content hash
//! stable under changes to unrelated workspace members. The core is the
//! dependency-graph reduction: a census of member names and workspace-level
//! dependency aliases, two dependency graphs extracted from the manifest
//! texts, a transitive-closure solver over each, and three pruning passes
//! that keep the manifest list, the root `workspace.members` declaration and
//! the lock file mutually coherent.
pub mod names;
pub mod toml_doc;
pub mod graph;
pub mod closure;
pub mod recipe;

pub use closure::compute_transitive_deps;
pub use names::contains_name;
pub use recipe::Manifest;
pub use recipe::Recipe;
pub use recipe::ReduceError;
pub use recipe::RootSelector;
pub use recipe::Skeleton;
pub use recipe::reduce_recipe;
pub use recipe::reduce_recipe_select;
