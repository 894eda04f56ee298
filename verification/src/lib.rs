//! Renders a textual tree view of an entity hierarchy: given a root node and
//! a read-only snapshot of the graph store, prints the root and every
//! descendant with box-drawing connectors, each line annotated with the
//! node's identity and the short names of its attached components, optionally
//! colorized per node by a deterministic color derived from the identity.

pub mod color;
pub mod laws;
pub mod render;
pub mod store;
pub mod text;

pub use render::debug_entity_hierarchy;
pub use render::DebugEntityHierarchy;
pub use render::Options;
pub use render::WorldExt;
