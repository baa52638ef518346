//! Deciding whether two open hypergraphs — labeled hypergraphs with
//! designated ordered input/output interface nodes — are structurally
//! identical up to relabeling of internal node and edge identities, and
//! producing the relabeling as a checkable witness when they are.
//!
//! The pipeline behind [`traversal::find_isomorphism`] runs a cheap
//! necessary-condition filter, builds per-node adjacency indices, walks
//! both hypergraphs simultaneously from their interfaces, and validates
//! that the discovered mappings are bijections.  [`Isomorphism::validate`]
//! independently re-checks any candidate witness, and
//! [`Isomorphism::apply`] transports a hypergraph's labeling along one.

pub mod constraint;
pub mod hypergraph;
pub mod isomorphism;
pub mod nogood;
pub mod permutation;
pub mod traversal;

pub use constraint::Constraint;
pub use hypergraph::Hyperedge;
pub use hypergraph::Hypergraph;
pub use hypergraph::OpenHypergraph;
pub use isomorphism::Isomorphism;
pub use permutation::Permutation;
