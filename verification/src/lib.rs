//! An in-memory hypergraph store: nodes, weighted hyperedges of arbitrary
//! arity, incidence queries, traversal and connected-component analysis.
//!
//! Nodes are `i64` identifiers.  A hyperedge owns an ordered sequence of
//! nodes and a weight (carried as the bit pattern of an `f64`); its identity
//! is a 64-bit fingerprint of the node sequence.  The store keeps two
//! mutually-referencing indexes: node -> set of edge ids, and
//! edge id -> edge record.

pub mod cc;
pub mod fingerprint;
pub mod hyperedge;
pub mod laws;
pub mod nodeset;
pub mod store;
pub mod visits;
pub(crate) mod util;

pub use fingerprint::edge_id_of;
pub use hyperedge::Hyperedge;
pub use nodeset::NodeSet;
pub use store::Hypergraph;
