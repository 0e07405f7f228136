//! An addressable min-pairing heap with stable handles, an undirected weighted
//! graph, and the two classic algorithms built on them: Dijkstra's single-source
//! shortest paths and Prim's minimum spanning tree.
//!
//! Every executable function carries a contract over a mathematical model. The
//! contracts are proved, but for those of the few functions in `weight` that
//! hand a call on to `num_traits`.
pub mod dijkstra;
pub mod graph;
pub mod laws;
pub mod model;
pub mod mst;
pub mod ph;
pub mod prio;
pub mod spanning;
pub mod sssp;
pub mod weight;

pub use ph::{HeapElmt, PairingHeap};
pub use prio::Prio;
pub use weight::Weight;
