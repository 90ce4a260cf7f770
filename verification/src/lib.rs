//! The combinatorial core of a family of random graph generators (random
//! regular, G(n, p), G(n, m), stochastic block model, random geometric,
//! preferential attachment, random bipartite and hyperbolic random graphs),
//! with every function proved against its contract, except the wrappers in
//! `rng`, `collections` and `targets`, whose contracts about the outside
//! crates (`rand`, `rand_pcg`, `rand_distr`, `indexmap`, `hashbrown`) are
//! taken on trust.
//!
//! Graphs are described here by plain values: nodes are the indices
//! `0..num_nodes`, edges are pairs of indices. The random choices are drawn
//! from a `rand_pcg::Pcg64` generator.

pub mod error;
pub mod rng;
pub mod collections;
pub mod degrees;
pub mod regular;
pub mod pairs;
pub mod skipwalk;
pub mod targets;
pub mod checks;
pub mod blocks;
pub mod gnm;
pub mod attachment;
pub mod complete;

pub use error::InvalidInputError;
