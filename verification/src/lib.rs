//! Long-range percolation on a periodic square lattice.
//!
//! The crate holds the exact, integer part of one realization: the distance
//! metrics on lattice offsets, the cluster tracker, the sweep over offset
//! classes that bonds sites, the enumeration of the final cluster sizes, and
//! the random stream that each realization of a batch draws from.
//! Bond probabilities and the random draws behind each skip are real-valued;
//! they reach the sweep through the [`SkipSampler`] trait. Every answer of a
//! sampler is put on record, and what a realization does is stated over that
//! record, for every sampler.

pub mod boundaries;
pub mod clusters;
pub mod lattice;
pub mod norms;
pub mod partition;
pub mod percolation;
pub mod record;
pub mod streams;
pub mod sweep;

pub use clusters::ClusterTracker;
pub use norms::{Distance, LInf, Norm, NormType, L1, L2};
pub use percolation::{
    geometric_skip, lr_percolation_2d, realize, Answer, Chance, Recording, SkipSampler,
};
pub use streams::derive_stream;
pub use sweep::Sweep;
