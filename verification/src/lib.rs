//! A locality-sensitive hashing index for approximate nearest-neighbor
//! search over high-dimensional points.
//!
//! The index composes three layers: hash families that map nearby points
//! to equal codewords ([`hash`]), posting storage for `(codeword, id)`
//! pairs over `L` tables with an in-memory and a SQL backend
//! ([`mem_table`], [`sql_table`]), and the engine with its two
//! multi-probe query strategies ([`lsh`], [`multi_probe`]).
//!
//! Scalars are exact fixed-point rationals ([`fx::Fx`]), so the hashing
//! arithmetic, the storage protocol and the probing orders all carry
//! complete contracts; the laws the index obeys are proved in [`laws`].

pub mod codec;
pub mod dist;
pub mod error;
pub mod fx;
pub mod hash;
pub mod laws;
pub mod lsh;
pub mod mem_table;
pub mod multi_probe;
pub mod rng;
pub mod sql_table;
pub mod utils;
