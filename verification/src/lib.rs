//! Streaming estimation of distinct k-mer counts in genomic sequence data.
//!
//! The library builds a HyperLogLog-style probabilistic sketch from the
//! k-mers of byte sequences, merges sketches through a commutative,
//! associative, idempotent union, and derives approximate cardinalities
//! and a Jaccard similarity estimate from them.

pub mod estimate;
pub mod hash;
pub mod metrics;
pub mod numeric;
pub mod kmer;
pub mod pipeline;
pub mod pool;
pub mod sketch;
