//! Approximate-membership filters over byte strings: a plain filter, an
//! address-folded filter, and the hash streams and index samplers they use.

pub mod bits;
pub mod bloom;
pub mod encoding;
pub mod folded;
pub mod hash;
pub mod iterators;

pub use bloom::{Bloom, BloomIndicesBlake3, BloomIndicesXXH3, BloomIndicesXXH3RejectionSampling};
pub use folded::Folded;
pub use iterators::{
    Blake3XOF, DistinctSampling, RejectionSampling, WordStream, XXH3XOF, YieldBits,
};
