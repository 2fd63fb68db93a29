//! A space-efficient probabilistic set-membership structure (a Bloom filter).
//!
//! Given a target false-positive rate and an estimated item count, the filter
//! allocates a compact bit array and derives a fixed number of index positions
//! per item from a single 64-bit hash. It answers "definitely absent" or
//! "possibly present" without storing the items themselves. Items can be
//! added but never removed; removal would introduce false negatives.

pub mod bits;
pub mod bloom_filter;
pub mod error;
pub mod index;
pub mod params;
pub mod rate;

pub use bloom_filter::BloomFilter;
pub use error::CreationError;
