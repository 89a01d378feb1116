//! Compact probabilistic block filters for light wallet clients.
//!
//! A filter is a Golomb-Rice coded set of hashed script elements.  The crate
//! holds the codec itself (bit-level Golomb-Rice coding, keyed hashing with
//! multiply-shift range reduction, construction and matching) together with
//! the per-chain policies that decide which scripts enter a filter.

pub mod utils;
pub mod bits;
pub mod golomb;
pub mod varint;
pub mod hashing;
pub mod sorting;
pub mod gcs;
pub mod util;
pub mod btc;
pub mod mempool;
pub mod ergo;
pub mod filter;
