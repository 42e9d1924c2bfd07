//! Exact neighbour search over binary codes in the Hamming space, by
//! multi-index hashing over sparse substring tables.
pub mod bits;
pub mod blocks;
pub mod codec;
pub mod codeint;
pub mod error;
pub mod index;
pub mod ls;
pub mod siggen;
pub mod sparsehash;

pub use codeint::{hamdist, CodeInt, Popcnt};
pub use error::Error;
pub use index::{Index, RangeSearcher, TopkSearcher};
pub use siggen::SigGenerator64;
pub use sparsehash::Table;
