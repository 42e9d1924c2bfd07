//! Errors of building and reading an index.
use vstd::prelude::*;

verus! {

/// Why an index or a table could not be made.
#[derive(Clone, Copy, PartialEq, Eq, Debug, Structural)]
pub enum Error {
    /// There were no codes to index.
    EmptyInput,
    /// There were more codes than 32-bit ids can name.
    TooManyCodes,
    /// The number of blocks was below 2 or above the number of bits of a code.
    InvalidBlocks,
    /// A table was asked for with a width of zero bits, or too wide for this machine.
    InvalidTableWidth,
    /// The serialized bytes ended early or did not describe an index.
    Io,
}

} // verus!
