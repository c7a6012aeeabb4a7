use vstd::prelude::*;

verus! {

/// Everything that encoding, decoding or building a model can refuse.
#[derive(Clone, Copy, Debug, PartialEq, Eq, Structural)]
pub enum Error {
    /// The delay threshold is outside 16..=32 bits.
    InvalidDelay,
    /// The number of interleaved coding states is not 1, 2, 4 or 8.
    InvalidLanes,
    /// The symbol count is too large for the worst-case payload size to fit in `usize`.
    InputTooLarge,
    /// A symbol is not in its model or has frequency zero.
    InvalidSymbol,
    /// The output buffer cannot hold the payload.
    OutputTooSmall,
    /// The payload ended in the middle of a read.
    TruncatedInput,
    /// Bytes remain after the last symbol was decoded.
    TrailingInput,
    /// The final coding state is not the one an encoder leaves behind.
    InvalidState,
    /// The frequencies do not describe a normalized model.
    InvalidModel,
}

} // verus!
