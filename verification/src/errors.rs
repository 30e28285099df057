use vstd::prelude::*;

verus! {

/// Failure taxonomy of the chunk store core.
#[derive(Clone, Copy, Debug, PartialEq, Eq, Structural)]
pub enum CoreError {
    /// The requested chunk or metadata record does not exist.
    NotFound,
    /// Compression or decompression of a chunk payload failed.
    Codec,
    /// A metadata archive failed structural validation.
    Corrupt,
}

} // verus!
