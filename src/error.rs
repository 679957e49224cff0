use vstd::prelude::*;

verus! {

/// The kinds of failure of the index subsystem.
#[derive(Debug, Clone, Copy, PartialEq, Eq, Structural)]
pub enum IndexError {
    /// A build was configured inconsistently; detected before any I/O.
    Configuration,
    /// Text or tokenizer configuration was malformed.
    Tokenization,
    /// Segment bytes were corrupt or unreadable.
    Encoding,
    /// A structural requirement of the index was violated.
    Index,
    /// The storage collaborator failed.
    StoreIo,
}

} // verus!
