use vstd::prelude::*;

verus! {

/// The failures the library can report.
///
/// `EmptyChain` is recoverable: generation was requested for an identifier
/// that was never fed (or was cleared).  `CorruptRecord` means stored bytes
/// failed to decode, which only external tampering or format damage can
/// cause.  `StorageUnavailable` means the underlying key-value store failed.
#[derive(Clone, Copy, Debug, PartialEq, Eq, Structural)]
pub enum ChainError {
    EmptyChain,
    CorruptRecord,
    StorageUnavailable,
}

impl ChainError {
    /// A short human-readable description of the error.
    pub fn describe(&self) -> (r: &'static str)
        ensures
            *self is EmptyChain ==> r@ == "empty chain"@,
            *self is CorruptRecord ==> r@ == "corrupt record"@,
            *self is StorageUnavailable ==> r@ == "storage unavailable"@,
    {
        match self {
            ChainError::EmptyChain => "empty chain",
            ChainError::CorruptRecord => "corrupt record",
            ChainError::StorageUnavailable => "storage unavailable",
        }
    }
}

} // verus!
