//! Errors reported by the library.
use vstd::prelude::*;

verus! {

/// A failure of the key-value store.
#[derive(Debug, Clone, Copy, PartialEq, Eq, Structural)]
pub enum StoreError {
    /// The store reported an error (I/O, corruption, unsupported use).
    Storage,
    /// A stored key that must be text is not valid UTF-8.
    KeyNotUtf8,
}

/// The answer that the service gives to a request it refuses.
#[derive(Debug, Clone, Copy, PartialEq, Eq, Structural)]
pub enum ServiceError {
    /// "Public key is empty" (invalid argument).
    PublicKeyEmpty,
    /// "Block already exists" (already exists).
    BlockAlreadyExists,
    /// "Block too large" (invalid argument).
    BlockTooLarge,
    /// "Block not found" (not found).
    BlockNotFound,
    /// "Block is empty" (not found).
    BlockEmpty,
    /// "Transaction already exists" (already exists).
    TransactionAlreadyExists,
    /// "Transaction too large" (invalid argument).
    TransactionTooLarge,
    /// "Transaction not found" (not found).
    TransactionNotFound,
    /// A block file ended before a field that had to be read from it.
    UnexpectedEof,
    /// A block file or an index record does not have the layout that the
    /// service writes; the service cannot go on with the request.
    Corrupt,
    /// The index of a copy of a transaction would not fit in 32 bits; the
    /// service cannot go on with the request.
    IndexOverflow,
    /// The key-value store failed.
    Store(StoreError),
}

} // verus!
