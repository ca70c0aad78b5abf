//! The error taxonomy of the transactional core.

use vstd::prelude::*;

verus! {

/// Everything a transactional operation can fail with.
#[derive(Clone, Copy, Debug, PartialEq, Eq, Structural)]
pub enum MvccError {
    /// A write found a concurrent, invisible version of the same key:
    /// first-writer-wins, the caller must retry with a new transaction.
    SerializationConflict,
    /// An operation was attempted on a transaction that has already
    /// committed or rolled back.
    InvalidTransactionState,
    /// Internal bookkeeping was broken: a registry lookup failed for a
    /// version the core itself created, or a rollback missed an entry it
    /// recorded. Fatal; never returned while the core's invariants hold.
    StoreInvariantViolation,
}

} // verus!
