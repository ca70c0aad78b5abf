//! A multi-version concurrency control (MVCC) core over an ordered
//! key-value store: snapshot-isolated transactions with read-your-own-writes,
//! repeatable reads and first-writer-wins conflict detection.

pub mod bytes;
pub mod errors;
pub mod key;
pub mod laws;
pub mod mvcc;
pub mod registry;
pub mod store;
pub mod txn;
pub mod version;

pub use errors::MvccError;
pub use key::Key;
pub use key::decode_key;
pub use mvcc::MVCC;
pub use registry::Registry;
pub use store::Entry;
pub use store::KVEngine;
pub use txn::Transaction;
pub use txn::TxnState;
pub use version::acquire_next_version;
