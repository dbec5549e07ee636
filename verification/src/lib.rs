//! A multi-version concurrency control (MVCC) transactional layer over an
//! ordered byte-keyed key-value store.
//!
//! Transactions run at snapshot isolation with first-writer-wins conflict
//! detection. Every piece of transaction state lives in one flat ordered key
//! space, under an order-preserving key encoding, so that "latest visible
//! version of a key" is a reverse range scan.

pub mod error;
pub mod keycode;
pub mod order;
pub mod props;
pub mod snapshot;
pub mod store;
pub mod txn;
pub mod wire;

pub use error::Error;
pub use keycode::Key;
pub use order::lex_lt;
pub use snapshot::{Mode, Snapshot};
pub use store::{Bound, Memory};
pub use txn::{MVCC, Scan, Status, Transaction};
