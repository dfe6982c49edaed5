//! A single-node, append-only, multi-version object store: the log format,
//! the position index, per-object locking, transactions and the storage
//! engine that coordinates two-phase commit.

pub mod errors;
pub mod index;
pub mod lock;
pub mod msg;
pub mod records;
pub mod storage;
pub mod tid;
pub mod transaction;
pub mod util;
