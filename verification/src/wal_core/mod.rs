//! A crash-safe, segment-based write-ahead log engine.
pub mod calls;
pub mod checkpoint;
pub mod durability;
pub mod entry;
pub mod error;
pub mod floor;
pub mod history;
pub mod power;
pub mod segment;
pub mod wal;

pub use entry::Entry;
pub use error::WalError;
pub use wal::{Wal, WalConfig};
