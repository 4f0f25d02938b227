//! An in-memory, ordinal-indexed, multi-version key-value store for exercising
//! store handlers without a running backend.
//!
//! Every key owns an append-only history of `(ordinal, value)` entries. The
//! store answers point, first and last lookups, and supports the write
//! disciplines of the `substreams` stores: set, add, sum, append,
//! set-if-absent and prefix deletion.

pub mod laws;
pub mod model;
pub mod scalar;
pub mod store;
mod text;

pub use store::MockStore;
