//! A record-keeping library: an in-memory collection of financial entries
//! with validated CRUD operations, per-user summaries, a byte-exact
//! round-tripping persistence format, and a model of crash-consistent
//! atomic replacement of the on-disk mirror.

pub mod codec;
pub mod mirror;
pub mod numbers;
pub mod records;
pub mod store;

