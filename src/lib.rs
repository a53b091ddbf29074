//! A hash map with a fixed number of buckets, each bucket a chain of
//! key-value entries scanned linearly.
pub mod key;
pub mod laws;
pub mod map;
