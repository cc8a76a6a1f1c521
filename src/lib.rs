//! Request coalescing in front of an object store.
//!
//! The verified core of a read proxy: the registry that lets concurrent reads
//! of one key share a single backend fetch, the drainer that turns a stream of
//! chunks into one buffer, and the translation of backend errors into the
//! proxy's own error kinds.

pub mod drain;
pub mod error;
pub mod registry;
