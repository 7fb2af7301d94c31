//! A snapshot-isolation multi-version key/value layer over an ordered byte
//! store.
pub mod order;
pub mod memory;
pub mod error;
pub mod keycode;
pub mod encoding;
pub mod mvcc;
pub mod scan;
pub mod laws;
