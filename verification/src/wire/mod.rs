//! The control messages and their bytes.
//!
//! A message is a list of numbered fields. A field at its default is left out;
//! on reading, the last value of a field counts, elements of a list add up,
//! and fields with unknown numbers are passed over.

pub mod envelope;
pub mod listing;
pub mod session;
pub mod snapshot;
pub mod transfer;
