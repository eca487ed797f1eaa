//! What the library takes from other crates and from parts of the standard
//! library that have no specification. Nothing here is proved: each contract
//! says what the named function is known to do.

pub mod crypto;
pub mod hash;
pub mod json;
pub mod machine;
pub mod opaque;
pub mod protobuf;
pub mod strings;
