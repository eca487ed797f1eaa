//! The core of a tool that pulls files from other devices on a local network.
//!
//! The library holds the wire format, the authentication steps, the rules for
//! paths and snapshots, and the decisions of both ends of a connection. It
//! performs no input or output of its own: a caller hands it plain values and
//! carries out what it answers.

pub mod auth;
pub mod big_endian;
pub mod client;
pub mod commands;
pub mod discovery;
pub mod download;
pub mod error;
pub mod fields;
pub mod frame;
pub mod lifecycle;
pub mod listing;
pub mod message;
pub mod models;
pub mod ordering;
pub mod outside;
pub mod paging;
pub mod paths;
pub mod protocol;
pub mod replies;
pub mod server;
pub mod snapshot;
pub mod store;
pub mod tasks;
pub mod text;
pub mod wire;
