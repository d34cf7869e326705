//! Client-side implementation of the ADB (Android Debug Bridge) host
//! control protocol: smart-socket framing, response decoding, typed host
//! commands, and the parsers for device lists, mDNS discovery and server
//! status payloads.
//!
//! The crate is transport-agnostic: every function here works on plain
//! bytes, and a caller owning a TCP connection drives the incremental
//! readers ([`reader`]) with whatever the server sent.

pub mod addr;
pub mod bytes;
pub mod command;
pub mod devices;
pub mod error;
pub mod framing;
pub mod hex;
pub mod ops;
pub mod reader;

pub use error::AdbError;
