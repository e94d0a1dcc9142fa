//! Arkana: password-based encryption with human-readable and printable containers.
//!
//! The verified part of the crate covers the QR container format: how a binary
//! envelope is split into indexed, checksummed fragments, how each fragment is
//! framed as bytes, and how fragments read back from images are reassembled
//! regardless of their order.
pub mod envelope;
pub mod devtools;
pub mod password;
pub mod paths;
