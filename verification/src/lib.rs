//! Verified core of a message-backed encrypted blob store.
//!
//! A local file is decomposed into fixed-size buffers, grouped into slices
//! and clusters, optionally encrypted with a per-file AES-256-GCM key, and
//! shipped as attachments of remote messages.  This crate holds the logic
//! that decides *what* is read, encrypted, checksummed, uploaded, written
//! and retried; the thin shell that performs file and network I/O lives
//! outside and calls in with plain values.

pub mod checksum;
pub mod cipher;
pub mod errors;
pub mod geometry;
pub mod model;
pub mod reader;
pub mod remote;
pub mod resolve;
pub mod text;
pub mod writer;
