//! A content-addressable store for large binary payloads (wasm images and
//! static assets) that arrive in bounded-size chunks over a two-phase batch
//! protocol.  Chunks are staged in volatile memory, validated against
//! previously declared metadata (total length and SHA-256 digest) at commit
//! time, and migrated into durable fixed-record storage on success.

pub mod codec;
pub mod digest;
pub mod laws;
pub mod model;
pub mod regions;
pub mod registry;
pub mod types;
pub mod url_decode;
pub mod utils;
