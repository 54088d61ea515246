//! A content-addressable, deduplicating blob store.
//!
//! Files are split into fixed-size chunks; each chunk is persisted once under
//! the hex-encoded SHA-256 digest of its bytes, and a file is a name mapped to
//! an ordered manifest of chunk references whose concatenation reconstructs
//! the original bytes.

use vstd::prelude::*;

pub mod chunk;
pub mod chunk_storage;
pub mod chunking;
pub mod codec;
pub mod file;
pub mod hashing;
pub mod storage;

pub use storage::FileStorage;

verus! {

/// The number of hexadecimal characters in a content hash (a SHA-256 digest).
pub const HASH_HEX_LEN: usize = 64;

} // verus!
