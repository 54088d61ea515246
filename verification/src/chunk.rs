//! Chunk identity: content hashes and per-chunk metadata.

use vstd::prelude::*;
use vstd::string::StrSliceExecFns;
use crate::hashing::{is_hash_str, lemma_hash_str_ascii};

verus! {

/// A content hash: the hex-encoded SHA-256 digest that identifies a chunk.
///
/// The wrapped string is always a well-formed hash string (64 lowercase hex
/// digits); every constructor requires it.
#[derive(Debug)]
pub struct ChunkHash(String);

impl View for ChunkHash {
    type V = Seq<char>;

    closed spec fn view(&self) -> Seq<char> {
        self.0@
    }
}

impl Clone for ChunkHash {
    fn clone(&self) -> (r: Self)
        ensures
            r@ == self@,
    {
        ChunkHash(self.0.clone())
    }
}

impl ChunkHash {
    /// Every chunk hash is a well-formed hash string.
    pub open spec fn wf(&self) -> bool {
        is_hash_str(self@)
    }

    /// Wraps a well-formed hex digest string.
    pub fn new(hash: String) -> (r: Self)
        requires
            is_hash_str(hash@),
        ensures
            r@ == hash@,
            r.wf(),
    {
        ChunkHash(hash)
    }

    /// The hash as its hex string.
    pub fn as_str(&self) -> (r: &str)
        ensures
            r@ == self@,
    {
        self.0.as_str()
    }

    /// The two leading hex characters, used as the shard directory name.
    pub fn get_prefix(&self) -> (r: &str)
        requires
            self.wf(),
        ensures
            r@ == self@.subrange(0, 2),
    {
        proof {
            lemma_hash_str_ascii(self@);
        }
        self.0.as_str().substring_ascii(0, 2)
    }

    /// Whether this hash's hex string equals `other`.
    pub fn eq_hex(&self, other: &String) -> (r: bool)
        ensures
            r == (self@ == other@),
    {
        self.0 == *other
    }
}

/// The mathematical content of a `ChunkMetadata`: a hash string paired with
/// the chunk's byte length.
#[verifier::ext_equal]
pub ghost struct ChunkRef {
    pub hash: Seq<char>,
    pub size: u64,
}

/// A chunk reference is well formed when its hash is a well-formed hash
/// string.
pub open spec fn wf_chunk_ref(c: ChunkRef) -> bool {
    is_hash_str(c.hash)
}

/// A chunk reference: the content hash of a stored block and its byte length.
#[derive(Debug)]
pub struct ChunkMetadata {
    hash: ChunkHash,
    size: u64,
}

impl View for ChunkMetadata {
    type V = ChunkRef;

    closed spec fn view(&self) -> ChunkRef {
        ChunkRef { hash: self.hash@, size: self.size }
    }
}

impl Clone for ChunkMetadata {
    fn clone(&self) -> (r: Self)
        ensures
            r@ == self@,
    {
        ChunkMetadata { hash: self.hash.clone(), size: self.size }
    }
}

impl ChunkMetadata {
    pub open spec fn wf(&self) -> bool {
        wf_chunk_ref(self@)
    }

    pub fn new(hash: ChunkHash, size: u64) -> (r: Self)
        requires
            hash.wf(),
        ensures
            r@ == (ChunkRef { hash: hash@, size }),
            r.wf(),
    {
        ChunkMetadata { hash, size }
    }

    pub fn hash(&self) -> (r: &ChunkHash)
        ensures
            r@ == self@.hash,
            self.wf() ==> r.wf(),
    {
        &self.hash
    }

    pub fn size(&self) -> (r: u64)
        ensures
            r == self@.size,
    {
        self.size
    }
}

} // verus!
