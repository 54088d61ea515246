//! The chunk store: durable, deduplicated, corruption-checked persistence of
//! opaque byte blocks keyed by content hash, and the chunk manager that
//! splits a byte stream into stored blocks.
//!
//! The store never hands back bytes it cannot verify: a fetched block is
//! re-hashed, and a mismatch is reported as corruption, distinct from
//! absence. Writes go to a staging file that is forced to durable storage
//! and then atomically renamed onto the canonical path, so a concurrent
//! reader observes the canonical path either wholly absent or wholly
//! written, never partial.

use vstd::prelude::*;
use vstd::slice::slice_subrange;
use vstd::string::StringExecFns;
use tokio::io::AsyncWriteExt;
use crate::chunk::{ChunkHash, ChunkMetadata};
use crate::chunking::{
    chunk_count, chunks_of, lemma_chunk_at_bounds, lemma_chunk_count_bounds,
    lemma_chunk_count_unique,
};
use crate::hashing::{sha256_hex, sha256_hex_of};

verus! {

#[verifier::external_type_specification]
#[verifier::external_body]
pub struct ExTokioRuntime(tokio::runtime::Runtime);

#[verifier::external_type_specification]
#[verifier::external_body]
pub struct ExTokioFile(tokio::fs::File);

/// Relies on `tokio::runtime::Builder::new_current_thread().build()`: a
/// runtime that can drive the filesystem calls below to completion.
#[verifier::external_body]
fn new_runtime() -> (r: Result<tokio::runtime::Runtime, String>) {
    match tokio::runtime::Builder::new_current_thread().build() {
        Ok(rt) => Ok(rt),
        Err(e) => Err(format!("{e}")),
    }
}

/// Relies on `tokio::fs::create_dir_all`: creates the directory and every
/// missing parent; succeeds when they already exist.
#[verifier::external_body]
pub(crate) fn fs_create_dir_all(rt: &tokio::runtime::Runtime, path: &str) -> (r: Result<(), String>) {
    match rt.block_on(tokio::fs::create_dir_all(path)) {
        Ok(()) => Ok(()),
        Err(e) => Err(format!("{e}")),
    }
}

/// Relies on `tokio::fs::try_exists`: whether a filesystem entry is present
/// at `path` at the moment of the call; an error is reported as absence.
#[verifier::external_body]
pub(crate) fn fs_exists(rt: &tokio::runtime::Runtime, path: &str) -> (r: bool) {
    rt.block_on(tokio::fs::try_exists(path)).unwrap_or(false)
}

/// Relies on `tokio::fs::read`: the entire current content of the file at
/// `path`, whatever is on disk at the moment of the call.
#[verifier::external_body]
pub(crate) fn fs_read(rt: &tokio::runtime::Runtime, path: &str) -> (r: Result<Vec<u8>, String>) {
    match rt.block_on(tokio::fs::read(path)) {
        Ok(data) => Ok(data),
        Err(e) => Err(format!("{e}")),
    }
}

/// Relies on `tokio::fs::File::create`: creates the file, or truncates it if
/// it exists.
#[verifier::external_body]
pub(crate) fn fs_file_create(rt: &tokio::runtime::Runtime, path: &str) -> (r: Result<
    tokio::fs::File,
    String,
>) {
    match rt.block_on(tokio::fs::File::create(path)) {
        Ok(f) => Ok(f),
        Err(e) => Err(format!("{e}")),
    }
}

/// Relies on `tokio::io::AsyncWriteExt::write_all`: writes the whole buffer
/// to the file or reports the first error.
#[verifier::external_body]
pub(crate) fn fs_write_all(rt: &tokio::runtime::Runtime, file: &mut tokio::fs::File, data: &[u8]) -> (r:
    Result<(), String>) {
    match rt.block_on(file.write_all(data)) {
        Ok(()) => Ok(()),
        Err(e) => Err(format!("{e}")),
    }
}

/// Relies on `tokio::fs::File::sync_all`: forces the file's data and
/// metadata to durable storage.
#[verifier::external_body]
pub(crate) fn fs_sync_all(rt: &tokio::runtime::Runtime, file: &tokio::fs::File) -> (r: Result<(), String>) {
    match rt.block_on(file.sync_all()) {
        Ok(()) => Ok(()),
        Err(e) => Err(format!("{e}")),
    }
}

/// Relies on `tokio::fs::rename`: atomically moves `from` onto `to`,
/// replacing any file already there.
#[verifier::external_body]
pub(crate) fn fs_rename(rt: &tokio::runtime::Runtime, from: &str, to: &str) -> (r: Result<(), String>) {
    match rt.block_on(tokio::fs::rename(from, to)) {
        Ok(()) => Ok(()),
        Err(e) => Err(format!("{e}")),
    }
}

/// Relies on `tokio::fs::remove_file`: removes the file at `path`.
#[verifier::external_body]
fn fs_remove_file(rt: &tokio::runtime::Runtime, path: &str) -> (r: Result<(), String>) {
    match rt.block_on(tokio::fs::remove_file(path)) {
        Ok(()) => Ok(()),
        Err(e) => Err(format!("{e}")),
    }
}

/// A chunk store failure.
#[derive(Debug)]
pub enum ChunkError {
    /// A filesystem operation failed; the message describes it.
    Io(String),
    /// No blob is stored under the requested hash.
    ChunkNotFound(ChunkHash),
    /// The blob under the requested hash does not hash back to it.
    CorruptChunk(ChunkHash),
}

/// The canonical path of a chunk: the shard directory named by the first two
/// hex characters of the hash, then the full hash string.
pub open spec fn spec_chunk_path(dir: Seq<char>, hash: Seq<char>) -> Seq<char> {
    dir + "/"@ + hash.subrange(0, 2) + "/"@ + hash
}

/// Decides whether fetched bytes are the blob their hash names. Succeeds
/// exactly when `data` hashes to `hash` and then returns the bytes
/// unchanged; a mismatch is the corruption error, carrying the requested
/// hash. This is the whole post-read decision of a fetch: altered on-disk
/// content is rejected here, never handed back.
pub fn verify_chunk(hash: &ChunkHash, data: Vec<u8>) -> (r: Result<Vec<u8>, ChunkError>)
    ensures
        r is Ok <==> sha256_hex_of(data@) == hash@,
        match r {
            Ok(d) => d@ == data@,
            Err(e) => e matches ChunkError::CorruptChunk(h) && h@ == hash@,
        },
{
    let computed = sha256_hex(data.as_slice());
    if hash.eq_hex(&computed) {
        Ok(data)
    } else {
        Err(ChunkError::CorruptChunk(hash.clone()))
    }
}

/// Persists individual content blocks on the filesystem, addressed by
/// content hash. Filesystem calls run on the store's own runtime, so the
/// store must be used from a thread that is not itself driving an async
/// runtime (a blocking thread, or an ordinary one).
pub struct ChunkStorage {
    chunks_dir: String,
    temp_dir: String,
    rt: tokio::runtime::Runtime,
}

impl ChunkStorage {
    /// The directory that holds the sharded chunk blobs.
    pub closed spec fn spec_chunks_dir(&self) -> Seq<char> {
        self.chunks_dir@
    }

    /// The staging directory for writes awaiting their atomic rename.
    pub closed spec fn spec_temp_dir(&self) -> Seq<char> {
        self.temp_dir@
    }

    /// The runtime that drives this store's filesystem calls.
    pub(crate) fn runtime(&self) -> &tokio::runtime::Runtime {
        &self.rt
    }

    /// Creates the `chunks` and `temp` directories under `root_dir`.
    pub fn new(root_dir: &str) -> (r: Result<ChunkStorage, ChunkError>)
        ensures
            match r {
                Ok(s) => s.spec_chunks_dir() == root_dir@ + "/chunks"@ && s.spec_temp_dir()
                    == root_dir@ + "/temp"@,
                Err(e) => e is Io,
            },
    {
        let rt = match new_runtime() {
            Ok(rt) => rt,
            Err(m) => {
                return Err(ChunkError::Io(m));
            },
        };
        let chunks_dir = root_dir.to_owned().concat("/chunks");
        let temp_dir = root_dir.to_owned().concat("/temp");
        if let Err(m) = fs_create_dir_all(&rt, chunks_dir.as_str()) {
            return Err(ChunkError::Io(m));
        }
        if let Err(m) = fs_create_dir_all(&rt, temp_dir.as_str()) {
            return Err(ChunkError::Io(m));
        }
        Ok(ChunkStorage { chunks_dir, temp_dir, rt })
    }

    /// The canonical path for a chunk hash.
    pub fn get_chunk_path(&self, chunk_hash: &ChunkHash) -> (r: String)
        requires
            chunk_hash.wf(),
        ensures
            r@ == spec_chunk_path(self.spec_chunks_dir(), chunk_hash@),
    {
        let mut p = self.chunks_dir.clone();
        p.append("/");
        p.append(chunk_hash.get_prefix());
        p.append("/");
        p.append(chunk_hash.as_str());
        p
    }

    /// Stores `data` under its content hash. If a blob already exists at the
    /// canonical path the write is skipped entirely: identical content is
    /// written at most once. The returned metadata records the hash and the
    /// length of `data`; an intact existing blob has that same length, since
    /// it holds bytes with the same digest.
    pub fn store_chunk(&self, data: &[u8]) -> (r: Result<ChunkMetadata, ChunkError>)
        ensures
            match r {
                Ok(m) => m@.hash == sha256_hex_of(data@) && m@.size as nat == data@.len()
                    && m.wf(),
                Err(e) => e is Io,
            },
    {
        let hex = sha256_hex(data);
        let chunk_hash = ChunkHash::new(hex);
        let chunk_path = self.get_chunk_path(&chunk_hash);

        if fs_exists(&self.rt, chunk_path.as_str()) {
            // Deduplicated: the blob is already on disk and is not rewritten.
            return Ok(ChunkMetadata::new(chunk_hash, data.len() as u64));
        }
        let mut prefix_dir = self.chunks_dir.clone();
        prefix_dir.append("/");
        prefix_dir.append(chunk_hash.get_prefix());
        if let Err(m) = fs_create_dir_all(&self.rt, prefix_dir.as_str()) {
            return Err(ChunkError::Io(m));
        }
        let mut temp_path = self.temp_dir.clone();
        temp_path.append("/chunk_");
        temp_path.append(chunk_hash.as_str());
        let mut file = match fs_file_create(&self.rt, temp_path.as_str()) {
            Ok(f) => f,
            Err(m) => {
                return Err(ChunkError::Io(m));
            },
        };
        if let Err(m) = fs_write_all(&self.rt, &mut file, data) {
            return Err(ChunkError::Io(m));
        }
        if let Err(m) = fs_sync_all(&self.rt, &file) {
            return Err(ChunkError::Io(m));
        }
        if let Err(m) = fs_rename(&self.rt, temp_path.as_str(), chunk_path.as_str()) {
            return Err(ChunkError::Io(m));
        }
        Ok(ChunkMetadata::new(chunk_hash, data.len() as u64))
    }

    /// Fetches the blob stored under `hash` and verifies it. On success the
    /// returned bytes hash to exactly the requested hash: altered on-disk
    /// content is reported as `CorruptChunk`, never returned.
    pub fn get_chunk(&self, hash: &ChunkHash) -> (r: Result<Vec<u8>, ChunkError>)
        requires
            hash.wf(),
        ensures
            match r {
                Ok(d) => sha256_hex_of(d@) == hash@,
                Err(ChunkError::ChunkNotFound(h)) => h@ == hash@,
                Err(ChunkError::CorruptChunk(h)) => h@ == hash@,
                Err(ChunkError::Io(_)) => true,
            },
    {
        let chunk_path = self.get_chunk_path(hash);
        if !fs_exists(&self.rt, chunk_path.as_str()) {
            return Err(ChunkError::ChunkNotFound(hash.clone()));
        }
        let data = match fs_read(&self.rt, chunk_path.as_str()) {
            Ok(d) => d,
            Err(m) => {
                return Err(ChunkError::Io(m));
            },
        };
        verify_chunk(hash, data)
    }

    /// Whether a blob is present at the hash's canonical path at the moment
    /// of the call. A pure existence test: the content is not read, so
    /// nothing is verified about it.
    pub fn chunk_exists(&self, hash: &ChunkHash) -> bool
        requires
            hash.wf(),
    {
        let chunk_path = self.get_chunk_path(hash);
        fs_exists(&self.rt, chunk_path.as_str())
    }

    /// Removes the blob stored under `hash`; doing so when none is present
    /// is not an error.
    pub fn delete_chunk(&self, hash: &ChunkHash) -> (r: Result<(), ChunkError>)
        requires
            hash.wf(),
        ensures
            r is Err ==> r->Err_0 is Io,
    {
        let chunk_path = self.get_chunk_path(hash);
        if fs_exists(&self.rt, chunk_path.as_str()) {
            if let Err(m) = fs_remove_file(&self.rt, chunk_path.as_str()) {
                return Err(ChunkError::Io(m));
            }
        }
        Ok(())
    }
}

/// Splits a byte stream into fixed-size blocks and drives the chunk store to
/// persist each one, producing an ordered manifest.
pub struct ChunkManager {
    pub(crate) storage: ChunkStorage,
    pub(crate) chunk_size: usize,
}

impl ChunkManager {
    /// The configured block size.
    pub closed spec fn spec_chunk_size(&self) -> usize {
        self.chunk_size
    }

    pub open spec fn wf(&self) -> bool {
        self.spec_chunk_size() >= 1
    }

    /// A manager over a fresh chunk store rooted at `root_path`.
    pub fn new(root_path: &str, chunk_size: usize) -> (r: Result<ChunkManager, ChunkError>)
        requires
            chunk_size >= 1,
        ensures
            match r {
                Ok(m) => m.spec_chunk_size() == chunk_size && m.wf(),
                Err(e) => e is Io,
            },
    {
        let storage = match ChunkStorage::new(root_path) {
            Ok(s) => s,
            Err(e) => {
                return Err(e);
            },
        };
        Ok(ChunkManager { storage, chunk_size })
    }

    /// Splits `data` into blocks of the configured size (the last possibly
    /// shorter), stores each block, and returns the ordered manifest: one
    /// metadata entry per block, in stream order, recording each block's
    /// content hash and length.
    pub fn chunk_file(&self, data: &[u8]) -> (r: Result<Vec<ChunkMetadata>, ChunkError>)
        requires
            self.wf(),
        ensures
            match r {
                Ok(ms) => {
                    let pieces = chunks_of(data@, self.spec_chunk_size() as int);
                    &&& ms@.len() == pieces.len()
                    &&& forall|i: int|
                        0 <= i < ms@.len() ==> (#[trigger] ms@[i]@).hash == sha256_hex_of(
                            pieces[i],
                        ) && ms@[i]@.size as nat == pieces[i].len() && ms@[i].wf()
                },
                Err(e) => e is Io,
            },
            data@.len() == 0 ==> r is Ok,
    {
        let cs = self.chunk_size;
        let len = data.len();
        let ghost csi = cs as int;
        let ghost pieces = chunks_of(data@, csi);
        let ghost total = chunk_count(len as int, csi);
        proof {
            lemma_chunk_count_bounds(len as int, csi);
        }
        let mut chunks: Vec<ChunkMetadata> = Vec::new();
        let mut offset: usize = 0;
        while offset < len
            invariant
                cs == self.spec_chunk_size(),
                cs >= 1,
                len == data@.len(),
                total == chunk_count(len as int, csi),
                csi == cs as int,
                pieces == chunks_of(data@, csi),
                offset as int == vstd::math::min(csi * chunks@.len(), len as int),
                offset <= len,
                chunks@.len() > 0 ==> csi * (chunks@.len() - 1) < len as int,
                chunks@.len() <= total,
                forall|j: int|
                    0 <= j < chunks@.len() ==> (#[trigger] chunks@[j]@).hash == sha256_hex_of(
                        pieces[j],
                    ) && chunks@[j]@.size as nat == pieces[j].len() && chunks@[j].wf(),
            decreases len - offset,
        {
            let ghost k = chunks@.len() as int;
            proof {
                lemma_chunk_count_bounds(len as int, csi);
                // offset < len and offset == cs * k imply k < total.
                assert(csi * k == offset as int);
                if k >= total {
                    lemma_mul_le(csi, total, k);
                }
                lemma_chunk_at_bounds(len as int, csi, k);
                assert(csi * (k + 1) == csi * k + csi) by (nonlinear_arith);
            }
            let end = if len - offset >= cs {
                offset + cs
            } else {
                len
            };
            let piece = slice_subrange(data, offset, end);
            proof {
                assert(piece@ =~= pieces[k]);
            }
            let m = match self.storage.store_chunk(piece) {
                Ok(m) => m,
                Err(e) => {
                    return Err(e);
                },
            };
            chunks.push(m);
            offset = end;
        }
        proof {
            let k = chunks@.len() as int;
            assert(csi * 0 == 0) by (nonlinear_arith);
            if len == 0 {
                assert(k == 0 && total == 0);
            } else {
                lemma_chunk_count_unique(len as int, csi, k);
            }
        }
        Ok(chunks)
    }
}

/// Multiplying a larger count by a positive size gives at least as many
/// bytes: `a <= b` implies `cs * a <= cs * b`.
proof fn lemma_mul_le(cs: int, a: int, b: int)
    requires
        cs >= 0,
        a <= b,
    ensures
        cs * a <= cs * b,
{
    vstd::arithmetic::mul::lemma_mul_inequality(a, b, cs);
    assert(a * cs == cs * a) by (nonlinear_arith);
    assert(b * cs == cs * b) by (nonlinear_arith);
}

} // verus!
