//! File metadata: a name, descriptive attributes, and the ordered manifest
//! of chunk references whose concatenation is the file's content.

use vstd::prelude::*;
use vstd::utf8::encode_utf8;
use crate::chunk::{wf_chunk_ref, ChunkMetadata, ChunkRef};

verus! {

/// Relies on `jiff::Timestamp::now` and `as_millisecond`: the current wall
/// clock as milliseconds since the Unix epoch. The value depends on the
/// machine's clock, so nothing is stated about it.
#[verifier::external_body]
pub(crate) fn now_millis() -> (r: i64) {
    jiff::Timestamp::now().as_millisecond()
}

/// The views of a sequence of chunk references.
pub open spec fn chunk_views(s: Seq<ChunkMetadata>) -> Seq<ChunkRef> {
    s.map_values(|c: ChunkMetadata| c@)
}

/// The view of an optional string.
pub open spec fn opt_str_view(o: Option<String>) -> Option<Seq<char>> {
    match o {
        Some(s) => Some(s@),
        None => None,
    }
}

/// The mathematical content of a `FileMetadata`.
#[verifier::ext_equal]
pub ghost struct FileMetaView {
    pub name: Seq<char>,
    pub size: u64,
    pub created_at: i64,
    pub modified_at: i64,
    pub chunks: Seq<ChunkRef>,
    pub mime_type: Option<Seq<char>>,
}

/// A well-formed metadata record: every manifest entry carries a well-formed
/// hash string, and the variable-length parts are small enough for their
/// lengths to be recorded in a `u64`. Every record built from real values
/// satisfies this.
pub open spec fn wf_meta(m: FileMetaView) -> bool {
    &&& forall|i: int| 0 <= i < m.chunks.len() ==> wf_chunk_ref(#[trigger] m.chunks[i])
    &&& encode_utf8(m.name).len() <= u64::MAX
    &&& m.chunks.len() <= u64::MAX
    &&& (m.mime_type is Some ==> encode_utf8(m.mime_type->0).len() <= u64::MAX)
}

/// A file's metadata record: its name (also the index key), total size, the
/// creation and last-modification timestamps in milliseconds since the Unix
/// epoch, the ordered manifest, and an optional MIME type.
#[derive(Debug)]
pub struct FileMetadata {
    name: String,
    size: u64,
    created_at: i64,
    modified_at: i64,
    chunks: Vec<ChunkMetadata>,
    mime_type: Option<String>,
}

impl View for FileMetadata {
    type V = FileMetaView;

    closed spec fn view(&self) -> FileMetaView {
        FileMetaView {
            name: self.name@,
            size: self.size,
            created_at: self.created_at,
            modified_at: self.modified_at,
            chunks: chunk_views(self.chunks@),
            mime_type: opt_str_view(self.mime_type),
        }
    }
}

impl FileMetadata {
    pub open spec fn wf(&self) -> bool {
        wf_meta(self@)
    }

    /// A fresh record: both timestamps are stamped with the current time, so
    /// they are equal; the remaining attributes are stored verbatim.
    pub fn new(name: String, size: u64, chunks: Vec<ChunkMetadata>, mime_type: Option<String>) -> (r:
        Self)
        requires
            forall|i: int| 0 <= i < chunks@.len() ==> (#[trigger] chunks@[i]).wf(),
        ensures
            r@.name == name@,
            r@.size == size,
            r@.created_at == r@.modified_at,
            r@.chunks == chunk_views(chunks@),
            r@.mime_type == opt_str_view(mime_type),
    {
        let now = now_millis();
        FileMetadata { name, size, created_at: now, modified_at: now, chunks, mime_type }
    }

    /// A record with every field given explicitly.
    pub(crate) fn from_parts(
        name: String,
        size: u64,
        created_at: i64,
        modified_at: i64,
        chunks: Vec<ChunkMetadata>,
        mime_type: Option<String>,
    ) -> (r: Self)
        ensures
            r@ == (FileMetaView {
                name: name@,
                size,
                created_at,
                modified_at,
                chunks: chunk_views(chunks@),
                mime_type: opt_str_view(mime_type),
            }),
    {
        FileMetadata { name, size, created_at, modified_at, chunks, mime_type }
    }

    pub fn name(&self) -> (r: &str)
        ensures
            r@ == self@.name,
    {
        self.name.as_str()
    }

    pub fn size(&self) -> (r: u64)
        ensures
            r == self@.size,
    {
        self.size
    }

    pub fn created_at(&self) -> (r: i64)
        ensures
            r == self@.created_at,
    {
        self.created_at
    }

    pub fn modified_at(&self) -> (r: i64)
        ensures
            r == self@.modified_at,
    {
        self.modified_at
    }

    /// The ordered manifest.
    pub fn chunks(&self) -> (r: &[ChunkMetadata])
        ensures
            chunk_views(r@) == self@.chunks,
    {
        self.chunks.as_slice()
    }

    pub fn mime_type(&self) -> (r: Option<&str>)
        ensures
            r is Some <==> self@.mime_type is Some,
            r is Some ==> r->0@ == self@.mime_type->0,
    {
        match &self.mime_type {
            Some(s) => Some(s.as_str()),
            None => None,
        }
    }
}

} // verus!
