//! The whole-file store: a durable index from file name to serialized
//! metadata record, combined with the chunk manager.
//!
//! The index is an association list with unique keys, viewed as a map from
//! name to record bytes, and kept durable: every mutation is staged, forced
//! to disk, and atomically renamed onto `file_db/index` under the root, and
//! a new store loads that file back. Every value in the index is the
//! encoding of a well-formed metadata record; that invariant is what lets
//! `get_file` promise to decode whatever it finds.

use vstd::prelude::*;
use vstd::string::StringExecFns;
use crate::chunk::ChunkRef;
use crate::chunk_storage::{fs_create_dir_all, fs_exists, fs_file_create, fs_read, fs_rename, fs_sync_all, fs_write_all, ChunkError, ChunkManager};
use crate::chunking::{chunk_count, chunks_of, lemma_chunks_of_flatten};
use crate::codec::{decode, decode_index, encode, encode_index, entry_views, lemma_decode_encode, lemma_encode_injective, spec_decode, spec_encode, spec_encode_index};
use crate::file::{now_millis, opt_str_view, wf_meta, FileMetaView, FileMetadata};
use crate::hashing::sha256_hex_of;

verus! {

/// A failure of the whole-file store.
#[derive(Debug)]
pub enum VyomError {
    /// The chunk store failed: an I/O error, a missing chunk, or a corrupt
    /// chunk.
    Chunk(ChunkError),
    /// A stored metadata record could not be decoded. Defensive: the store
    /// only ever writes well-formed records, so its own reads decode.
    Decode,
}

pub(crate) type Entry = (String, Vec<u8>);

/// The views of a sequence of names.
pub open spec fn name_views(s: Seq<String>) -> Seq<Seq<char>> {
    s.map_values(|x: String| x@)
}

/// The map that an association list denotes: later entries win, though with
/// unique keys each key occurs once.
pub open spec fn assoc_map(s: Seq<Entry>) -> Map<Seq<char>, Seq<u8>>
    decreases s.len(),
{
    if s.len() == 0 {
        Map::empty()
    } else {
        assoc_map(s.drop_last()).insert(s.last().0@, s.last().1@)
    }
}

/// No two entries share a key.
pub open spec fn unique_keys(s: Seq<Entry>) -> bool {
    forall|i: int, j: int|
        #![trigger s[i].0@, s[j].0@]
        0 <= i < j < s.len() ==> s[i].0@ != s[j].0@
}

proof fn lemma_assoc_map_char(s: Seq<Entry>, k: Seq<char>)
    requires
        unique_keys(s),
    ensures
        assoc_map(s).contains_key(k) <==> exists|i: int| 0 <= i < s.len() && (#[trigger] s[i].0@)
            == k,
        forall|i: int|
            0 <= i < s.len() && (#[trigger] s[i].0@) == k ==> assoc_map(s)[k] == s[i].1@,
    decreases s.len(),
{
    if s.len() > 0 {
        let pre = s.drop_last();
        assert(unique_keys(pre));
        lemma_assoc_map_char(pre, k);
        let last = s.len() - 1;
        if s[last].0@ == k {
            assert(assoc_map(s)[k] == s[last].1@);
            assert(0 <= last < s.len() && s[last].0@ == k);
            assert forall|i: int| 0 <= i < s.len() && (#[trigger] s[i].0@) == k implies assoc_map(
                s,
            )[k] == s[i].1@ by {
                if i < last {
                    assert(s[i].0@ != s[last].0@);
                }
            }
        } else {
            assert(assoc_map(s).contains_key(k) <==> assoc_map(pre).contains_key(k));
            if assoc_map(pre).contains_key(k) {
                let i = choose|i: int| 0 <= i < pre.len() && (#[trigger] pre[i].0@) == k;
                assert(s[i].0@ == k);
            }
            if exists|i: int| 0 <= i < s.len() && (#[trigger] s[i].0@) == k {
                let i = choose|i: int| 0 <= i < s.len() && (#[trigger] s[i].0@) == k;
                assert(i < last);
                assert(pre[i].0@ == k);
            }
            assert forall|i: int|
                0 <= i < s.len() && (#[trigger] s[i].0@) == k implies assoc_map(s)[k]
                == s[i].1@ by {
                assert(i < last);
                assert(pre[i].0@ == k);
            }
        }
    }
}

proof fn lemma_assoc_map_push(s: Seq<Entry>, e: Entry)
    ensures
        assoc_map(s.push(e)) == assoc_map(s).insert(e.0@, e.1@),
{
    assert(s.push(e).drop_last() =~= s);
    assert(s.push(e).last() == e);
}

proof fn lemma_assoc_map_remove(s: Seq<Entry>, i: int)
    requires
        unique_keys(s),
        0 <= i < s.len(),
    ensures
        assoc_map(s.remove(i)) =~= assoc_map(s).remove(s[i].0@),
        unique_keys(s.remove(i)),
    decreases s.len(),
{
    let k = s[i].0@;
    let last = s.len() - 1;
    let pre = s.drop_last();
    assert(unique_keys(pre));
    assert(unique_keys(s.remove(i))) by {
        let t = s.remove(i);
        assert forall|a: int, b: int|
            #![trigger t[a].0@, t[b].0@]
            0 <= a < b < t.len() implies t[a].0@ != t[b].0@ by {
            let a0 = if a < i {
                a
            } else {
                a + 1
            };
            let b0 = if b < i {
                b
            } else {
                b + 1
            };
            assert(t[a] == s[a0] && t[b] == s[b0]);
            assert(s[a0].0@ != s[b0].0@);
        }
    }
    if i == last {
        assert(s.remove(i) =~= pre);
        lemma_assoc_map_char(pre, k);
        assert forall|j: int| 0 <= j < pre.len() implies (#[trigger] pre[j].0@) != k by {
            assert(s[j].0@ != s[last].0@);
        }
        assert(!assoc_map(pre).contains_key(k));
        assert(assoc_map(pre) =~= assoc_map(pre).insert(k, s[last].1@).remove(k));
    } else {
        let t = s.remove(i);
        assert(t.drop_last() =~= pre.remove(i));
        assert(t.last() == s.last());
        lemma_assoc_map_remove(pre, i);
        assert(assoc_map(t) == assoc_map(pre.remove(i)).insert(s.last().0@, s.last().1@));
        assert(s.last().0@ != k) by {
            assert(s[i].0@ != s[last].0@);
        }
        assert(assoc_map(pre).remove(k).insert(s.last().0@, s.last().1@) =~= assoc_map(
            pre,
        ).insert(s.last().0@, s.last().1@).remove(k));
    }
}

/// The file index: a map from file name to serialized metadata record,
/// stored as an association list with unique keys.
struct FileIndex {
    entries: Vec<Entry>,
}

impl View for FileIndex {
    type V = Map<Seq<char>, Seq<u8>>;

    closed spec fn view(&self) -> Map<Seq<char>, Seq<u8>> {
        assoc_map(self.entries@)
    }
}

impl FileIndex {
    spec fn wf(&self) -> bool {
        unique_keys(self.entries@)
    }

    spec fn key_seq(&self) -> Seq<Seq<char>> {
        self.entries@.map_values(|e: Entry| e.0@)
    }

    fn new() -> (r: FileIndex)
        ensures
            r@ == Map::<Seq<char>, Seq<u8>>::empty(),
            r.wf(),
    {
        FileIndex { entries: Vec::new() }
    }

    /// The position of `name` among the entries, if present.
    fn find(&self, name: &str) -> (r: Option<usize>)
        ensures
            match r {
                Some(i) => i < self.entries@.len() && self.entries@[i as int].0@ == name@,
                None => forall|j: int|
                    0 <= j < self.entries@.len() ==> (#[trigger] self.entries@[j].0@) != name@,
            },
    {
        let key = name.to_owned();
        let n = self.entries.len();
        let mut i: usize = 0;
        while i < n
            invariant
                n == self.entries@.len(),
                i <= n,
                key@ == name@,
                forall|j: int| 0 <= j < i ==> (#[trigger] self.entries@[j].0@) != name@,
            decreases n - i,
        {
            if self.entries[i].0 == key {
                return Some(i);
            }
            i = i + 1;
        }
        None
    }

    /// The record stored under `name`, if any.
    fn get(&self, name: &str) -> (r: Option<&Vec<u8>>)
        requires
            self.wf(),
        ensures
            match r {
                Some(v) => self@.contains_key(name@) && v@ == self@[name@],
                None => !self@.contains_key(name@),
            },
    {
        proof {
            lemma_assoc_map_char(self.entries@, name@);
        }
        match self.find(name) {
            Some(i) => Some(&self.entries[i].1),
            None => None,
        }
    }

    /// Stores `value` under `name`, replacing any previous record entirely.
    fn upsert(&mut self, name: &str, value: Vec<u8>)
        requires
            old(self).wf(),
        ensures
            final(self).wf(),
            final(self)@ == old(self)@.insert(name@, value@),
    {
        let ghost val = value@;
        self.delete(name);
        let key = name.to_owned();
        let ghost s0 = self.entries@;
        proof {
            lemma_assoc_map_char(s0, name@);
            assert(!assoc_map(s0).contains_key(name@));
            lemma_assoc_map_push(s0, (key, value));
        }
        self.entries.push((key, value));
        proof {
            assert(self@ =~= old(self)@.insert(name@, val));
            let s = self.entries@;
            let last = s.len() - 1;
            assert forall|i: int, j: int|
                #![trigger s[i].0@, s[j].0@]
                0 <= i < j < s.len() implies s[i].0@ != s[j].0@ by {
                if j == last {
                    assert(s[i] == s0[i]);
                    assert(s0[i].0@ != name@);
                } else {
                    assert(s[i] == s0[i] && s[j] == s0[j]);
                    assert(s0[i].0@ != s0[j].0@);
                }
            }
        }
    }

    /// Removes the record under `name`; removing an absent name changes
    /// nothing.
    fn delete(&mut self, name: &str)
        requires
            old(self).wf(),
        ensures
            final(self).wf(),
            final(self)@ == old(self)@.remove(name@),
    {
        proof {
            lemma_assoc_map_char(self.entries@, name@);
        }
        match self.find(name) {
            Some(i) => {
                proof {
                    lemma_assoc_map_remove(self.entries@, i as int);
                }
                self.entries.remove(i);
            },
            None => {
                proof {
                    assert(!old(self)@.contains_key(name@));
                    assert(old(self)@ =~= old(self)@.remove(name@));
                }
            },
        }
    }

    /// Every key, in index order.
    fn keys(&self) -> (r: Vec<String>)
        ensures
            name_views(r@) == self.key_seq(),
    {
        let n = self.entries.len();
        let mut out: Vec<String> = Vec::new();
        let mut i: usize = 0;
        while i < n
            invariant
                n == self.entries@.len(),
                i <= n,
                out@.len() == i,
                forall|j: int| 0 <= j < i ==> (#[trigger] out@[j])@ == self.entries@[j].0@,
            decreases n - i,
        {
            out.push(self.entries[i].0.clone());
            i = i + 1;
        }
        proof {
            assert forall|j: int| 0 <= j < out@.len() implies name_views(out@)[j]
                == self.key_seq()[j] by {
                assert(out@[j]@ == self.entries@[j].0@);
            }
            assert(name_views(out@) =~= self.key_seq());
        }
        out
    }

    /// The index's stored form.
    fn to_bytes(&self) -> (r: Vec<u8>)
        ensures
            r@ == spec_encode_index(entry_views(self.entries@)),
    {
        encode_index(&self.entries)
    }

    /// Every key of the map is some entry's key and conversely.
    proof fn lemma_keys_dom(&self)
        requires
            self.wf(),
        ensures
            forall|k: Seq<char>| #[trigger]
                self.key_seq().contains(k) <==> self@.contains_key(k),
            self.key_seq().no_duplicates(),
    {
        let ks = self.key_seq();
        let s = self.entries@;
        assert forall|k: Seq<char>| #[trigger] ks.contains(k) <==> self@.contains_key(k) by {
            lemma_assoc_map_char(s, k);
            if self@.contains_key(k) {
                let i = choose|i: int| 0 <= i < s.len() && (#[trigger] s[i].0@) == k;
                assert(ks[i] == k);
            }
            if ks.contains(k) {
                let j = choose|j: int| 0 <= j < ks.len() && ks[j] == k;
                assert(s[j].0@ == k);
            }
        }
        assert forall|i: int, j: int|
            0 <= i < ks.len() && 0 <= j < ks.len() && i != j implies ks[i] != ks[j] by {
            if i < j {
                assert(s[i].0@ != s[j].0@);
            } else {
                assert(s[j].0@ != s[i].0@);
            }
        }
    }
}

/// The manifest that splitting `data` into `cs`-sized blocks produces: the
/// blocks' digests and lengths, in order.
pub open spec fn manifest_for(data: Seq<u8>, cs: int) -> Seq<ChunkRef> {
    chunks_of(data, cs).map_values(
        |p: Seq<u8>| ChunkRef { hash: sha256_hex_of(p), size: p.len() as u64 },
    )
}

/// What `put_file` leaves behind on success: the index maps `name` to the
/// encoding of a well-formed record `m` whose manifest is the manifest of
/// `data`, whose size is the byte count, and whose creation timestamp is
/// preserved from a previous record under the same name if one decodes.
pub open spec fn stored_record(
    db_old: Map<Seq<char>, Seq<u8>>,
    db_new: Map<Seq<char>, Seq<u8>>,
    name: Seq<char>,
    data: Seq<u8>,
    cs: int,
    mime: Option<Seq<char>>,
    m: FileMetaView,
) -> bool {
    &&& db_new == db_old.insert(name, spec_encode(m))
    &&& m.name == name
    &&& m.size as nat == data.len()
    &&& m.chunks == manifest_for(data, cs)
    &&& m.mime_type == mime
    &&& wf_meta(m)
    &&& (db_old.contains_key(name) && spec_decode(db_old[name]) is Some ==> m.created_at
        == spec_decode(db_old[name])->0.created_at)
    &&& (!db_old.contains_key(name) ==> m.created_at == m.modified_at)
}

/// `data` is a concatenation of one piece per manifest entry, each piece
/// hashing to its entry's digest.
pub open spec fn reconstructs(chunks: Seq<ChunkRef>, data: Seq<u8>) -> bool {
    exists|pieces: Seq<Seq<u8>>|
        {
            &&& (#[trigger] pieces.flatten()) == data
            &&& pieces.len() == chunks.len()
            &&& forall|i: int|
                0 <= i < pieces.len() ==> sha256_hex_of(#[trigger] pieces[i]) == chunks[i].hash
        }
}

/// The whole-file API: put, get, delete, and list over names.
pub struct FileStorage {
    chunk_manager: ChunkManager,
    index: FileIndex,
    index_path: String,
    index_temp_path: String,
}

impl View for FileStorage {
    type V = Map<Seq<char>, Seq<u8>>;

    closed spec fn view(&self) -> Map<Seq<char>, Seq<u8>> {
        self.index@
    }
}

impl FileStorage {
    /// The configured chunk size.
    pub closed spec fn spec_chunk_size(&self) -> usize {
        self.chunk_manager.spec_chunk_size()
    }

    /// Internal consistency: the chunk size is positive, the index keys are
    /// unique, and every stored value is the encoding of a well-formed
    /// record.
    pub closed spec fn wf(&self) -> bool {
        &&& self.chunk_manager.wf()
        &&& self.index.wf()
        &&& forall|k: Seq<char>| #[trigger]
            self@.contains_key(k) ==> exists|m: FileMetaView|
                wf_meta(m) && self@[k] == spec_encode(m)
    }

    /// A store rooted at `root_path` with the given chunk size. The durable
    /// index is loaded from `file_db/index` under the root if that file is
    /// present, so names stored by an earlier process reappear; a fresh root
    /// starts empty. Each loaded record is decoded and re-encoded, so only
    /// well-formed records enter the index; an index file that does not
    /// parse is the decode error.
    #[verifier::loop_isolation(false)]
    pub fn new(root_path: &str, chunk_size: usize) -> (r: Result<FileStorage, VyomError>)
        requires
            chunk_size >= 1,
        ensures
            match r {
                Ok(s) => s.wf() && s.spec_chunk_size() == chunk_size,
                Err(e) => e is Chunk || e is Decode,
            },
    {
        let chunk_manager = match ChunkManager::new(root_path, chunk_size) {
            Ok(m) => m,
            Err(e) => {
                return Err(VyomError::Chunk(e));
            },
        };
        let index_dir = root_path.to_owned().concat("/file_db");
        if let Err(m) = fs_create_dir_all(chunk_manager.storage.runtime(), index_dir.as_str()) {
            return Err(VyomError::Chunk(ChunkError::Io(m)));
        }
        let index_path = root_path.to_owned().concat("/file_db/index");
        let index_temp_path = root_path.to_owned().concat("/temp/index");
        let mut index = FileIndex::new();
        if fs_exists(chunk_manager.storage.runtime(), index_path.as_str()) {
            let bytes = match fs_read(chunk_manager.storage.runtime(), index_path.as_str()) {
                Ok(b) => b,
                Err(m) => {
                    return Err(VyomError::Chunk(ChunkError::Io(m)));
                },
            };
            let mut entries = match decode_index(bytes.as_slice()) {
                Some(v) => v,
                None => {
                    return Err(VyomError::Decode);
                },
            };
            while entries.len() > 0
                invariant
                    index.wf(),
                    forall|k: Seq<char>| #[trigger]
                        index@.contains_key(k) ==> exists|m: FileMetaView|
                            wf_meta(m) && index@[k] == spec_encode(m),
                decreases entries@.len(),
            {
                let (name, value) = entries.remove(0);
                let meta = match decode(value.as_slice()) {
                    Some(m) => m,
                    None => {
                        return Err(VyomError::Decode);
                    },
                };
                let canonical = encode(&meta);
                let ghost prev = index@;
                index.upsert(name.as_str(), canonical);
                proof {
                    assert forall|k: Seq<char>| #[trigger]
                        index@.contains_key(k) implies exists|m: FileMetaView|
                        wf_meta(m) && index@[k] == spec_encode(m) by {
                        if k == name@ {
                            assert(wf_meta(meta@) && index@[k] == spec_encode(meta@));
                        } else {
                            assert(prev.contains_key(k));
                        }
                    }
                }
            }
        }
        Ok(FileStorage { chunk_manager, index, index_path, index_temp_path })
    }

    /// Writes the index to its durable file: staged in the temp directory,
    /// forced to disk, then renamed onto `file_db/index`, so the on-disk
    /// index is observed wholly old or wholly new, never partial.
    fn persist_index(&self) -> (r: Result<(), VyomError>)
        ensures
            r is Err ==> r->Err_0 is Chunk,
    {
        let bytes = self.index.to_bytes();
        let rt = self.chunk_manager.storage.runtime();
        let mut file = match fs_file_create(rt, self.index_temp_path.as_str()) {
            Ok(f) => f,
            Err(m) => {
                return Err(VyomError::Chunk(ChunkError::Io(m)));
            },
        };
        if let Err(m) = fs_write_all(rt, &mut file, bytes.as_slice()) {
            return Err(VyomError::Chunk(ChunkError::Io(m)));
        }
        if let Err(m) = fs_sync_all(rt, &file) {
            return Err(VyomError::Chunk(ChunkError::Io(m)));
        }
        if let Err(m) = fs_rename(rt, self.index_temp_path.as_str(), self.index_path.as_str()) {
            return Err(VyomError::Chunk(ChunkError::Io(m)));
        }
        Ok(())
    }

    /// Splits `data` into chunks, stores each, and replaces whatever record
    /// `file_name` had with the new one: last writer wins, nothing is
    /// merged. The record's size is the byte count, its manifest lists the
    /// blocks in stream order, and its creation timestamp carries over from
    /// a previous record under the same name. The updated index is then
    /// written to its durable file; if that write fails the error is
    /// surfaced with the in-memory record already in place.
    pub fn put_file(&mut self, file_name: &str, data: &[u8], mime_type: Option<String>) -> (r:
        Result<(), VyomError>)
        requires
            old(self).wf(),
        ensures
            final(self).wf(),
            final(self).spec_chunk_size() == old(self).spec_chunk_size(),
            match r {
                Ok(()) => exists|m: FileMetaView| #[trigger]
                    stored_record(
                        old(self)@,
                        final(self)@,
                        file_name@,
                        data@,
                        old(self).spec_chunk_size() as int,
                        opt_str_view(mime_type),
                        m,
                    ),
                Err(e) => e is Chunk && (final(self)@ == old(self)@ || exists|m: FileMetaView|
                    #[trigger] stored_record(
                        old(self)@,
                        final(self)@,
                        file_name@,
                        data@,
                        old(self).spec_chunk_size() as int,
                        opt_str_view(mime_type),
                        m,
                    )),
            },
    {
        let chunks = match self.chunk_manager.chunk_file(data) {
            Ok(c) => c,
            Err(e) => {
                return Err(VyomError::Chunk(e));
            },
        };
        // Observing these lengths bounds the record's variable-sized parts,
        // which the record's well-formedness states.
        let _manifest_len = chunks.len();
        let _name_len = file_name.as_bytes().len();
        match &mime_type {
            Some(s) => {
                let _mime_len = s.as_str().as_bytes().len();
            },
            None => {},
        }
        let size = data.len() as u64;
        let prev_created: Option<i64> = match self.index.get(file_name) {
            Some(bytes) => match decode(bytes.as_slice()) {
                Some(old_meta) => Some(old_meta.created_at()),
                None => None,
            },
            None => None,
        };
        let meta = match prev_created {
            Some(c) => {
                let now = now_millis();
                FileMetadata::from_parts(file_name.to_owned(), size, c, now, chunks, mime_type)
            },
            None => FileMetadata::new(file_name.to_owned(), size, chunks, mime_type),
        };
        proof {
            let cs = self.spec_chunk_size() as int;
            assert(meta@.chunks =~= manifest_for(data@, cs));
        }
        let encoded = encode(&meta);
        self.index.upsert(file_name, encoded);
        proof {
            let m = meta@;
            assert(stored_record(
                old(self)@,
                self@,
                file_name@,
                data@,
                old(self).spec_chunk_size() as int,
                opt_str_view(mime_type),
                m,
            ));
            assert forall|k: Seq<char>| #[trigger]
                self@.contains_key(k) implies exists|mm: FileMetaView|
                wf_meta(mm) && self@[k] == spec_encode(mm) by {
                if k == file_name@ {
                    assert(wf_meta(m) && self@[k] == spec_encode(m));
                } else {
                    assert(old(self)@.contains_key(k));
                }
            }
        }
        self.persist_index()
    }

    /// Looks the name up, fetches each chunk in manifest order, verifies it,
    /// and concatenates. Absence is `Ok(None)`; a missing or corrupt chunk
    /// is an error, never partial data. The record found under a stored name
    /// always decodes, so the returned metadata's encoding is exactly the
    /// stored value.
    #[verifier::loop_isolation(false)]
    pub fn get_file(&self, file_name: &str) -> (r: Result<
        Option<(Vec<u8>, FileMetadata)>,
        VyomError,
    >)
        requires
            self.wf(),
        ensures
            match r {
                Ok(opt) => match opt {
                    None => !self@.contains_key(file_name@),
                    Some((data, meta)) => {
                        &&& self@.contains_key(file_name@)
                        &&& spec_encode(meta@) == self@[file_name@]
                        &&& wf_meta(meta@)
                        &&& reconstructs(meta@.chunks, data@)
                    },
                },
                Err(e) => self@.contains_key(file_name@) && e is Chunk,
            },
            forall|m: FileMetaView|
                (wf_meta(m) && self@.contains_key(file_name@) && self@[file_name@]
                    == #[trigger] spec_encode(m) && m.chunks.len() == 0) ==> r is Ok,
    {
        let bytes = match self.index.get(file_name) {
            Some(b) => b,
            None => {
                return Ok(None);
            },
        };
        let meta = match decode(bytes.as_slice()) {
            Some(m) => m,
            None => {
                proof {
                    let m = choose|m: FileMetaView|
                        wf_meta(m) && self@[file_name@] == spec_encode(m);
                    lemma_decode_encode(m);
                }
                return Err(VyomError::Decode);
            },
        };
        proof {
            let m = choose|m: FileMetaView| wf_meta(m) && self@[file_name@] == spec_encode(m);
            lemma_decode_encode(m);
            assert(meta@ == m);
        }
        let chunk_slice = meta.chunks();
        let n = chunk_slice.len();
        let mut data: Vec<u8> = Vec::new();
        let ghost mut pieces: Seq<Seq<u8>> = Seq::empty();
        proof {
            assert(Seq::<Seq<u8>>::empty().flatten() =~= Seq::<u8>::empty());
        }
        let mut i: usize = 0;
        while i < n
            invariant
                self.wf(),
                n == chunk_slice@.len(),
                crate::file::chunk_views(chunk_slice@) == meta@.chunks,
                wf_meta(meta@),
                i <= n,
                pieces.len() == i,
                data@ == pieces.flatten(),
                forall|j: int|
                    0 <= j < i ==> sha256_hex_of(#[trigger] pieces[j]) == meta@.chunks[j].hash,
            decreases n - i,
        {
            let c = vstd::slice::slice_index_get(chunk_slice, i);
            proof {
                assert(c@ == meta@.chunks[i as int]);
                assert(crate::chunk::wf_chunk_ref(meta@.chunks[i as int]));
            }
            let piece = match self.chunk_manager.storage.get_chunk(c.hash()) {
                Ok(p) => p,
                Err(e) => {
                    proof {
                        // A chunk was fetched, so the stored record's
                        // manifest is not empty.
                        assert forall|m: FileMetaView|
                            wf_meta(m) && self@[file_name@] == #[trigger] spec_encode(
                                m,
                            ) implies m.chunks.len() > 0 by {
                            lemma_encode_injective(m, meta@);
                        }
                    }
                    return Err(VyomError::Chunk(e));
                },
            };
            let ghost old_pieces = pieces;
            proof {
                pieces = pieces.push(piece@);
                old_pieces.lemma_flatten_push(piece@);
            }
            let mut pv = piece;
            data.append(&mut pv);
            i = i + 1;
        }
        proof {
            assert(pieces.len() == meta@.chunks.len());
            assert(pieces.flatten() == data@);
            assert(reconstructs(meta@.chunks, data@));
        }
        Ok(Some((data, meta)))
    }

    /// Removes only the index entry for `file_name`; the chunks it
    /// referenced stay on disk untouched, so other names sharing them are
    /// unaffected. Removing an absent name is not an error. The updated
    /// index is then written to its durable file; a failed write is
    /// surfaced, with the entry already gone from the in-memory index.
    pub fn del_file(&mut self, file_name: &str) -> (r: Result<(), VyomError>)
        requires
            old(self).wf(),
        ensures
            final(self).wf(),
            final(self).spec_chunk_size() == old(self).spec_chunk_size(),
            final(self)@ == old(self)@.remove(file_name@),
            r is Err ==> r->Err_0 is Chunk,
    {
        self.index.delete(file_name);
        proof {
            assert forall|k: Seq<char>| #[trigger]
                self@.contains_key(k) implies exists|mm: FileMetaView|
                wf_meta(mm) && self@[k] == spec_encode(mm) by {
                assert(old(self)@.contains_key(k));
            }
        }
        self.persist_index()
    }

    /// Every stored name, without duplicates.
    pub fn all_files(&self) -> (r: Result<Vec<String>, VyomError>)
        requires
            self.wf(),
        ensures
            r is Ok,
            name_views((r->Ok_0)@).no_duplicates(),
            forall|k: Seq<char>|
                #![trigger name_views((r->Ok_0)@).contains(k)]
                #![trigger self@.contains_key(k)]
                name_views((r->Ok_0)@).contains(k) <==> self@.contains_key(k),
    {
        proof {
            self.index.lemma_keys_dom();
        }
        Ok(self.index.keys())
    }
}

/// A well-formed store has a positive chunk size, so the chunking laws
/// apply to its configured size.
pub proof fn lemma_wf_chunk_size(s: &FileStorage)
    requires
        s.wf(),
    ensures
        s.spec_chunk_size() >= 1,
{
}

/// A lookup after a store-then-delete of the same name reports absence:
/// deleting removes exactly that key from the index.
pub proof fn lemma_put_delete_get_absent(
    db: Map<Seq<char>, Seq<u8>>,
    name: Seq<char>,
    record: Seq<u8>,
)
    ensures
        !db.insert(name, record).remove(name).contains_key(name),
{
}

/// Storing twice under one name keeps only the second record: the index is
/// last-writer-wins.
pub proof fn lemma_overwrite_last_wins(
    db: Map<Seq<char>, Seq<u8>>,
    name: Seq<char>,
    first: Seq<u8>,
    second: Seq<u8>,
)
    ensures
        db.insert(name, first).insert(name, second)[name] == second,
        db.insert(name, first).insert(name, second) == db.insert(name, second),
{
    assert(db.insert(name, first).insert(name, second) =~= db.insert(name, second));
}

/// Creating two names in an empty store and deleting the first leaves
/// exactly the second.
pub proof fn lemma_list_after_delete(
    a: Seq<char>,
    b: Seq<char>,
    ra: Seq<u8>,
    rb: Seq<u8>,
)
    requires
        a != b,
    ensures
        Map::<Seq<char>, Seq<u8>>::empty().insert(a, ra).insert(b, rb).remove(a).dom() =~= set![b],
{
}

/// The whole-file round trip, over the store's own contracts: after a store
/// of `data` under `name`, any well-formed record that encodes to the bytes
/// now indexed under `name` is the stored record itself — the encoding is
/// injective — and the original `data` is a reconstruction of its manifest.
/// A fetch that hands back the stored blocks therefore returns exactly
/// `data`; two distinct byte contents could only collide by sharing a
/// digest.
pub proof fn lemma_round_trip(
    db_old: Map<Seq<char>, Seq<u8>>,
    db_new: Map<Seq<char>, Seq<u8>>,
    name: Seq<char>,
    data: Seq<u8>,
    cs: int,
    mime: Option<Seq<char>>,
    stored: FileMetaView,
    fetched: FileMetaView,
)
    requires
        cs >= 1,
        stored_record(db_old, db_new, name, data, cs, mime, stored),
        wf_meta(fetched),
        spec_encode(fetched) == db_new[name],
    ensures
        fetched == stored,
        reconstructs(fetched.chunks, data),
{
    lemma_encode_injective(fetched, stored);
    lemma_round_trip_core(data, cs);
}

/// Overwrite semantics, over the store's own contracts: after storing `b1`
/// and then `b2` under one name, the indexed record is the second one; its
/// manifest is the manifest of `b2`, with one entry per fixed-size block of
/// `b2`, and `b2` is a reconstruction of it.
pub proof fn lemma_overwrite(
    db0: Map<Seq<char>, Seq<u8>>,
    db1: Map<Seq<char>, Seq<u8>>,
    db2: Map<Seq<char>, Seq<u8>>,
    name: Seq<char>,
    b1: Seq<u8>,
    b2: Seq<u8>,
    cs: int,
    mime1: Option<Seq<char>>,
    mime2: Option<Seq<char>>,
    m1: FileMetaView,
    m2: FileMetaView,
)
    requires
        cs >= 1,
        stored_record(db0, db1, name, b1, cs, mime1, m1),
        stored_record(db1, db2, name, b2, cs, mime2, m2),
    ensures
        db2[name] == spec_encode(m2),
        m2.chunks == manifest_for(b2, cs),
        m2.chunks.len() == chunk_count(b2.len() as int, cs),
        reconstructs(m2.chunks, b2),
{
    lemma_manifest_len(b2, cs);
    lemma_round_trip_core(b2, cs);
}

/// A manifest has one entry per fixed-size block: the ceiling of the byte
/// count over the chunk size.
pub proof fn lemma_manifest_len(data: Seq<u8>, cs: int)
    requires
        cs >= 1,
    ensures
        manifest_for(data, cs).len() == chunk_count(data.len() as int, cs),
{
}

/// The round trip's mathematical core: the blocks that `put_file` stores for
/// `data` reconstruct exactly `data`. A fetch that returns the stored blocks
/// themselves therefore yields the original bytes.
pub proof fn lemma_round_trip_core(data: Seq<u8>, cs: int)
    requires
        cs >= 1,
    ensures
        reconstructs(manifest_for(data, cs), data),
{
    let pieces = chunks_of(data, cs);
    lemma_chunks_of_flatten(data, cs);
    assert(pieces.flatten() == data);
    assert(forall|i: int|
        0 <= i < pieces.len() ==> sha256_hex_of(#[trigger] pieces[i]) == manifest_for(
            data,
            cs,
        )[i].hash);
}

} // verus!
