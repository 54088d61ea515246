//! The stored form of a file metadata record.
//!
//! A record is framed as length-prefixed fields: the name, the size, the two
//! timestamps, the optional MIME type behind a presence byte, and the
//! manifest as a count followed by hash/size pairs. Integers are
//! little-endian `u64`; strings are their UTF-8 bytes behind a `u64` length.
//!
//! `spec_decode` is the exact inverse of `spec_encode` on well-formed
//! records (`lemma_decode_encode`), so the encoding is injective
//! (`lemma_encode_injective`); the executable `encode` and `decode` refine
//! the two to the byte.

use vstd::prelude::*;
use vstd::bytes::{
    lemma_auto_spec_u64_to_from_le_bytes, spec_u64_from_le_bytes, spec_u64_to_le_bytes,
    u64_from_le_bytes, u64_to_le_bytes,
};
use vstd::slice::{slice_index_get, slice_subrange, slice_to_vec};
use vstd::utf8::{
    decode_utf8, encode_utf8, encode_utf8_decode_utf8, encode_utf8_valid_utf8,
    is_ascii_chars_encode_utf8, valid_utf8,
};
use crate::chunk::{wf_chunk_ref, ChunkHash, ChunkMetadata, ChunkRef};
use crate::file::{chunk_views, opt_str_view, wf_meta, FileMetaView, FileMetadata};
use crate::hashing::{bytes_to_string, check_hash_str, is_hash_str, lemma_hash_str_ascii};

verus! {

/// A `u64` as its eight little-endian bytes.
pub open spec fn enc_u64(x: u64) -> Seq<u8> {
    spec_u64_to_le_bytes(x)
}

/// A byte string behind its length.
pub open spec fn enc_bytes(v: Seq<u8>) -> Seq<u8> {
    enc_u64(v.len() as u64) + v
}

/// A string as its UTF-8 bytes behind their length.
pub open spec fn enc_str(s: Seq<char>) -> Seq<u8> {
    enc_bytes(encode_utf8(s))
}

/// One manifest entry: the hash string, then the chunk length.
pub open spec fn enc_chunk(c: ChunkRef) -> Seq<u8> {
    enc_str(c.hash) + enc_u64(c.size)
}

/// The manifest entries, in order.
pub open spec fn enc_chunks(cs: Seq<ChunkRef>) -> Seq<u8>
    decreases cs.len(),
{
    if cs.len() == 0 {
        Seq::empty()
    } else {
        enc_chunk(cs[0]) + enc_chunks(cs.drop_first())
    }
}

/// The optional MIME type: a presence byte, then the string if present.
pub open spec fn enc_mime(o: Option<Seq<char>>) -> Seq<u8> {
    match o {
        None => seq![0u8],
        Some(s) => seq![1u8] + enc_str(s),
    }
}

/// The encoding of a whole record.
pub open spec fn spec_encode(m: FileMetaView) -> Seq<u8> {
    enc_str(m.name) + enc_u64(m.size) + enc_u64(m.created_at as u64) + enc_u64(
        m.modified_at as u64,
    ) + enc_mime(m.mime_type) + enc_u64(m.chunks.len() as u64) + enc_chunks(m.chunks)
}

/// Reads a `u64` at offset `o`; the new offset follows it.
pub open spec fn sd_u64(b: Seq<u8>, o: int) -> Option<(u64, int)> {
    if 0 <= o && o + 8 <= b.len() {
        Some((spec_u64_from_le_bytes(b.subrange(o, o + 8)), o + 8))
    } else {
        None
    }
}

/// Reads a length-prefixed byte string at offset `o`.
pub open spec fn sd_bytes(b: Seq<u8>, o: int) -> Option<(Seq<u8>, int)> {
    match sd_u64(b, o) {
        Some((n, o1)) => if o1 + n <= b.len() {
            Some((b.subrange(o1, o1 + n), o1 + n))
        } else {
            None
        },
        None => None,
    }
}

/// Reads a length-prefixed UTF-8 string at offset `o`.
pub open spec fn sd_str(b: Seq<u8>, o: int) -> Option<(Seq<char>, int)> {
    match sd_bytes(b, o) {
        Some((v, o1)) => if valid_utf8(v) {
            Some((decode_utf8(v), o1))
        } else {
            None
        },
        None => None,
    }
}

/// Reads `k` manifest entries at offset `o`.
pub open spec fn sd_chunks(b: Seq<u8>, o: int, k: nat) -> Option<(Seq<ChunkRef>, int)>
    decreases k,
{
    if k == 0 {
        Some((Seq::empty(), o))
    } else {
        match sd_str(b, o) {
            Some((h, o1)) => if is_hash_str(h) {
                match sd_u64(b, o1) {
                    Some((sz, o2)) => match sd_chunks(b, o2, (k - 1) as nat) {
                        Some((rest, o3)) => Some((seq![ChunkRef { hash: h, size: sz }] + rest, o3)),
                        None => None,
                    },
                    None => None,
                }
            } else {
                None
            },
            None => None,
        }
    }
}

/// Reads the optional MIME type at offset `o`.
pub open spec fn sd_mime(b: Seq<u8>, o: int) -> Option<(Option<Seq<char>>, int)> {
    if 0 <= o && o < b.len() {
        if b[o] == 0 {
            Some((None, o + 1))
        } else if b[o] == 1 {
            match sd_str(b, o + 1) {
                Some((s, o1)) => Some((Some(s), o1)),
                None => None,
            }
        } else {
            None
        }
    } else {
        None
    }
}

/// The record encoded in `b`, if `b` is exactly one record's encoding.
pub open spec fn spec_decode(b: Seq<u8>) -> Option<FileMetaView> {
    match sd_str(b, 0) {
        Some((name, o1)) => match sd_u64(b, o1) {
            Some((size, o2)) => match sd_u64(b, o2) {
                Some((created, o3)) => match sd_u64(b, o3) {
                    Some((modified, o4)) => match sd_mime(b, o4) {
                        Some((mime, o5)) => match sd_u64(b, o5) {
                            Some((n, o6)) => match sd_chunks(b, o6, n as nat) {
                                Some((chunks, o7)) => if o7 == b.len() {
                                    Some(
                                        FileMetaView {
                                            name,
                                            size,
                                            created_at: created as i64,
                                            modified_at: modified as i64,
                                            chunks,
                                            mime_type: mime,
                                        },
                                    )
                                } else {
                                    None
                                },
                                None => None,
                            },
                            None => None,
                        },
                        None => None,
                    },
                    None => None,
                },
                None => None,
            },
            None => None,
        },
        None => None,
    }
}

/// `p` occurs in `b` at offset `o`.
pub open spec fn has_at(b: Seq<u8>, o: int, p: Seq<u8>) -> bool {
    &&& 0 <= o
    &&& o + p.len() <= b.len()
    &&& b.subrange(o, o + p.len() as int) == p
}

proof fn lemma_has_at_concat(b: Seq<u8>, o: int, p: Seq<u8>, q: Seq<u8>)
    requires
        has_at(b, o, p + q),
    ensures
        has_at(b, o, p),
        has_at(b, o + p.len(), q),
{
    let pq = p + q;
    assert forall|i: int| 0 <= i < p.len() implies b.subrange(o, o + p.len() as int)[i] == p[i] by {
        assert(pq[i] == b.subrange(o, o + pq.len() as int)[i]);
    }
    assert(b.subrange(o, o + p.len() as int) =~= p);
    assert forall|i: int|
        0 <= i < q.len() implies b.subrange(o + p.len(), o + p.len() + q.len() as int)[i]
        == q[i] by {
        assert(pq[p.len() + i] == b.subrange(o, o + pq.len() as int)[p.len() + i]);
    }
    assert(b.subrange(o + p.len(), o + p.len() + q.len() as int) =~= q);
}

proof fn lemma_sd_u64_at(b: Seq<u8>, o: int, x: u64)
    requires
        has_at(b, o, enc_u64(x)),
    ensures
        sd_u64(b, o) == Some((x, o + 8)),
{
    lemma_auto_spec_u64_to_from_le_bytes();
    assert(b.subrange(o, o + 8) == spec_u64_to_le_bytes(x));
}

proof fn lemma_sd_bytes_at(b: Seq<u8>, o: int, v: Seq<u8>)
    requires
        has_at(b, o, enc_bytes(v)),
        v.len() <= u64::MAX,
    ensures
        sd_bytes(b, o) == Some((v, o + 8 + v.len())),
{
    lemma_auto_spec_u64_to_from_le_bytes();
    lemma_has_at_concat(b, o, enc_u64(v.len() as u64), v);
    lemma_sd_u64_at(b, o, v.len() as u64);
    assert(b.subrange(o + 8, o + 8 + v.len() as int) =~= v);
}

proof fn lemma_sd_str_at(b: Seq<u8>, o: int, s: Seq<char>)
    requires
        has_at(b, o, enc_str(s)),
        encode_utf8(s).len() <= u64::MAX,
    ensures
        sd_str(b, o) == Some((s, o + 8 + encode_utf8(s).len())),
{
    lemma_sd_bytes_at(b, o, encode_utf8(s));
    encode_utf8_valid_utf8(s);
    encode_utf8_decode_utf8(s);
}

proof fn lemma_sd_chunks_at(b: Seq<u8>, o: int, cs: Seq<ChunkRef>)
    requires
        has_at(b, o, enc_chunks(cs)),
        forall|i: int| 0 <= i < cs.len() ==> wf_chunk_ref(#[trigger] cs[i]),
    ensures
        sd_chunks(b, o, cs.len()) == Some((cs, o + enc_chunks(cs).len())),
    decreases cs.len(),
{
    lemma_auto_spec_u64_to_from_le_bytes();
    if cs.len() == 0 {
        assert(cs =~= Seq::<ChunkRef>::empty());
    } else {
        let c = cs[0];
        let rest = cs.drop_first();
        lemma_has_at_concat(b, o, enc_chunk(c), enc_chunks(rest));
        lemma_has_at_concat(b, o, enc_str(c.hash), enc_u64(c.size));
        lemma_hash_str_ascii(c.hash);
        is_ascii_chars_encode_utf8(c.hash);
        lemma_sd_str_at(b, o, c.hash);
        lemma_sd_u64_at(b, o + 8 + encode_utf8(c.hash).len(), c.size);
        lemma_sd_chunks_at(b, o + enc_chunk(c).len(), rest);
        assert(seq![c] + rest =~= cs);
    }
}

proof fn lemma_sd_mime_at(b: Seq<u8>, o: int, mt: Option<Seq<char>>)
    requires
        has_at(b, o, enc_mime(mt)),
        mt is Some ==> encode_utf8(mt->0).len() <= u64::MAX,
    ensures
        sd_mime(b, o) == Some((mt, o + enc_mime(mt).len())),
{
    lemma_auto_spec_u64_to_from_le_bytes();
    match mt {
        None => {
            assert(enc_mime(mt).len() == 1);
            assert(b.subrange(o, o + 1)[0] == b[o]);
            assert(enc_mime(mt)[0] == 0);
            assert(b[o] == 0);
        },
        Some(s) => {
            lemma_has_at_concat(b, o, seq![1u8], enc_str(s));
            assert(b.subrange(o, o + 1)[0] == b[o]);
            assert(b[o] == 1);
            lemma_sd_str_at(b, o + 1, s);
        },
    }
}

/// Decoding inverts encoding: a well-formed record is recovered exactly from
/// its stored form.
pub proof fn lemma_decode_encode(m: FileMetaView)
    requires
        wf_meta(m),
    ensures
        spec_decode(spec_encode(m)) == Some(m),
{
    let b = spec_encode(m);
    lemma_auto_spec_u64_to_from_le_bytes();
    let p1 = enc_str(m.name);
    let p2 = enc_u64(m.size);
    let p3 = enc_u64(m.created_at as u64);
    let p4 = enc_u64(m.modified_at as u64);
    let p5 = enc_mime(m.mime_type);
    let p6 = enc_u64(m.chunks.len() as u64);
    let p7 = enc_chunks(m.chunks);
    assert(has_at(b, 0, b)) by {
        assert(b.subrange(0, b.len() as int) =~= b);
    }
    lemma_has_at_concat(b, 0, p1 + p2 + p3 + p4 + p5 + p6, p7);
    lemma_has_at_concat(b, 0, p1 + p2 + p3 + p4 + p5, p6);
    lemma_has_at_concat(b, 0, p1 + p2 + p3 + p4, p5);
    lemma_has_at_concat(b, 0, p1 + p2 + p3, p4);
    lemma_has_at_concat(b, 0, p1 + p2, p3);
    lemma_has_at_concat(b, 0, p1, p2);
    lemma_sd_str_at(b, 0, m.name);
    let o1 = p1.len() as int;
    lemma_sd_u64_at(b, o1, m.size);
    lemma_sd_u64_at(b, o1 + 8, m.created_at as u64);
    lemma_sd_u64_at(b, o1 + 16, m.modified_at as u64);
    lemma_sd_mime_at(b, o1 + 24, m.mime_type);
    let o5 = o1 + 24 + p5.len() as int;
    lemma_sd_u64_at(b, o5, m.chunks.len() as u64);
    lemma_sd_chunks_at(b, o5 + 8, m.chunks);
    let ca = m.created_at;
    let ma = m.modified_at;
    assert(((ca as u64) as i64) == ca) by (bit_vector);
    assert(((ma as u64) as i64) == ma) by (bit_vector);
    assert(spec_decode(b)->0 =~= m);
}

/// The encoding is injective on well-formed records.
pub proof fn lemma_encode_injective(m1: FileMetaView, m2: FileMetaView)
    requires
        wf_meta(m1),
        wf_meta(m2),
        spec_encode(m1) == spec_encode(m2),
    ensures
        m1 == m2,
{
    lemma_decode_encode(m1);
    lemma_decode_encode(m2);
}

fn write_u64(out: &mut Vec<u8>, x: u64)
    ensures
        final(out)@ == old(out)@ + enc_u64(x),
{
    let mut bs = u64_to_le_bytes(x);
    out.append(&mut bs);
}

fn write_str(out: &mut Vec<u8>, s: &str)
    ensures
        final(out)@ == old(out)@ + enc_str(s@),
{
    let bs = s.as_bytes();
    let n = bs.len();
    write_u64(out, n as u64);
    let mut bv = slice_to_vec(bs);
    out.append(&mut bv);
    proof {
        assert(final(out)@ =~= old(out)@ + enc_str(s@));
    }
}

/// Serializes a record to its stored form.
pub fn encode(m: &FileMetadata) -> (r: Vec<u8>)
    ensures
        r@ == spec_encode(m@),
{
    let mut out: Vec<u8> = Vec::new();
    write_str(&mut out, m.name());
    write_u64(&mut out, m.size());
    write_u64(&mut out, m.created_at() as u64);
    write_u64(&mut out, m.modified_at() as u64);
    match m.mime_type() {
        None => {
            out.push(0);
            proof {
                assert(out@ =~= enc_str(m@.name) + enc_u64(m@.size) + enc_u64(
                    m@.created_at as u64,
                ) + enc_u64(m@.modified_at as u64) + enc_mime(m@.mime_type));
            }
        },
        Some(s) => {
            out.push(1);
            write_str(&mut out, s);
            proof {
                assert(out@ =~= enc_str(m@.name) + enc_u64(m@.size) + enc_u64(
                    m@.created_at as u64,
                ) + enc_u64(m@.modified_at as u64) + enc_mime(m@.mime_type));
            }
        },
    }
    let chunks = m.chunks();
    let n = chunks.len();
    write_u64(&mut out, n as u64);
    let ghost head = enc_str(m@.name) + enc_u64(m@.size) + enc_u64(m@.created_at as u64)
        + enc_u64(m@.modified_at as u64) + enc_mime(m@.mime_type) + enc_u64(
        m@.chunks.len() as u64,
    );
    let mut i: usize = 0;
    while i < n
        invariant
            n == chunks@.len(),
            chunk_views(chunks@) == m@.chunks,
            i <= n,
            out@ == head + enc_chunks(m@.chunks.subrange(0, i as int)),
        decreases n - i,
    {
        let c = slice_index_get(chunks, i);
        write_str(&mut out, c.hash().as_str());
        write_u64(&mut out, c.size());
        proof {
            lemma_enc_chunks_push(m@.chunks.subrange(0, i as int), m@.chunks[i as int]);
            assert(m@.chunks.subrange(0, i + 1) =~= m@.chunks.subrange(0, i as int).push(
                m@.chunks[i as int],
            ));
            assert(out@ =~= head + enc_chunks(m@.chunks.subrange(0, i + 1)));
        }
        i = i + 1;
    }
    proof {
        assert(m@.chunks.subrange(0, n as int) =~= m@.chunks);
        assert(out@ =~= spec_encode(m@));
    }
    out
}

proof fn lemma_enc_chunks_push(cs: Seq<ChunkRef>, c: ChunkRef)
    ensures
        enc_chunks(cs.push(c)) == enc_chunks(cs) + enc_chunk(c),
    decreases cs.len(),
{
    let p = cs.push(c);
    if cs.len() == 0 {
        assert(p[0] == c);
        assert(p.drop_first() =~= Seq::<ChunkRef>::empty());
        assert(enc_chunks(Seq::<ChunkRef>::empty()) == Seq::<u8>::empty());
        assert(enc_chunks(p) == enc_chunk(c) + Seq::<u8>::empty());
        assert(enc_chunk(c) + Seq::<u8>::empty() =~= enc_chunk(c));
        assert(enc_chunks(cs) == Seq::<u8>::empty());
        assert(Seq::<u8>::empty() + enc_chunk(c) =~= enc_chunk(c));
    } else {
        lemma_enc_chunks_push(cs.drop_first(), c);
        assert(p.drop_first() =~= cs.drop_first().push(c));
        assert(p[0] == cs[0]);
        assert(enc_chunks(p) == enc_chunk(cs[0]) + enc_chunks(cs.drop_first().push(c)));
        assert(enc_chunks(p) == enc_chunk(cs[0]) + (enc_chunks(cs.drop_first()) + enc_chunk(c)));
        assert(enc_chunk(cs[0]) + (enc_chunks(cs.drop_first()) + enc_chunk(c)) =~= (enc_chunk(
            cs[0],
        ) + enc_chunks(cs.drop_first())) + enc_chunk(c));
        assert(enc_chunks(cs) == enc_chunk(cs[0]) + enc_chunks(cs.drop_first()));
    }
}

fn read_u64(b: &[u8], o: usize) -> (r: Option<(u64, usize)>)
    requires
        o <= b@.len(),
    ensures
        match r {
            Some((x, o2)) => sd_u64(b@, o as int) == Some((x, o2 as int)) && o2 <= b@.len(),
            None => sd_u64(b@, o as int) is None,
        },
{
    if b.len() - o >= 8 {
        let s = slice_subrange(b, o, o + 8);
        let x = u64_from_le_bytes(s);
        Some((x, o + 8))
    } else {
        None
    }
}

fn read_bytes(b: &[u8], o: usize) -> (r: Option<(Vec<u8>, usize)>)
    requires
        o <= b@.len(),
    ensures
        match r {
            Some((v, o2)) => sd_bytes(b@, o as int) == Some((v@, o2 as int)) && o2 <= b@.len(),
            None => sd_bytes(b@, o as int) is None,
        },
{
    let (n, o1) = match read_u64(b, o) {
        Some(p) => p,
        None => {
            return None;
        },
    };
    if n <= (b.len() - o1) as u64 {
        let nn = n as usize;
        let v = slice_to_vec(slice_subrange(b, o1, o1 + nn));
        Some((v, o1 + nn))
    } else {
        None
    }
}

fn read_string(b: &[u8], o: usize) -> (r: Option<(String, usize)>)
    requires
        o <= b@.len(),
    ensures
        match r {
            Some((s, o2)) => sd_str(b@, o as int) == Some((s@, o2 as int)) && o2 <= b@.len()
                && encode_utf8(s@).len() <= u64::MAX,
            None => sd_str(b@, o as int) is None,
        },
{
    let (v, o1) = match read_bytes(b, o) {
        Some(p) => p,
        None => {
            return None;
        },
    };
    let ghost vv = v@;
    let n = v.len();
    match bytes_to_string(v) {
        Some(s) => {
            proof {
                encode_utf8_valid_utf8(s@);
                encode_utf8_decode_utf8(s@);
            }
            Some((s, o1))
        },
        None => {
            proof {
                assert(!valid_utf8(vv));
            }
            None
        },
    }
}

fn read_byte(b: &[u8], o: usize) -> (r: Option<(u8, usize)>)
    requires
        o <= b@.len(),
    ensures
        match r {
            Some((x, o2)) => o < b@.len() && x == b@[o as int] && o2 == o + 1,
            None => o >= b@.len(),
        },
{
    if o < b.len() {
        let x = *slice_index_get(b, o);
        Some((x, o + 1))
    } else {
        None
    }
}

/// Parses a stored record. Succeeds on exactly the byte strings that are a
/// record's encoding, and returns the encoded record.
#[verifier::loop_isolation(false)]
pub fn decode(b: &[u8]) -> (r: Option<FileMetadata>)
    ensures
        match r {
            Some(meta) => spec_decode(b@) == Some(meta@) && wf_meta(meta@),
            None => spec_decode(b@) is None,
        },
{
    let (name, o1) = match read_string(b, 0) {
        Some(p) => p,
        None => {
            return None;
        },
    };
    let (size, o2) = match read_u64(b, o1) {
        Some(p) => p,
        None => {
            return None;
        },
    };
    let (created, o3) = match read_u64(b, o2) {
        Some(p) => p,
        None => {
            return None;
        },
    };
    let (modified, o4) = match read_u64(b, o3) {
        Some(p) => p,
        None => {
            return None;
        },
    };
    let (flag, o5a) = match read_byte(b, o4) {
        Some(p) => p,
        None => {
            return None;
        },
    };
    let (mime, o5): (Option<String>, usize) = if flag == 0 {
        (None, o5a)
    } else if flag == 1 {
        match read_string(b, o5a) {
            Some((s, oo)) => (Some(s), oo),
            None => {
                return None;
            },
        }
    } else {
        return None;
    };
    let ghost mimev = opt_str_view(mime);
    proof {
        assert(sd_mime(b@, o4 as int) == Some((mimev, o5 as int)));
    }
    let (count, o6) = match read_u64(b, o5) {
        Some(p) => p,
        None => {
            return None;
        },
    };
    let ghost o_start = o6 as int;
    let mut chunks: Vec<ChunkMetadata> = Vec::new();
    let mut o: usize = o6;
    let mut i: u64 = 0;
    while i < count
        invariant
            i <= count,
            o <= b@.len(),
            forall|j: int| 0 <= j < chunks@.len() ==> (#[trigger] chunks@[j]).wf(),
            chunks@.len() == i,
            sd_chunks(b@, o_start, count as nat) == (match sd_chunks(
                b@,
                o as int,
                (count - i) as nat,
            ) {
                Some((rest, oo)) => Some((chunk_views(chunks@) + rest, oo)),
                None => None::<(Seq<ChunkRef>, int)>,
            }),
        decreases count - i,
    {
        let ghost pre = chunk_views(chunks@);
        let (h, oa) = match read_string(b, o) {
            Some(p) => p,
            None => {
                return None;
            },
        };
        if !check_hash_str(h.as_str()) {
            return None;
        }
        let (sz, ob) = match read_u64(b, oa) {
            Some(p) => p,
            None => {
                return None;
            },
        };
        let ghost cref = ChunkRef { hash: h@, size: sz };
        let hash = ChunkHash::new(h);
        let cm = ChunkMetadata::new(hash, sz);
        chunks.push(cm);
        proof {
            assert(chunk_views(chunks@) =~= pre.push(cref));
            match sd_chunks(b@, ob as int, (count - i - 1) as nat) {
                Some((rest, oo)) => {
                    assert(sd_chunks(b@, o as int, (count - i) as nat) == Some(
                        (seq![cref] + rest, oo),
                    ));
                    assert(pre + (seq![cref] + rest) =~= pre.push(cref) + rest);
                },
                None => {},
            }
        }
        o = ob;
        i = i + 1;
    }
    proof {
        assert(sd_chunks(b@, o as int, 0nat) == Some((Seq::<ChunkRef>::empty(), o as int)));
        assert(chunk_views(chunks@) + Seq::<ChunkRef>::empty() =~= chunk_views(chunks@));
    }
    if o != b.len() {
        return None;
    }
    let created_at = #[verifier::truncate] (created as i64);
    let modified_at = #[verifier::truncate] (modified as i64);
    let meta = FileMetadata::from_parts(name, size, created_at, modified_at, chunks, mime);
    proof {
        assert(spec_decode(b@)->0 =~= meta@);
    }
    Some(meta)
}


/// The views of a sequence of index entries.
pub open spec fn entry_views(s: Seq<(String, Vec<u8>)>) -> Seq<(Seq<char>, Seq<u8>)> {
    s.map_values(|e: (String, Vec<u8>)| (e.0@, e.1@))
}

/// One index entry: the name, then the record bytes, each length-prefixed.
pub open spec fn enc_entry(e: (Seq<char>, Seq<u8>)) -> Seq<u8> {
    enc_str(e.0) + enc_bytes(e.1)
}

/// The index entries, in order.
pub open spec fn enc_entries(s: Seq<(Seq<char>, Seq<u8>)>) -> Seq<u8>
    decreases s.len(),
{
    if s.len() == 0 {
        Seq::empty()
    } else {
        enc_entry(s[0]) + enc_entries(s.drop_first())
    }
}

/// The stored form of the whole file index: a count, then the entries.
pub open spec fn spec_encode_index(s: Seq<(Seq<char>, Seq<u8>)>) -> Seq<u8> {
    enc_u64(s.len() as u64) + enc_entries(s)
}

/// Reads `k` index entries at offset `o`.
pub open spec fn sd_entries(b: Seq<u8>, o: int, k: nat) -> Option<(Seq<(Seq<char>, Seq<u8>)>, int)>
    decreases k,
{
    if k == 0 {
        Some((Seq::empty(), o))
    } else {
        match sd_str(b, o) {
            Some((name, o1)) => match sd_bytes(b, o1) {
                Some((v, o2)) => match sd_entries(b, o2, (k - 1) as nat) {
                    Some((rest, o3)) => Some((seq![(name, v)] + rest, o3)),
                    None => None,
                },
                None => None,
            },
            None => None,
        }
    }
}

/// The index encoded in `b`, if `b` is exactly one index's encoding.
pub open spec fn spec_decode_index(b: Seq<u8>) -> Option<Seq<(Seq<char>, Seq<u8>)>> {
    match sd_u64(b, 0) {
        Some((n, o1)) => match sd_entries(b, o1, n as nat) {
            Some((s, o2)) => if o2 == b.len() {
                Some(s)
            } else {
                None
            },
            None => None,
        },
        None => None,
    }
}

/// An index small enough for its lengths to be recorded in `u64`s. Every
/// index built from real values satisfies this.
pub open spec fn wf_index_entries(s: Seq<(Seq<char>, Seq<u8>)>) -> bool {
    &&& s.len() <= u64::MAX
    &&& forall|i: int|
        0 <= i < s.len() ==> encode_utf8((#[trigger] s[i]).0).len() <= u64::MAX && s[i].1.len()
            <= u64::MAX
}

proof fn lemma_sd_entries_at(b: Seq<u8>, o: int, s: Seq<(Seq<char>, Seq<u8>)>)
    requires
        has_at(b, o, enc_entries(s)),
        wf_index_entries(s),
    ensures
        sd_entries(b, o, s.len()) == Some((s, o + enc_entries(s).len())),
    decreases s.len(),
{
    lemma_auto_spec_u64_to_from_le_bytes();
    if s.len() == 0 {
        assert(s =~= Seq::<(Seq<char>, Seq<u8>)>::empty());
    } else {
        let e = s[0];
        let rest = s.drop_first();
        lemma_has_at_concat(b, o, enc_entry(e), enc_entries(rest));
        lemma_has_at_concat(b, o, enc_str(e.0), enc_bytes(e.1));
        lemma_sd_str_at(b, o, e.0);
        lemma_sd_bytes_at(b, o + enc_str(e.0).len(), e.1);
        assert(wf_index_entries(rest)) by {
            assert(forall|i: int| 0 <= i < rest.len() ==> rest[i] == s[i + 1]);
        }
        lemma_sd_entries_at(b, o + enc_entry(e).len(), rest);
        assert(seq![e] + rest =~= s);
    }
}

/// Decoding inverts encoding for the stored index.
pub proof fn lemma_decode_encode_index(s: Seq<(Seq<char>, Seq<u8>)>)
    requires
        wf_index_entries(s),
    ensures
        spec_decode_index(spec_encode_index(s)) == Some(s),
{
    let b = spec_encode_index(s);
    lemma_auto_spec_u64_to_from_le_bytes();
    assert(has_at(b, 0, b)) by {
        assert(b.subrange(0, b.len() as int) =~= b);
    }
    lemma_has_at_concat(b, 0, enc_u64(s.len() as u64), enc_entries(s));
    lemma_sd_u64_at(b, 0, s.len() as u64);
    lemma_sd_entries_at(b, 8, s);
}

proof fn lemma_enc_entries_push(s: Seq<(Seq<char>, Seq<u8>)>, e: (Seq<char>, Seq<u8>))
    ensures
        enc_entries(s.push(e)) == enc_entries(s) + enc_entry(e),
    decreases s.len(),
{
    let p = s.push(e);
    if s.len() == 0 {
        assert(p[0] == e);
        assert(p.drop_first() =~= Seq::<(Seq<char>, Seq<u8>)>::empty());
        assert(enc_entries(Seq::<(Seq<char>, Seq<u8>)>::empty()) == Seq::<u8>::empty());
        assert(enc_entries(p) == enc_entry(e) + Seq::<u8>::empty());
        assert(enc_entry(e) + Seq::<u8>::empty() =~= enc_entry(e));
        assert(enc_entries(s) == Seq::<u8>::empty());
        assert(Seq::<u8>::empty() + enc_entry(e) =~= enc_entry(e));
    } else {
        lemma_enc_entries_push(s.drop_first(), e);
        assert(p.drop_first() =~= s.drop_first().push(e));
        assert(p[0] == s[0]);
        assert(enc_entries(p) == enc_entry(s[0]) + enc_entries(s.drop_first().push(e)));
        assert(enc_entries(p) == enc_entry(s[0]) + (enc_entries(s.drop_first()) + enc_entry(e)));
        assert(enc_entry(s[0]) + (enc_entries(s.drop_first()) + enc_entry(e)) =~= (enc_entry(s[0])
            + enc_entries(s.drop_first())) + enc_entry(e));
        assert(enc_entries(s) == enc_entry(s[0]) + enc_entries(s.drop_first()));
    }
}

fn write_bytes(out: &mut Vec<u8>, v: &Vec<u8>)
    ensures
        final(out)@ == old(out)@ + enc_bytes(v@),
{
    let n = v.len();
    write_u64(out, n as u64);
    let mut bv = slice_to_vec(v.as_slice());
    out.append(&mut bv);
    proof {
        assert(final(out)@ =~= old(out)@ + enc_bytes(v@));
    }
}

/// Serializes the file index's entries to their stored form.
pub fn encode_index(entries: &Vec<(String, Vec<u8>)>) -> (r: Vec<u8>)
    ensures
        r@ == spec_encode_index(entry_views(entries@)),
{
    let n = entries.len();
    let mut out: Vec<u8> = Vec::new();
    write_u64(&mut out, n as u64);
    let ghost views = entry_views(entries@);
    let ghost head = enc_u64(views.len() as u64);
    let mut i: usize = 0;
    while i < n
        invariant
            n == entries@.len(),
            views == entry_views(entries@),
            head == enc_u64(views.len() as u64),
            i <= n,
            out@ == head + enc_entries(views.subrange(0, i as int)),
        decreases n - i,
    {
        let e = vstd::slice::slice_index_get(entries.as_slice(), i);
        write_str(&mut out, e.0.as_str());
        write_bytes(&mut out, &e.1);
        proof {
            lemma_enc_entries_push(views.subrange(0, i as int), views[i as int]);
            assert(views.subrange(0, i + 1) =~= views.subrange(0, i as int).push(views[i as int]));
            assert(out@ =~= head + enc_entries(views.subrange(0, i + 1)));
        }
        i = i + 1;
    }
    proof {
        assert(views.subrange(0, n as int) =~= views);
        assert(out@ =~= spec_encode_index(views));
    }
    out
}

/// Parses a stored file index. Succeeds on exactly the byte strings that are
/// an index's encoding, and returns the encoded entries.
#[verifier::loop_isolation(false)]
pub fn decode_index(b: &[u8]) -> (r: Option<Vec<(String, Vec<u8>)>>)
    ensures
        match r {
            Some(v) => spec_decode_index(b@) == Some(entry_views(v@)),
            None => spec_decode_index(b@) is None,
        },
{
    let (count, o0) = match read_u64(b, 0) {
        Some(p) => p,
        None => {
            return None;
        },
    };
    let ghost o_start = o0 as int;
    let mut entries: Vec<(String, Vec<u8>)> = Vec::new();
    let mut o: usize = o0;
    let mut i: u64 = 0;
    while i < count
        invariant
            i <= count,
            o <= b@.len(),
            entries@.len() == i,
            sd_entries(b@, o_start, count as nat) == (match sd_entries(
                b@,
                o as int,
                (count - i) as nat,
            ) {
                Some((rest, oo)) => Some((entry_views(entries@) + rest, oo)),
                None => None::<(Seq<(Seq<char>, Seq<u8>)>, int)>,
            }),
        decreases count - i,
    {
        let ghost pre = entry_views(entries@);
        let (name, oa) = match read_string(b, o) {
            Some(p) => p,
            None => {
                return None;
            },
        };
        let (value, ob) = match read_bytes(b, oa) {
            Some(p) => p,
            None => {
                return None;
            },
        };
        let ghost ev = (name@, value@);
        entries.push((name, value));
        proof {
            assert(entry_views(entries@) =~= pre.push(ev));
            match sd_entries(b@, ob as int, (count - i - 1) as nat) {
                Some((rest, oo)) => {
                    assert(sd_entries(b@, o as int, (count - i) as nat) == Some(
                        (seq![ev] + rest, oo),
                    ));
                    assert(pre + (seq![ev] + rest) =~= pre.push(ev) + rest);
                },
                None => {},
            }
        }
        o = ob;
        i = i + 1;
    }
    proof {
        assert(sd_entries(b@, o as int, 0nat) == Some(
            (Seq::<(Seq<char>, Seq<u8>)>::empty(), o as int),
        ));
        assert(entry_views(entries@) + Seq::<(Seq<char>, Seq<u8>)>::empty() =~= entry_views(
            entries@,
        ));
    }
    if o != b.len() {
        return None;
    }
    Some(entries)
}

} // verus!
