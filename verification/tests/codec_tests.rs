use vyom::chunk::{ChunkHash, ChunkMetadata};
use vyom::codec::{decode, encode};
use vyom::file::FileMetadata;

const HASH_A: &str = "88d4266fd4e6338d13b845fcf289579d209c897823b9217da3e161936f031589";
const HASH_B: &str = "e5e088a0b66163a0a26a5e053d2a4496dc16ab6e0e3dd1adf2d16aa84a078c9d";

fn sample_meta() -> FileMetadata {
    let chunks = vec![
        ChunkMetadata::new(ChunkHash::new(HASH_A.to_string()), 4),
        ChunkMetadata::new(ChunkHash::new(HASH_B.to_string()), 2),
    ];
    FileMetadata::new(
        "report.txt".to_string(),
        6,
        chunks,
        Some("text/plain".to_string()),
    )
}

#[test]
fn encode_decode_round_trip() {
    let meta = sample_meta();
    let bytes = encode(&meta);
    let back = decode(&bytes).expect("an encoding must decode");
    assert_eq!(back.name(), meta.name());
    assert_eq!(back.size(), meta.size());
    assert_eq!(back.created_at(), meta.created_at());
    assert_eq!(back.modified_at(), meta.modified_at());
    assert_eq!(back.mime_type(), meta.mime_type());
    assert_eq!(back.chunks().len(), 2);
    assert_eq!(back.chunks()[0].hash().as_str(), HASH_A);
    assert_eq!(back.chunks()[0].size(), 4);
    assert_eq!(back.chunks()[1].hash().as_str(), HASH_B);
    assert_eq!(back.chunks()[1].size(), 2);
}

#[test]
fn encode_decode_round_trip_non_ascii_name() {
    let meta = FileMetadata::new("héllo wörld ☃".to_string(), 0, vec![], None);
    let bytes = encode(&meta);
    let back = decode(&bytes).expect("an encoding must decode");
    assert_eq!(back.name(), "héllo wörld ☃");
    assert_eq!(back.mime_type(), None);
    assert_eq!(back.chunks().len(), 0);
}

#[test]
fn fresh_record_stamps_equal_timestamps() {
    let meta = sample_meta();
    assert_eq!(meta.created_at(), meta.modified_at());
}

#[test]
fn decode_rejects_garbage() {
    assert!(decode(b"").is_none());
    assert!(decode(b"short").is_none());
    assert!(decode(&[0xff; 64]).is_none());
}

#[test]
fn decode_rejects_trailing_bytes() {
    let meta = sample_meta();
    let mut bytes = encode(&meta);
    bytes.push(0);
    assert!(decode(&bytes).is_none());
}

#[test]
fn decode_rejects_truncation() {
    let meta = sample_meta();
    let bytes = encode(&meta);
    let truncated = &bytes[..bytes.len() - 1];
    assert!(decode(truncated).is_none());
}

#[test]
fn decode_rejects_malformed_hash() {
    // A record whose manifest entry carries a non-hex "hash" must not parse.
    let chunks = vec![ChunkMetadata::new(ChunkHash::new(HASH_A.to_string()), 4)];
    let meta = FileMetadata::new("x".to_string(), 4, chunks, None);
    let mut bytes = encode(&meta);
    // The hash string is the last 72 bytes but 8: flip one hex digit to 'z'.
    let pos = bytes.len() - 9;
    bytes[pos] = b'z';
    assert!(decode(&bytes).is_none());
}
