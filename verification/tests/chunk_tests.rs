use vyom::chunk::{ChunkHash, ChunkMetadata};
use vyom::chunk_storage::{ChunkError, ChunkManager, ChunkStorage};

fn rt() -> tokio::runtime::Runtime {
    tokio::runtime::Builder::new_current_thread()
        .build()
        .unwrap()
}

fn fresh_root(name: &str) -> String {
    let root = format!("/tmp/vyom_chunk_test_{name}");
    let _ = rt().block_on(tokio::fs::remove_dir_all(&root));
    root
}

const ABCD_HASH: &str = "88d4266fd4e6338d13b845fcf289579d209c897823b9217da3e161936f031589";

#[test]
fn hash_accessors_and_prefix() {
    let hash = ChunkHash::new(ABCD_HASH.to_string());
    assert_eq!(hash.as_str(), ABCD_HASH);
    assert_eq!(hash.get_prefix(), "88");
    let meta = ChunkMetadata::new(hash, 4);
    assert_eq!(meta.hash().as_str(), ABCD_HASH);
    assert_eq!(meta.size(), 4);
}

#[test]
fn store_computes_content_hash() {
    let root = fresh_root("store_hash");
    let storage = ChunkStorage::new(&root).unwrap();
    let meta = storage.store_chunk(b"abcd").unwrap();
    assert_eq!(meta.hash().as_str(), ABCD_HASH);
    assert_eq!(meta.size(), 4);
}

#[test]
fn fetch_returns_stored_bytes() {
    let root = fresh_root("fetch");
    let storage = ChunkStorage::new(&root).unwrap();
    let meta = storage.store_chunk(b"some chunk content").unwrap();
    let bytes = storage.get_chunk(meta.hash()).unwrap();
    assert_eq!(bytes, b"some chunk content".to_vec());
}

#[test]
fn exists_reflects_store_and_delete() {
    let root = fresh_root("exists");
    let storage = ChunkStorage::new(&root).unwrap();
    let absent = ChunkHash::new(ABCD_HASH.to_string());
    assert!(!storage.chunk_exists(&absent));
    let meta = storage.store_chunk(b"abcd").unwrap();
    assert!(storage.chunk_exists(meta.hash()));
    storage.delete_chunk(meta.hash()).unwrap();
    assert!(!storage.chunk_exists(meta.hash()));
    // Deleting an absent chunk is a no-op, not an error.
    storage.delete_chunk(meta.hash()).unwrap();
}

#[test]
fn fetch_absent_hash_is_not_found() {
    let root = fresh_root("not_found");
    let storage = ChunkStorage::new(&root).unwrap();
    let absent = ChunkHash::new(ABCD_HASH.to_string());
    match storage.get_chunk(&absent) {
        Err(ChunkError::ChunkNotFound(h)) => assert_eq!(h.as_str(), ABCD_HASH),
        other => panic!("expected not-found, got {:?}", other.is_ok()),
    }
}

#[test]
fn fetch_tampered_chunk_is_corrupt_not_not_found() {
    let root = fresh_root("tampered");
    let storage = ChunkStorage::new(&root).unwrap();
    let meta = storage.store_chunk(b"original content").unwrap();
    let path = storage.get_chunk_path(meta.hash());
    rt().block_on(tokio::fs::write(&path, b"replaced content")).unwrap();
    match storage.get_chunk(meta.hash()) {
        Err(ChunkError::CorruptChunk(h)) => assert_eq!(h.as_str(), meta.hash().as_str()),
        other => panic!("expected corrupt, got {:?}", other.is_ok()),
    }
    assert!(!matches!(
        storage.get_chunk(meta.hash()),
        Err(ChunkError::ChunkNotFound(_))
    ));
}

#[test]
fn chunk_path_is_sharded_by_prefix() {
    let root = fresh_root("path");
    let storage = ChunkStorage::new(&root).unwrap();
    let hash = ChunkHash::new(ABCD_HASH.to_string());
    let path = storage.get_chunk_path(&hash);
    assert_eq!(path, format!("{root}/chunks/88/{ABCD_HASH}"));
}

#[test]
fn manager_splits_into_ordered_manifest() {
    let root = fresh_root("manager");
    let manager = ChunkManager::new(&root, 4).unwrap();
    let manifest = manager.chunk_file(b"abcdefghij").unwrap();
    assert_eq!(manifest.len(), 3);
    assert_eq!(manifest[0].hash().as_str(), ABCD_HASH);
    assert_eq!(manifest[0].size(), 4);
    assert_eq!(manifest[2].size(), 2);
}

#[test]
fn manager_empty_input_gives_empty_manifest() {
    let root = fresh_root("manager_empty");
    let manager = ChunkManager::new(&root, 4).unwrap();
    let manifest = manager.chunk_file(b"").unwrap();
    assert_eq!(manifest.len(), 0);
}

#[test]
fn hash_string_validation() {
    assert!(vyom::hashing::check_hash_str(ABCD_HASH));
    assert!(!vyom::hashing::check_hash_str("88d4"));
    assert!(!vyom::hashing::check_hash_str(
        "88D4266FD4E6338D13B845FCF289579D209C897823B9217DA3E161936F031589"
    ));
    assert!(!vyom::hashing::check_hash_str(&"z".repeat(64)));
}

#[test]
fn verify_chunk_decides_by_digest() {
    let hash = ChunkHash::new(ABCD_HASH.to_string());
    let ok = vyom::chunk_storage::verify_chunk(&hash, b"abcd".to_vec()).unwrap();
    assert_eq!(ok, b"abcd".to_vec());
    match vyom::chunk_storage::verify_chunk(&hash, b"abcx".to_vec()) {
        Err(ChunkError::CorruptChunk(h)) => assert_eq!(h.as_str(), ABCD_HASH),
        other => panic!("expected corrupt, got {:?}", other.is_ok()),
    }
}
