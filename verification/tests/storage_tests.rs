use vyom::chunk_storage::ChunkError;
use vyom::storage::VyomError;
use vyom::FileStorage;

fn rt() -> tokio::runtime::Runtime {
    tokio::runtime::Builder::new_current_thread()
        .build()
        .unwrap()
}

fn fresh_root(name: &str) -> String {
    let root = format!("/tmp/vyom_test_{name}");
    let _ = rt().block_on(tokio::fs::remove_dir_all(&root));
    root
}

/// Counts the files under `dir`, recursively.
fn count_files(dir: &str) -> usize {
    let runtime = rt();
    let mut pending = vec![dir.to_string()];
    let mut count = 0;
    while let Some(d) = pending.pop() {
        let mut entries = match runtime.block_on(tokio::fs::read_dir(&d)) {
            Ok(e) => e,
            Err(_) => continue,
        };
        while let Some(entry) = runtime.block_on(entries.next_entry()).unwrap() {
            let ty = runtime.block_on(entry.file_type()).unwrap();
            let path = entry.path().to_string_lossy().to_string();
            if ty.is_dir() {
                pending.push(path);
            } else {
                count += 1;
            }
        }
    }
    count
}

#[test]
fn round_trip_reconstructs_bytes() {
    let root = fresh_root("round_trip");
    let mut storage = FileStorage::new(&root, 4).unwrap();
    let data = b"the quick brown fox jumps over the lazy dog";
    storage.put_file("fox", data, None).unwrap();
    let (bytes, meta) = storage.get_file("fox").unwrap().unwrap();
    assert_eq!(bytes, data.to_vec());
    assert_eq!(meta.name(), "fox");
    assert_eq!(meta.size(), data.len() as u64);
}

#[test]
fn round_trip_empty_file() {
    let root = fresh_root("round_trip_empty");
    let mut storage = FileStorage::new(&root, 8).unwrap();
    storage.put_file("empty", b"", None).unwrap();
    let (bytes, meta) = storage.get_file("empty").unwrap().unwrap();
    assert_eq!(bytes, Vec::<u8>::new());
    assert_eq!(meta.chunks().len(), 0);
    assert_eq!(meta.size(), 0);
}

#[test]
fn dedup_second_store_adds_no_chunk_files() {
    let root = fresh_root("dedup");
    let chunks_dir = format!("{root}/chunks");
    let mut storage = FileStorage::new(&root, 4).unwrap();
    let data = b"abcdefghij";
    storage.put_file("one", data, None).unwrap();
    let after_first = count_files(&chunks_dir);
    assert_eq!(after_first, 3);
    storage.put_file("one", data, None).unwrap();
    storage.put_file("two", data, None).unwrap();
    let after_more = count_files(&chunks_dir);
    assert_eq!(after_more, after_first);
}

#[test]
fn altered_chunk_fails_with_corruption() {
    let root = fresh_root("corrupt");
    let mut storage = FileStorage::new(&root, 1024).unwrap();
    storage.put_file("doc", b"some important bytes", None).unwrap();
    let (_, meta) = storage.get_file("doc").unwrap().unwrap();
    let hash = meta.chunks()[0].hash().as_str().to_string();
    let path = format!("{root}/chunks/{}/{hash}", &hash[..2]);
    rt().block_on(tokio::fs::write(&path, b"tampered")).unwrap();
    match storage.get_file("doc") {
        Err(VyomError::Chunk(ChunkError::CorruptChunk(h))) => {
            assert_eq!(h.as_str(), hash);
        }
        other => panic!("expected corruption error, got {other:?}"),
    }
}

#[test]
fn missing_chunk_fails_with_not_found() {
    let root = fresh_root("missing_chunk");
    let mut storage = FileStorage::new(&root, 1024).unwrap();
    storage.put_file("doc", b"bytes that will vanish", None).unwrap();
    let (_, meta) = storage.get_file("doc").unwrap().unwrap();
    let hash = meta.chunks()[0].hash().as_str().to_string();
    let path = format!("{root}/chunks/{}/{hash}", &hash[..2]);
    rt().block_on(tokio::fs::remove_file(&path)).unwrap();
    match storage.get_file("doc") {
        Err(VyomError::Chunk(ChunkError::ChunkNotFound(h))) => {
            assert_eq!(h.as_str(), hash);
        }
        other => panic!("expected not-found error, got {other:?}"),
    }
}

#[test]
fn put_delete_get_is_absent() {
    let root = fresh_root("put_delete_get");
    let mut storage = FileStorage::new(&root, 16).unwrap();
    storage.put_file("ephemeral", b"here and gone", None).unwrap();
    storage.del_file("ephemeral").unwrap();
    assert!(storage.get_file("ephemeral").unwrap().is_none());
}

#[test]
fn delete_absent_name_is_ok() {
    let root = fresh_root("delete_absent");
    let mut storage = FileStorage::new(&root, 16).unwrap();
    storage.del_file("never-stored").unwrap();
    assert!(storage.get_file("never-stored").unwrap().is_none());
}

#[test]
fn overwrite_returns_second_value_and_ceil_manifest() {
    let root = fresh_root("overwrite");
    let mut storage = FileStorage::new(&root, 4).unwrap();
    let b1 = b"first version";
    let b2 = b"the second version entirely";
    storage.put_file("doc", b1, None).unwrap();
    storage.put_file("doc", b2, None).unwrap();
    let (bytes, meta) = storage.get_file("doc").unwrap().unwrap();
    assert_eq!(bytes, b2.to_vec());
    let expected_chunks = (b2.len() + 4 - 1) / 4;
    assert_eq!(meta.chunks().len(), expected_chunks);
}

#[test]
fn overwrite_preserves_created_at() {
    let root = fresh_root("preserve_created");
    let mut storage = FileStorage::new(&root, 8).unwrap();
    storage.put_file("doc", b"version one", None).unwrap();
    let (_, first) = storage.get_file("doc").unwrap().unwrap();
    assert_eq!(first.created_at(), first.modified_at());
    storage.put_file("doc", b"version two", None).unwrap();
    let (_, second) = storage.get_file("doc").unwrap().unwrap();
    assert_eq!(second.created_at(), first.created_at());
}

#[test]
fn fixed_size_chunking_scenario() {
    let root = fresh_root("chunk_scenario");
    let mut storage = FileStorage::new(&root, 4).unwrap();
    let data = b"abcdefghij";
    storage.put_file("doc", data, None).unwrap();
    let (bytes, meta) = storage.get_file("doc").unwrap().unwrap();
    assert_eq!(bytes, data.to_vec());
    let chunks = meta.chunks();
    assert_eq!(chunks.len(), 3);
    assert_eq!(chunks[0].size(), 4);
    assert_eq!(chunks[1].size(), 4);
    assert_eq!(chunks[2].size(), 2);
    assert_eq!(
        chunks[0].hash().as_str(),
        "88d4266fd4e6338d13b845fcf289579d209c897823b9217da3e161936f031589"
    );
    assert_eq!(
        chunks[1].hash().as_str(),
        "e5e088a0b66163a0a26a5e053d2a4496dc16ab6e0e3dd1adf2d16aa84a078c9d"
    );
    assert_eq!(
        chunks[2].hash().as_str(),
        "c9df9c3f2963b19b9b95f58c4d33b053fa9f8586dd6ee04126e52a868f882108"
    );
}

#[test]
fn two_names_share_chunk_files() {
    let root = fresh_root("two_names");
    let chunks_dir = format!("{root}/chunks");
    let mut storage = FileStorage::new(&root, 4).unwrap();
    let data = b"abcdefghij";
    storage.put_file("first", data, None).unwrap();
    storage.put_file("second", data, None).unwrap();
    assert!(storage.get_file("first").unwrap().is_some());
    assert!(storage.get_file("second").unwrap().is_some());
    assert_eq!(count_files(&chunks_dir), 3);
}

#[test]
fn list_after_create_and_delete() {
    let root = fresh_root("list");
    let mut storage = FileStorage::new(&root, 16).unwrap();
    storage.put_file("a", b"alpha", None).unwrap();
    storage.put_file("b", b"beta", None).unwrap();
    storage.del_file("a").unwrap();
    let files = storage.all_files().unwrap();
    assert_eq!(files, vec!["b".to_string()]);
}

#[test]
fn mime_type_round_trips() {
    let root = fresh_root("mime");
    let mut storage = FileStorage::new(&root, 16).unwrap();
    storage
        .put_file("page", b"<html></html>", Some("text/html".to_string()))
        .unwrap();
    let (_, meta) = storage.get_file("page").unwrap().unwrap();
    assert_eq!(meta.mime_type(), Some("text/html"));
    storage.put_file("raw", b"\x00\x01", None).unwrap();
    let (_, raw_meta) = storage.get_file("raw").unwrap().unwrap();
    assert_eq!(raw_meta.mime_type(), None);
}

#[test]
fn io_error_when_root_is_a_file() {
    let runtime = rt();
    let blocker = "/tmp/vyom_test_io_blocker";
    let _ = runtime.block_on(tokio::fs::remove_file(blocker));
    runtime
        .block_on(tokio::fs::write(blocker, b"not a directory"))
        .unwrap();
    let root = format!("{blocker}/sub");
    match FileStorage::new(&root, 8) {
        Err(VyomError::Chunk(ChunkError::Io(_))) => {}
        other => panic!("expected io error, got {:?}", other.is_ok()),
    }
}

#[test]
fn get_unknown_name_is_none() {
    let root = fresh_root("unknown_name");
    let storage = FileStorage::new(&root, 16).unwrap();
    assert!(storage.get_file("nothing-here").unwrap().is_none());
}

#[test]
fn all_files_empty_store() {
    let root = fresh_root("all_empty");
    let storage = FileStorage::new(&root, 16).unwrap();
    assert!(storage.all_files().unwrap().is_empty());
}

#[test]
fn chunk_size_one_round_trips() {
    let root = fresh_root("cs_one");
    let mut storage = FileStorage::new(&root, 1).unwrap();
    let data = b"tiny";
    storage.put_file("t", data, None).unwrap();
    let (bytes, meta) = storage.get_file("t").unwrap().unwrap();
    assert_eq!(bytes, data.to_vec());
    assert_eq!(meta.chunks().len(), 4);
}

#[test]
fn index_survives_reopen() {
    let root = fresh_root("reopen");
    {
        let mut storage = FileStorage::new(&root, 4).unwrap();
        storage
            .put_file("kept", b"persisted bytes", Some("text/plain".to_string()))
            .unwrap();
    }
    let storage = FileStorage::new(&root, 4).unwrap();
    assert_eq!(storage.all_files().unwrap(), vec!["kept".to_string()]);
    let (bytes, meta) = storage.get_file("kept").unwrap().unwrap();
    assert_eq!(bytes, b"persisted bytes".to_vec());
    assert_eq!(meta.mime_type(), Some("text/plain"));
}

#[test]
fn delete_survives_reopen() {
    let root = fresh_root("reopen_delete");
    {
        let mut storage = FileStorage::new(&root, 4).unwrap();
        storage.put_file("a", b"alpha", None).unwrap();
        storage.put_file("b", b"beta", None).unwrap();
        storage.del_file("a").unwrap();
    }
    let storage = FileStorage::new(&root, 4).unwrap();
    assert_eq!(storage.all_files().unwrap(), vec!["b".to_string()]);
    assert!(storage.get_file("a").unwrap().is_none());
}

#[test]
fn corrupt_index_file_fails_to_decode() {
    let root = fresh_root("bad_index");
    {
        let mut storage = FileStorage::new(&root, 4).unwrap();
        storage.put_file("x", b"data", None).unwrap();
    }
    let index_path = format!("{root}/file_db/index");
    rt().block_on(tokio::fs::write(&index_path, b"not an index"))
        .unwrap();
    assert!(matches!(FileStorage::new(&root, 4), Err(VyomError::Decode)));
}
