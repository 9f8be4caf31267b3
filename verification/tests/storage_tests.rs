use fai_protocol::storage::{StorageManager, StoreError, CHUNK_SIZE};

#[test]
fn test_store_and_retrieve() {
    let mut storage = StorageManager::new();
    let data = b"Hello, FAI Protocol!";

    let hash = storage.store(data);
    let retrieved = storage.retrieve(&hash).unwrap();

    assert_eq!(data.to_vec(), retrieved);
}

#[test]
fn test_store_twice_same_hash() {
    let mut storage = StorageManager::new();
    let data = b"Test data for idempotency";

    let hash1 = storage.store(data);
    let hash2 = storage.store(data);

    assert_eq!(hash1, hash2);
    assert_eq!(storage.object_count(), 1);
}

#[test]
fn test_exists() {
    let mut storage = StorageManager::new();
    let data = b"Existence test data";

    let hash = storage.store(data);

    assert!(storage.has_object(&hash));
    assert!(!storage.has_object("nonexistenthash123456789"));
}

#[test]
fn test_retrieve_nonexistent() {
    let storage = StorageManager::new();

    let result = storage.retrieve("nonexistenthash123456789");
    assert!(result.is_err());
    assert_eq!(result, Err(StoreError::NotFound));
}

#[test]
fn test_invalid_hash_length() {
    let storage = StorageManager::new();

    let result = storage.retrieve("");
    assert!(result.is_err());

    let result = storage.retrieve("a");
    assert!(result.is_err());
    assert_eq!(result, Err(StoreError::InvalidDigest));

    assert!(!storage.has_object(""));
    assert!(!storage.has_object("a"));
}

#[test]
fn store_gives_the_blake3_digest_in_hex() {
    let mut storage = StorageManager::new();
    let hash = storage.store(b"hello fai!\n");
    assert_eq!(hash, blake3::hash(b"hello fai!\n").to_hex().to_string());
    assert_eq!(hash.len(), 64);
    assert_eq!(storage.retrieve(&hash).unwrap(), b"hello fai!\n".to_vec());
}

#[test]
fn large_file_is_stored_in_chunks_behind_a_manifest() {
    let mut storage = StorageManager::new();
    let data = vec![0x5Au8; 2_621_440];
    let m = storage.store(&data);
    assert!(storage.is_manifest(&m));
    let text = storage.open_chunk(&m).unwrap();
    let manifest = fai_protocol::storage::FileManifest::from_bytes(&text).unwrap();
    assert_eq!(manifest.total_size, 2_621_440);
    assert_eq!(manifest.chunks.len(), 3);
    assert_eq!(manifest.chunks[0], manifest.chunks[1]);
    assert_eq!(storage.open_chunk(&manifest.chunks[0]).unwrap().len(), CHUNK_SIZE);
    assert_eq!(storage.open_chunk(&manifest.chunks[2]).unwrap().len(), 524_288);
    assert_eq!(manifest.filename, None);
    assert_eq!(storage.retrieve(&m).unwrap(), data);
    // two distinct chunk blobs and the manifest
    assert_eq!(storage.object_count(), 3);
}

fn round_trip(len: usize) {
    let mut storage = StorageManager::new();
    let data: Vec<u8> = (0..len).map(|i| (i % 251) as u8 | 0x80).collect();
    let digest = storage.store(&data);
    assert_eq!(storage.retrieve(&digest).unwrap(), data, "length {}", len);
    assert_eq!(storage.is_manifest(&digest), len > CHUNK_SIZE);
}

#[test]
fn retrieve_gives_back_what_was_stored_at_every_edge_of_the_chunk_size() {
    round_trip(0);
    round_trip(1);
    round_trip(CHUNK_SIZE - 1);
    round_trip(CHUNK_SIZE);
    round_trip(CHUNK_SIZE + 1);
    round_trip(5 * CHUNK_SIZE);
    round_trip(5 * CHUNK_SIZE + 17);
}

#[test]
fn digest_of_nothing_is_the_known_blake3_value() {
    let mut storage = StorageManager::new();
    let digest = storage.store(b"");
    assert_eq!(digest, "af1349b9f5f9a1a6a0404dea36dcc9499bcb25c9adc112b7cc9a93cae41f3262");
    assert_eq!(fai_protocol::digest::hash_bytes(b""), digest);
    assert_ne!(fai_protocol::digest::hash_bytes(b"a"), digest);
}

#[test]
fn to_hex_writes_two_lowercase_digits_for_each_byte() {
    assert_eq!(fai_protocol::digest::to_hex(&[0x00, 0x0f, 0xa5, 0xff]), "000fa5ff");
    assert_eq!(fai_protocol::digest::to_hex(&[]), "");
}

#[test]
fn every_stored_blob_hashes_to_its_digest() {
    let mut storage = StorageManager::new();
    storage.store(b"one");
    storage.store(&vec![7u8; CHUNK_SIZE + 5]);
    let n = storage.object_count();
    assert_eq!(n, 4);
    for i in 0..n {
        let digest = storage.digest_at(i);
        let raw = storage.open_chunk(&digest).unwrap();
        assert_eq!(blake3::hash(&raw).to_hex().to_string(), digest);
    }
}

#[test]
fn storing_twice_leaves_one_copy_of_every_object() {
    let mut storage = StorageManager::new();
    let data = vec![1u8; 3 * CHUNK_SIZE];
    let first = storage.store(&data);
    let count = storage.object_count();
    let second = storage.store(&data);
    assert_eq!(first, second);
    assert_eq!(storage.object_count(), count);
    // three equal chunks are one blob, and the manifest is another
    assert_eq!(count, 2);
}

#[test]
fn store_raw_never_chunks() {
    let mut storage = StorageManager::new();
    let data = vec![9u8; CHUNK_SIZE + 1];
    let digest = storage.store_raw(&data);
    assert_eq!(digest, blake3::hash(&data).to_hex().to_string());
    assert!(!storage.is_manifest(&digest));
    assert_eq!(storage.open_chunk(&digest).unwrap(), data);
    assert_eq!(storage.object_count(), 1);
}

#[test]
fn a_manifest_with_a_missing_chunk_is_corrupt() {
    let mut storage = StorageManager::new();
    let text = b"{\"total_size\": 3, \"chunks\": [\"0000\"], \"filename\": null}";
    let digest = storage.store(text);
    assert!(storage.is_manifest(&digest));
    assert_eq!(storage.retrieve(&digest), Err(StoreError::Corrupt));
    assert_eq!(storage.open_chunk(&digest).unwrap(), text.to_vec());
}

#[test]
fn a_blob_that_begins_with_a_brace_but_is_no_manifest_is_corrupt() {
    let mut storage = StorageManager::new();
    let digest = storage.store(b"  \n{ this is not a manifest");
    assert!(storage.is_manifest(&digest));
    assert_eq!(storage.retrieve(&digest), Err(StoreError::Corrupt));
}

#[test]
fn a_manifest_is_followed_through_nested_manifests() {
    let mut storage = StorageManager::new();
    let a = storage.store(b"abc");
    let b = storage.store(b"def");
    let inner = format!("{{\"total_size\":6,\"chunks\":[\"{}\",\"{}\"]}}", a, b);
    let inner_digest = storage.store(inner.as_bytes());
    let outer = format!("{{\"total_size\":9,\"chunks\":[\"{}\",\"{}\"]}}", inner_digest, a);
    let outer_digest = storage.store(outer.as_bytes());
    assert_eq!(storage.retrieve(&inner_digest).unwrap(), b"abcdef".to_vec());
    assert_eq!(storage.retrieve(&outer_digest).unwrap(), b"abcdefabc".to_vec());
}

#[test]
fn an_empty_manifest_gives_no_bytes() {
    let mut storage = StorageManager::new();
    let digest = storage.store(b"{\"total_size\":0,\"chunks\":[]}");
    assert_eq!(storage.retrieve(&digest).unwrap(), Vec::<u8>::new());
}

#[test]
fn the_shard_name_is_the_first_two_bytes_of_the_digest() {
    let (shard, rest) = fai_protocol::storage::shard_name("abcdef").unwrap();
    assert_eq!(shard, "ab");
    assert_eq!(rest, "cdef");
    assert_eq!(fai_protocol::storage::shard_name("ab"), Some(("ab".to_string(), String::new())));
    assert_eq!(fai_protocol::storage::shard_name("a"), None);
    assert_eq!(fai_protocol::storage::shard_name(""), None);
    // a cut inside a character is no shard name
    assert_eq!(fai_protocol::storage::shard_name("a\u{e9}"), None);
}

#[test]
fn what_is_known_of_a_model_is_kept_under_its_digest() {
    let mut storage = StorageManager::new();
    let model = |hash: &str, version: &str, size: u64| fai_protocol::storage::ModelMetadata {
        hash: hash.to_string(),
        name: "net".to_string(),
        version: version.to_string(),
        size,
        created_at: 1_700_000_000_000,
    };
    assert!(storage.get_metadata("h1").is_none());
    storage.store_metadata(&model("h1", "1.0", 10));
    storage.store_metadata(&model("h2", "1.0", 20));
    storage.store_metadata(&model("h1", "1.1", 11));
    let got = storage.get_metadata("h1").unwrap();
    assert_eq!(got.hash, "h1");
    assert_eq!(got.name, "net");
    assert_eq!(got.version, "1.1");
    assert_eq!(got.size, 11);
    assert_eq!(got.created_at, 1_700_000_000_000);
    assert_eq!(storage.get_metadata("h2").unwrap().size, 20);
    assert!(storage.get_metadata("h3").is_none());
    // the objects are another matter
    assert_eq!(storage.object_count(), 0);
    assert!(!storage.has_object("h1"));
}
