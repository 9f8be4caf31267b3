use fai_protocol::repository::{
    hash_commit, read_head, trim_text, write_commit_text, SizeChange,
};
use fai_protocol::{FaiError, FaiProtocol};

fn digest_of(bytes: &[u8]) -> String {
    blake3::hash(bytes).to_hex().to_string()
}

#[test]
fn small_file_round_trip() {
    let mut repo = FaiProtocol::new_at("/tmp/r1");
    assert_eq!(repo.fai_path(), "/tmp/r1");
    let digest = repo.add_file("a.bin", Some(b"hello fai!\n")).unwrap();
    assert_eq!(digest, digest_of(b"hello fai!\n"));
    let commit = repo.commit("first", 1_700_000_000_000).unwrap();
    let log = repo.get_log();
    assert_eq!(log.len(), 1);
    assert_eq!(log[0].hash, commit);
    assert_eq!(log[0].message, "first");
    assert_eq!(log[0].timestamp, 1_700_000_000_000);
    assert_eq!(log[0].parents, Vec::<String>::new());
    assert!(!log[0].is_merge);
    assert_eq!(
        repo.get_commit_files(&commit),
        vec![("a.bin".to_string(), digest_of(b"hello fai!\n"), 11)]
    );
    assert_eq!(repo.storage().retrieve(&digest).unwrap(), b"hello fai!\n".to_vec());
}

#[test]
fn a_fresh_repository_has_head_at_main_and_nothing_else() {
    let repo = FaiProtocol::new();
    assert_eq!(repo.fai_path(), ".fai");
    assert_eq!(repo.head_file(), "ref: refs/heads/main");
    assert_eq!(repo.get_head_commit(), None);
    assert_eq!(repo.get_status().len(), 0);
    assert_eq!(repo.get_log().len(), 0);
    assert_eq!(repo.storage().object_count(), 0);
}

#[test]
fn a_file_that_is_not_there_is_not_found() {
    let mut repo = FaiProtocol::new();
    assert_eq!(repo.add_file("nonexistent.txt", None), Err(FaiError::NotFound));
    assert_eq!(repo.get_status().len(), 0);
    assert_eq!(repo.storage().object_count(), 0);
}

#[test]
fn a_commit_with_nothing_staged_is_empty() {
    let mut repo = FaiProtocol::new();
    assert_eq!(repo.commit("Empty commit", 1), Err(FaiError::Empty));
    assert_eq!(repo.head_file(), "ref: refs/heads/main");
}

#[test]
fn a_commit_that_is_refused_leaves_head_and_staging_as_they_were() {
    let mut repo = FaiProtocol::new();
    repo.add_file("a", Some(b"a")).unwrap();
    assert_eq!(repo.commit("   ", 1), Err(FaiError::Invalid));
    assert_eq!(repo.commit("m", -5), Err(FaiError::Invalid));
    assert_eq!(repo.head_file(), "ref: refs/heads/main");
    assert_eq!(repo.get_status().len(), 1);
    assert_eq!(repo.get_log().len(), 0);
}

#[test]
fn after_a_commit_nothing_is_staged_and_head_names_it() {
    let mut repo = FaiProtocol::new();
    repo.add_file("a", Some(b"a")).unwrap();
    repo.add_file("b", Some(b"b")).unwrap();
    let c = repo.commit("msg", 10).unwrap();
    assert_eq!(repo.get_status(), vec![]);
    assert_eq!(repo.get_head_commit(), Some(c.clone()));
    assert_eq!(repo.head_file(), c);
    assert_eq!(c.len(), 64);
}

#[test]
fn commit_closure() {
    let mut repo = FaiProtocol::new();
    let a = repo.add_file("a.bin", Some(b"content a")).unwrap();
    let c1 = repo.commit("one", 1_000).unwrap();
    let staged1 = vec![("a.bin".to_string(), a.clone(), 9)];
    let a2 = repo.add_file("a.bin", Some(b"content a")).unwrap();
    let b = repo.add_file("b.bin", Some(b"content b!")).unwrap();
    assert_eq!(a, a2);
    let staged2 = repo.get_status();
    let c2 = repo.commit("two", 2_000).unwrap();

    let all: Vec<String> = repo.get_all_commits().into_iter().map(|c| c.hash).collect();
    assert_eq!(all, vec![c2.clone(), c1.clone()]);
    assert_eq!(repo.get_commit_files(&c1), staged1);
    assert_eq!(repo.get_commit_files(&c2), staged2);
    assert_eq!(staged2, vec![("a.bin".to_string(), a.clone(), 9), ("b.bin".to_string(), b.clone(), 10)]);

    let second = repo.database().get_commit(&c2).unwrap();
    assert_eq!(second.parents, vec![c1.clone()]);

    let d = repo.diff(&c1, &c2).unwrap();
    assert_eq!(d.added, vec![b.clone()]);
    assert_eq!(d.removed, Vec::<String>::new());
    assert_eq!(d.unchanged, vec![a.clone()]);
    assert_eq!(d.added_bytes, 10);
    assert_eq!(d.removed_bytes, 0);
    assert_eq!(d.size_change(), SizeChange::Grew(10));

    let back = repo.diff(&c2, &c1).unwrap();
    assert_eq!(back.added, d.removed);
    assert_eq!(back.removed, d.added);
    assert_eq!(back.unchanged, vec![a]);
    assert_eq!(back.removed_bytes, 10);
    assert_eq!(back.size_change(), SizeChange::Shrank(10));
    assert_eq!(repo.diff(&c1, &c1).unwrap().size_change(), SizeChange::Same);
}

#[test]
fn a_commit_differs_from_itself_in_nothing() {
    let mut repo = FaiProtocol::new();
    let x = repo.add_file("x", Some(b"same")).unwrap();
    repo.add_file("y", Some(b"same")).unwrap();
    let z = repo.add_file("z", Some(b"other")).unwrap();
    let c = repo.commit("m", 1).unwrap();
    let d = repo.diff(&c, &c).unwrap();
    assert_eq!(d.added, Vec::<String>::new());
    assert_eq!(d.removed, Vec::<String>::new());
    // each digest once, in the order of the files
    assert_eq!(d.unchanged, vec![x, z]);
    assert_eq!(d.added_bytes, 0);
    assert_eq!(d.removed_bytes, 0);
}

#[test]
fn the_sizes_of_a_diff_are_those_of_the_retrieved_blobs() {
    let mut repo = FaiProtocol::new();
    let big = vec![3u8; 2 * 1048576 + 7];
    repo.add_file("small", Some(b"12345")).unwrap();
    let c1 = repo.commit("one", 1).unwrap();
    repo.add_file("big", Some(&big)).unwrap();
    let c2 = repo.commit("two", 2).unwrap();
    let d = repo.diff(&c1, &c2).unwrap();
    assert_eq!(d.added.len(), 1);
    assert_eq!(d.added_bytes, big.len() as u128);
    assert_eq!(d.removed, vec![digest_of(b"12345")]);
    assert_eq!(d.removed_bytes, 5);
}

#[test]
fn ambiguous_diff() {
    // Commits are made until two of them share their first hexadecimal digit.
    let mut repo = FaiProtocol::new();
    let mut hashes: Vec<String> = Vec::new();
    let mut pair: Option<(String, String)> = None;
    for i in 0..40i64 {
        repo.add_file("f", Some(format!("content {}", i).as_bytes())).unwrap();
        let c = repo.commit("m", 1000 + i).unwrap();
        if let Some(other) = hashes.iter().find(|h| h[..4] == c[..4] || h[..1] == c[..1]) {
            pair = Some((other.clone(), c.clone()));
        }
        hashes.push(c);
        if pair.is_some() {
            break;
        }
    }
    let (c1, c2) = pair.unwrap();
    let shared = &c1[..1];
    assert_eq!(repo.diff(shared, &c2).err(), Some(FaiError::Conflict));
    assert_eq!(repo.resolve(shared).err(), Some(FaiError::Conflict));
    assert!(repo.diff(&c1, &c2).is_ok());
    assert_eq!(repo.diff("not a digest", &c2).err(), Some(FaiError::NotFound));
    assert_eq!(repo.diff(&c1, "not a digest").err(), Some(FaiError::NotFound));
}

#[test]
fn a_short_digest_that_fits_one_commit_stands_for_it() {
    let mut repo = FaiProtocol::new();
    repo.add_file("f", Some(b"1")).unwrap();
    let c = repo.commit("m", 1).unwrap();
    assert_eq!(repo.resolve(&c[..8]).unwrap().hash, c);
    assert_eq!(repo.resolve(&c).unwrap().hash, c);
    assert_eq!(repo.resolve("").unwrap().hash, c);
    assert_eq!(repo.resolve("zz").err(), Some(FaiError::NotFound));
    let d = repo.diff(&c[..8], &c[..12]).unwrap();
    assert_eq!(d.unchanged.len(), 1);
}

#[test]
fn the_digest_of_a_commit_is_that_of_its_text() {
    let parents = vec!["ann".to_string()];
    let files = vec![("a \"b\"".to_string(), "h1".to_string(), 11), ("c".to_string(), "h2".to_string(), 0)];
    let text = write_commit_text(1234, "first\nline", &parents, &files);
    assert_eq!(
        String::from_utf8(text.clone()).unwrap(),
        "1234\n\"first\\nline\"\n[\n    \"ann\"\n  ]\n\"a \\\"b\\\"\" \"h1\" 11\n\"c\" \"h2\" 0\n"
    );
    assert_eq!(hash_commit(1234, "first\nline", &parents, &files), digest_of(&text));
    let none: Vec<String> = vec![];
    let text = write_commit_text(0, "", &none, &vec![]);
    assert_eq!(String::from_utf8(text).unwrap(), "0\n\"\"\n[]\n");
}

#[test]
fn equal_commits_have_equal_digests_and_different_ones_differ() {
    let mut one = FaiProtocol::new();
    let mut two = FaiProtocol::new_at("elsewhere");
    one.add_file("f", Some(b"x")).unwrap();
    two.add_file("f", Some(b"x")).unwrap();
    let a = one.commit("m", 5).unwrap();
    let b = two.commit("m", 5).unwrap();
    assert_eq!(a, b);
    two.add_file("f", Some(b"x")).unwrap();
    let c = two.commit("m", 5).unwrap();
    // the same at the same time, but with a parent
    assert_ne!(b, c);
}

#[test]
fn head_is_a_digest_or_a_reference() {
    assert_eq!(read_head("ref: refs/heads/main"), None);
    assert_eq!(read_head("ref:anything"), None);
    assert_eq!(read_head("abc123\n"), Some("abc123".to_string()));
    assert_eq!(read_head("  abc 123 \t"), Some("abc 123".to_string()));
    assert_eq!(read_head(""), Some(String::new()));
    assert_eq!(read_head(" ref: x"), Some("ref: x".to_string()));
    let mut repo = FaiProtocol::new();
    repo.update_head("deadbeef\n");
    assert_eq!(repo.head_file(), "deadbeef\n");
    assert_eq!(repo.get_head_commit(), Some("deadbeef".to_string()));
}

#[test]
fn trimming_takes_the_white_space_from_both_ends() {
    assert_eq!(trim_text(""), "");
    assert_eq!(trim_text("   "), "");
    assert_eq!(trim_text("a"), "a");
    assert_eq!(trim_text(" a b "), "a b");
    assert_eq!(trim_text("\u{a0}\t\u{e9}t\u{e9}\u{3000}\n"), "\u{e9}t\u{e9}");
}

#[test]
fn a_repository_is_made_of_its_parts() {
    let mut storage = fai_protocol::StorageManager::new();
    let d = storage.store(b"blob");
    let mut db = fai_protocol::DatabaseManager::new();
    db.add_to_staging("p", &d, 4);
    let mut repo = FaiProtocol::from_parts("here", storage, db, "cafe");
    assert_eq!(repo.fai_path(), "here");
    assert_eq!(repo.get_head_commit(), Some("cafe".to_string()));
    let c = repo.commit("m", 3).unwrap();
    assert_eq!(repo.database().get_commit(&c).unwrap().parents, vec!["cafe".to_string()]);
    assert!(repo.storage().has_object(&d));
}

#[test]
fn blobs_and_commits_from_a_peer_are_taken_in() {
    let mut repo = FaiProtocol::new();
    let big = vec![1u8; 1048576 + 1];
    let d = repo.receive_blob(&big);
    assert_eq!(d, digest_of(&big));
    assert_eq!(repo.storage().object_count(), 1);
    let commit = fai_protocol::Commit {
        hash: "c1".to_string(),
        message: "m".to_string(),
        timestamp: 4,
        parents: vec![],
        is_merge: false,
        files: vec![("b".to_string(), "h".to_string(), 1), ("a".to_string(), "k".to_string(), 2)],
    };
    assert_eq!(repo.receive_commit(&commit), Ok(()));
    assert_eq!(
        repo.get_commit_files("c1"),
        vec![("a".to_string(), "k".to_string(), 2), ("b".to_string(), "h".to_string(), 1)]
    );
    let bad = fai_protocol::Commit { message: " ".to_string(), hash: "c2".to_string(), ..commit };
    assert_eq!(repo.receive_commit(&bad), Err(FaiError::Invalid));
    assert_eq!(repo.get_log().len(), 1);
    assert_eq!(repo.head_file(), "ref: refs/heads/main");
}

#[test]
fn every_kind_of_failure_has_a_message() {
    let kinds = [
        FaiError::NotFound,
        FaiError::Empty,
        FaiError::Invalid,
        FaiError::Conflict,
        FaiError::Network,
        FaiError::Timeout,
        FaiError::Unavailable,
    ];
    for (i, a) in kinds.iter().enumerate() {
        assert!(!a.message().is_empty());
        for b in kinds.iter().skip(i + 1) {
            assert_ne!(a.message(), b.message());
        }
    }
}
