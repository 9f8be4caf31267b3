use fai_protocol::network::{answer_chunk_request, NetworkManager};
use fai_protocol::sync::{
    clone_from, fetch_from, find_tip, plan_order, pull_from, FetchSession, SyncSession,
};
use fai_protocol::storage::FileManifest;
use fai_protocol::{Commit, DatabaseManager, FaiError, FaiProtocol, StorageManager};

const CHUNK: usize = 1048576;

fn serving(repo: FaiProtocol) -> NetworkManager {
    let mut storage = StorageManager::new();
    for i in 0..repo.storage().object_count() {
        let d = repo.storage().digest_at(i);
        storage.store_raw(&repo.storage().open_chunk(&d).unwrap());
    }
    let mut db = DatabaseManager::new();
    for c in repo.get_all_commits().iter().rev() {
        db.create_commit(&c.hash, &c.message, c.timestamp, &c.parents, &c.files, c.is_merge).unwrap();
    }
    NetworkManager::new("a", storage, db)
}

fn repository_a() -> (FaiProtocol, String, String, Vec<u8>) {
    let mut a = FaiProtocol::new_at("/tmp/a");
    a.add_file("small.txt", Some(b"a small file")).unwrap();
    let c1 = a.commit("one", 1_000).unwrap();
    let big: Vec<u8> = (0..(CHUNK + CHUNK / 2)).map(|i| (i % 241) as u8 | 1).collect();
    a.add_file("big.bin", Some(&big)).unwrap();
    let c2 = a.commit("two", 2_000).unwrap();
    (a, c1, c2, big)
}

#[test]
fn clone_brings_every_commit_and_every_blob() {
    let (a, c1, c2, big) = repository_a();
    let big_digest = a.get_commit_files(&c2)[0].1.clone();
    assert!(a.storage().is_manifest(&big_digest));
    let peer = serving(a);

    let (b, report) = clone_from(&peer, "/tmp/r2").unwrap();
    assert!(report.is_complete());
    assert_eq!(report.commits, 2);
    assert_eq!(report.files.len(), 2);
    assert_eq!(report.failed_files, Vec::<String>::new());
    assert_eq!(report.refused_commits, Vec::<String>::new());
    assert_eq!(b.fai_path(), "/tmp/r2");

    let hashes: Vec<String> = b.database().get_commit_history(None).into_iter().map(|c| c.hash).collect();
    assert_eq!(hashes, vec![c2.clone(), c1.clone()]);
    for c in b.get_all_commits() {
        assert_eq!(c.files, peer.database().get_commit_files(&c.hash));
        assert_eq!(c.parents, peer.database().get_commit(&c.hash).unwrap().parents);
        for (_, digest, _) in &c.files {
            assert!(b.storage().has_object(digest));
        }
    }
    assert_eq!(b.storage().retrieve(&big_digest).unwrap(), big);
    assert_eq!(b.storage().retrieve(&big_digest).unwrap(), peer.storage().retrieve(&big_digest).unwrap());
    // small file, manifest and two chunks
    assert_eq!(b.storage().object_count(), 4);
    // HEAD is at the tip
    assert_eq!(b.get_head_commit(), Some(c2));
}

#[test]
fn a_peer_without_commits_cannot_be_cloned() {
    let peer = NetworkManager::new("a", StorageManager::new(), DatabaseManager::new());
    assert_eq!(clone_from(&peer, "x").err(), Some(FaiError::NotFound));
    assert_eq!(SyncSession::start_clone(FaiProtocol::new(), vec![]).err(), Some(FaiError::NotFound));
}

#[test]
fn a_file_that_the_peer_lacks_fails_and_the_others_come() {
    let mut db = DatabaseManager::new();
    let mut storage = StorageManager::new();
    let there = storage.store(b"there");
    let gone = "1".repeat(64);
    let files = vec![
        ("a".to_string(), gone.clone(), 1),
        ("b".to_string(), there.clone(), 5),
    ];
    db.create_commit("c1", "m", 1, &vec![], &files, false).unwrap();
    let peer = NetworkManager::new("a", storage, db);
    let (b, report) = clone_from(&peer, "x").unwrap();
    assert!(!report.is_complete());
    assert_eq!(report.failed_files, vec![gone.clone()]);
    assert_eq!(report.files, vec![there.clone()]);
    assert_eq!(report.commits, 1);
    assert!(b.storage().has_object(&there));
    assert!(!b.storage().has_object(&gone));
    assert!(b.database().get_commit("c1").is_some());
}

#[test]
fn a_manifest_with_a_missing_chunk_fails_as_a_file() {
    let mut storage = StorageManager::new();
    let chunk = storage.store(b"chunk one");
    let text = format!("{{\"total_size\":18,\"chunks\":[\"{}\",\"{}\"]}}", chunk, "2".repeat(64));
    let manifest = storage.store(text.as_bytes());
    let mut db = DatabaseManager::new();
    db.create_commit("c1", "m", 1, &vec![], &vec![("f".to_string(), manifest.clone(), 18)], false).unwrap();
    let peer = NetworkManager::new("a", storage, db);
    let (b, report) = clone_from(&peer, "x").unwrap();
    assert_eq!(report.failed_files, vec![manifest.clone()]);
    assert_eq!(report.files, Vec::<String>::new());
    // what came is kept
    assert!(b.storage().has_object(&manifest));
    assert!(b.storage().has_object(&chunk));
    assert_eq!(fetch_from(peer.storage(), &manifest), Err(FaiError::Unavailable));
}

#[test]
fn a_blob_that_is_not_what_was_asked_for_fails() {
    let (a, _, _, _) = repository_a();
    let commits = a.get_all_commits();
    let mut session = SyncSession::start_pull(FaiProtocol::new(), commits);
    let first = session.next_request().unwrap();
    session.on_response(Some(b"something else".to_vec()));
    let second = session.next_request().unwrap();
    assert_ne!(first.hash, second.hash);
    session.on_response(None);
    assert!(session.next_request().is_none());
    session.on_response(Some(b"late".to_vec()));
    let (repo, report) = session.finish();
    assert_eq!(report.failed_files, vec![first.hash, second.hash]);
    assert_eq!(report.files, Vec::<String>::new());
    assert_eq!(report.commits, 2);
    // a blob that came is stored under its own digest
    assert!(repo.storage().has_object(&blake3::hash(b"something else").to_hex().to_string()));
    assert!(!repo.storage().has_object(&blake3::hash(b"late").to_hex().to_string()));
}

#[test]
fn pull_fetches_what_is_missing_and_leaves_head() {
    let (a, c1, c2, big) = repository_a();
    let big_digest = a.get_commit_files(&c2)[0].1.clone();
    let peer = serving(a);

    let mut b = FaiProtocol::new_at("b");
    b.add_file("small.txt", Some(b"a small file")).unwrap();
    let own = b.commit("own", 500).unwrap();

    let (b, report) = pull_from(&peer, b, Some(&c2));
    assert!(report.is_complete());
    assert_eq!(report.commits, 1);
    // the small file was there already
    assert_eq!(report.files, vec![big_digest.clone()]);
    assert_eq!(b.get_head_commit(), Some(own.clone()));
    let hashes: Vec<String> = b.get_all_commits().into_iter().map(|c| c.hash).collect();
    assert_eq!(hashes, vec![c2.clone(), own.clone()]);
    assert_eq!(b.storage().retrieve(&big_digest).unwrap(), big);

    let (b, report) = pull_from(&peer, b, None);
    assert!(report.is_complete());
    assert_eq!(report.commits, 2);
    assert_eq!(report.files, Vec::<String>::new());
    let hashes: Vec<String> = b.get_all_commits().into_iter().map(|c| c.hash).collect();
    assert_eq!(hashes, vec![c2, c1, own.clone()]);
    assert_eq!(b.get_head_commit(), Some(own));

    let (b, report) = pull_from(&peer, b, Some("unknown"));
    assert_eq!(report.commits, 0);
    assert_eq!(b.get_all_commits().len(), 3);
}

#[test]
fn commits_that_the_index_refuses_are_reported() {
    let good = Commit {
        hash: "c1".to_string(),
        message: "m".to_string(),
        timestamp: 1,
        parents: vec![],
        is_merge: false,
        files: vec![],
    };
    let blank = Commit { hash: "c2".to_string(), message: "  ".to_string(), ..good.clone() };
    let early = Commit { hash: "c3".to_string(), timestamp: -1, ..good.clone() };
    let session = SyncSession::start_clone(FaiProtocol::new(), vec![blank, good, early]).unwrap();
    assert!(session.next_request().is_none());
    let (repo, report) = session.finish();
    assert!(!report.is_complete());
    assert_eq!(report.commits, 3);
    assert_eq!(report.refused_commits, vec!["c2".to_string(), "c3".to_string()]);
    assert_eq!(report.order, vec![0, 1, 2]);
    assert_eq!(report.settled, 3);
    assert_eq!(repo.get_all_commits().len(), 1);
    // the first received commit that nobody lists as a parent
    assert_eq!(repo.head_file(), "c2");
}

#[test]
fn the_tip_is_the_commit_that_is_nobodys_parent() {
    let commit = |hash: &str, parents: &[&str]| Commit {
        hash: hash.to_string(),
        message: "m".to_string(),
        timestamp: 1,
        parents: parents.iter().map(|p| p.to_string()).collect(),
        is_merge: false,
        files: vec![],
    };
    assert_eq!(find_tip(&vec![]), None);
    assert_eq!(find_tip(&vec![commit("a", &[])]), Some(0));
    assert_eq!(find_tip(&vec![commit("a", &[]), commit("b", &["a"])]), Some(1));
    assert_eq!(find_tip(&vec![commit("c", &["b"]), commit("b", &["a"]), commit("a", &[])]), Some(0));
    assert_eq!(find_tip(&vec![commit("a", &["b"]), commit("b", &["a"])]), None);
    assert_eq!(find_tip(&vec![commit("a", &["a"]), commit("x", &[]), commit("y", &[])]), Some(1));
}

#[test]
fn a_fetch_of_a_manifest_gives_the_file_byte_for_byte() {
    let mut storage = StorageManager::new();
    let data: Vec<u8> = (0..(5 * CHUNK + 17)).map(|i| (i % 253) as u8).collect();
    let m = storage.store(&data);
    assert!(storage.is_manifest(&m));
    assert_eq!(fetch_from(&storage, &m).unwrap(), data);
    let small = storage.store(b"small");
    assert_eq!(fetch_from(&storage, &small).unwrap(), b"small".to_vec());
    assert_eq!(fetch_from(&storage, "nothing"), Err(FaiError::Unavailable));
}

#[test]
fn a_fetch_asks_for_the_blob_and_then_for_each_chunk() {
    let mut storage = StorageManager::new();
    let data = vec![0x5Au8; 2 * CHUNK + CHUNK / 2];
    let m = storage.store(&data);
    let mut session = FetchSession::new(&m);
    let mut asked: Vec<String> = Vec::new();
    while let Some(request) = session.next_request() {
        asked.push(request.hash.clone());
        session.on_response(answer_chunk_request(&storage, &request).data);
    }
    assert_eq!(asked.len(), 4);
    assert_eq!(asked[0], m);
    assert_eq!(asked[1], asked[2]);
    assert_ne!(asked[2], asked[3]);
    assert_eq!(session.finish(), Some(Ok(data)));

    let session = FetchSession::new(&m);
    assert_eq!(session.finish(), None);

    let mut session = FetchSession::new(&m);
    session.on_response(Some(b"{ no manifest".to_vec()));
    assert!(session.next_request().is_none());
    assert_eq!(session.finish(), Some(Err(FaiError::Invalid)));

    let mut session = FetchSession::new("x");
    session.on_response(Some(b"{\"total_size\":0,\"chunks\":[]}".to_vec()));
    assert_eq!(session.finish(), Some(Ok(vec![])));
}

#[test]
fn commits_are_put_in_parents_first() {
    let commit = |hash: &str, parents: &[&str]| Commit {
        hash: hash.to_string(),
        message: "m".to_string(),
        timestamp: 1,
        parents: parents.iter().map(|p| p.to_string()).collect(),
        is_merge: false,
        files: vec![],
    };
    assert_eq!(plan_order(&vec![]), (vec![], 0));
    // newest first, as a peer sends its history
    let history = vec![commit("c", &["b"]), commit("b", &["a"]), commit("a", &[])];
    assert_eq!(plan_order(&history), (vec![2, 1, 0], 3));
    // a parent that was not received holds nothing up
    let partial = vec![commit("c", &["b", "x"]), commit("b", &["gone"])];
    assert_eq!(plan_order(&partial), (vec![1, 0], 2));
    // a merge waits for both parents
    let merge = vec![commit("m", &["l", "r"]), commit("l", &["a"]), commit("a", &[]), commit("r", &["a"])];
    assert_eq!(plan_order(&merge), (vec![2, 3, 1, 0], 4));
    // commits that list each other in a circle come last, as they were received
    let circle = vec![commit("x", &["y"]), commit("a", &[]), commit("y", &["x"]), commit("z", &["y", "a"])];
    assert_eq!(plan_order(&circle), (vec![1, 0, 2, 3], 1));
    let own = vec![commit("s", &["s"])];
    assert_eq!(plan_order(&own), (vec![0], 0));
}

#[test]
fn a_clone_reports_the_order_of_its_commits() {
    let (a, c1, c2, _) = repository_a();
    let peer = serving(a);
    let (b, report) = clone_from(&peer, "x").unwrap();
    // the peer sends c2 first; c1 is its parent and is put in first
    assert_eq!(report.order, vec![1, 0]);
    assert_eq!(report.settled, 2);
    let hashes: Vec<String> = b.get_all_commits().into_iter().map(|c| c.hash).collect();
    assert_eq!(hashes, vec![c2, c1]);
}

#[test]
fn a_clone_has_every_chunk_that_its_manifests_list() {
    let (a, _, c2, _) = repository_a();
    let big_digest = a.get_commit_files(&c2)[0].1.clone();
    let peer = serving(a);
    let (b, report) = clone_from(&peer, "/tmp/r3").unwrap();
    assert_eq!(report.failed_files, Vec::<String>::new());
    let mut manifests = 0;
    for c in b.get_all_commits() {
        for (_, digest, _) in &c.files {
            assert!(b.storage().has_object(digest));
            if b.storage().is_manifest(digest) {
                manifests += 1;
                let text = b.storage().open_chunk(digest).unwrap();
                let manifest = FileManifest::from_bytes(&text).unwrap();
                assert_eq!(manifest.chunks.len(), 2);
                for chunk in &manifest.chunks {
                    assert!(b.storage().has_object(chunk));
                    assert_eq!(b.storage().open_chunk(chunk), peer.storage().open_chunk(chunk));
                }
            }
        }
    }
    assert_eq!(manifests, 1);
    assert!(b.storage().is_manifest(&big_digest));
}

#[test]
fn the_history_of_a_clone_is_that_of_the_peer() {
    let (a, c1, c2, _) = repository_a();
    let peer = serving(a);
    let (b, _) = clone_from(&peer, "/tmp/r4").unwrap();
    let theirs = peer.database().get_all_commits();
    let ours = b.get_all_commits();
    assert_eq!(ours.len(), 2);
    assert_eq!(ours.len(), theirs.len());
    for (x, y) in ours.iter().zip(theirs.iter()) {
        assert_eq!(x.hash, y.hash);
        assert_eq!(x.message, y.message);
        assert_eq!(x.timestamp, y.timestamp);
        assert_eq!(x.parents, y.parents);
        assert_eq!(x.files, y.files);
        assert_eq!(x.is_merge, y.is_merge);
    }
    assert_eq!(ours[0].hash, c2);
    assert_eq!(ours[1].hash, c1);
}

#[test]
fn a_file_that_came_is_whole_though_another_failed() {
    let mut storage = StorageManager::new();
    let chunk = storage.store(b"chunk one");
    let broken = format!("{{\"total_size\":18,\"chunks\":[\"{}\",\"{}\"]}}", chunk, "2".repeat(64));
    let broken_digest = storage.store(broken.as_bytes());
    let sound = format!("{{\"total_size\":9,\"chunks\":[\"{}\"]}}", chunk);
    let sound_digest = storage.store(sound.as_bytes());
    let mut db = DatabaseManager::new();
    let files = vec![
        ("a".to_string(), broken_digest.clone(), 18),
        ("b".to_string(), sound_digest.clone(), 9),
    ];
    db.create_commit("c1", "m", 1, &vec![], &files, false).unwrap();
    let peer = NetworkManager::new("a", storage, db);
    let (b, report) = clone_from(&peer, "x").unwrap();
    assert_eq!(report.failed_files, vec![broken_digest]);
    assert_eq!(report.files, vec![sound_digest.clone()]);
    let text = b.storage().open_chunk(&sound_digest).unwrap();
    for listed in FileManifest::from_bytes(&text).unwrap().chunks {
        assert!(b.storage().has_object(&listed));
    }
    assert_eq!(b.storage().retrieve(&sound_digest).unwrap(), b"chunk one".to_vec());
}
