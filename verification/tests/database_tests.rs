use fai_protocol::database::{is_blank_text, Commit, DatabaseManager};
use fai_protocol::FaiError;

fn file(path: &str, hash: &str, size: u64) -> (String, String, u64) {
    (path.to_string(), hash.to_string(), size)
}

#[test]
fn test_staging_operations() {
    let mut db = DatabaseManager::new();

    // Test adding to staging
    db.add_to_staging("test.txt", "hash123", 100);
    db.add_to_staging("model.onnx", "hash456", 2048);

    // Test getting staged files
    let staged = db.get_staged_files();
    assert_eq!(staged.len(), 2);
    // Check that both files are present (order guaranteed by the order of paths)
    assert!(staged.contains(&("model.onnx".to_string(), "hash456".to_string(), 2048)));
    assert!(staged.contains(&("test.txt".to_string(), "hash123".to_string(), 100)));

    // Test clearing staging
    db.clear_staging();
    let staged = db.get_staged_files();
    assert_eq!(staged.len(), 0);
}

#[test]
fn test_commit_operations() {
    let mut db = DatabaseManager::new();

    // Create initial commit
    let files = vec![
        ("file1.txt".to_string(), "hash1".to_string(), 100),
        ("file2.txt".to_string(), "hash2".to_string(), 200),
    ];
    db.create_commit("commit1", "Initial commit", 1_000, &vec![], &files, false)
        .unwrap();

    // Test getting commit
    let commit = db.get_commit("commit1");
    assert!(commit.is_some());
    let commit = commit.unwrap();
    assert_eq!(commit.hash, "commit1");
    assert_eq!(commit.message, "Initial commit");
    assert_eq!(commit.parents, Vec::<String>::new());
    assert_eq!(commit.is_merge, false);

    // Test getting commit files
    let commit_files = db.get_commit_files("commit1");
    assert_eq!(commit_files.len(), 2);
    assert!(commit_files.contains(&("file1.txt".to_string(), "hash1".to_string(), 100)));
    assert!(commit_files.contains(&("file2.txt".to_string(), "hash2".to_string(), 200)));

    // Test HEAD
    let head = db.get_head();
    assert_eq!(head, Some("commit1".to_string()));

    // Create second commit with parent, ten milliseconds later
    let files2 = vec![
        ("file1.txt".to_string(), "hash1_updated".to_string(), 150),
        ("file3.txt".to_string(), "hash3".to_string(), 300),
    ];
    db.create_commit("commit2", "Second commit", 1_010, &vec!["commit1".to_string()], &files2, false)
        .unwrap();

    // Test HEAD updated
    let head = db.get_head();
    assert_eq!(head, Some("commit2".to_string()));

    // Test commit history
    let history = db.get_commit_history(None);
    assert_eq!(history.len(), 2);
    assert!(history.iter().any(|c| c.hash == "commit1"));
    assert!(history.iter().any(|c| c.hash == "commit2"));
    // Most recent commit should be first
    assert_eq!(history[0].hash, "commit2");
    assert_eq!(history[0].parents, vec!["commit1".to_string()]);
}

#[test]
fn staged_files_come_in_the_order_of_their_paths() {
    let mut db = DatabaseManager::new();
    for path in ["b", "a/b", "a", "aa", "B", "", "\u{e9}", "z"] {
        db.add_to_staging(path, "h", 1);
    }
    let paths: Vec<String> = db.get_staged_files().into_iter().map(|f| f.0).collect();
    assert_eq!(paths, vec!["", "B", "a", "a/b", "aa", "b", "z", "\u{e9}"]);
}

#[test]
fn staging_a_path_again_replaces_its_entry() {
    let mut db = DatabaseManager::new();
    db.add_to_staging("a.bin", "h1", 1);
    db.add_to_staging("b.bin", "h2", 2);
    db.add_to_staging("a.bin", "h3", 3);
    assert_eq!(db.get_staged_files(), vec![file("a.bin", "h3", 3), file("b.bin", "h2", 2)]);
}

#[test]
fn a_commit_must_have_a_hash_a_message_and_a_time() {
    let mut db = DatabaseManager::new();
    let none: Vec<String> = vec![];
    let files = vec![file("a", "h", 1)];
    assert_eq!(db.create_commit("", "m", 1, &none, &files, false), Err(FaiError::Invalid));
    assert_eq!(db.create_commit("c", "", 1, &none, &files, false), Err(FaiError::Invalid));
    assert_eq!(db.create_commit("c", " \t\n\u{a0}\u{3000}", 1, &none, &files, false), Err(FaiError::Invalid));
    assert_eq!(db.create_commit("c", "m", -1, &none, &files, false), Err(FaiError::Invalid));
    assert_eq!(db.get_commit_history(None).len(), 0);
    assert_eq!(db.create_commit("c", " m ", 0, &none, &files, false), Ok(()));
    assert_eq!(db.get_commit_history(None).len(), 1);
}

#[test]
fn recording_a_commit_again_changes_nothing() {
    let mut db = DatabaseManager::new();
    let none: Vec<String> = vec![];
    db.create_commit("c", "first", 5, &none, &vec![file("a", "h", 1)], false).unwrap();
    db.create_commit("c", "second", 9, &vec!["p".to_string()], &vec![file("b", "k", 2)], true).unwrap();
    let c = db.get_commit("c").unwrap();
    assert_eq!(c.message, "first");
    assert_eq!(c.timestamp, 5);
    assert_eq!(c.parents, none);
    assert_eq!(c.is_merge, false);
    assert_eq!(c.files, vec![file("a", "h", 1)]);
    assert_eq!(db.get_commit_history(None).len(), 1);
}

#[test]
fn the_history_stands_newest_first_and_by_hash_at_the_same_time() {
    let mut db = DatabaseManager::new();
    let none: Vec<String> = vec![];
    let files: Vec<(String, String, u64)> = vec![];
    for (hash, time) in [("b", 10), ("a", 10), ("z", 5), ("c", 10), ("m", 20)] {
        db.create_commit(hash, "m", time, &none, &files, false).unwrap();
    }
    let order: Vec<String> = db.get_commit_history(None).into_iter().map(|c| c.hash).collect();
    assert_eq!(order, vec!["m", "c", "b", "a", "z"]);
    assert_eq!(db.get_head(), Some("m".to_string()));
    assert_eq!(db.get_head_commit(), Some("m".to_string()));
    let all: Vec<String> = db.get_all_commits().into_iter().map(|c| c.hash).collect();
    assert_eq!(all, order);
}

#[test]
fn the_history_can_be_limited() {
    let mut db = DatabaseManager::new();
    let none: Vec<String> = vec![];
    let files: Vec<(String, String, u64)> = vec![];
    for (hash, time) in [("a", 1), ("b", 2), ("c", 3)] {
        db.create_commit(hash, "m", time, &none, &files, false).unwrap();
    }
    let hashes = |limit: Option<i32>| -> Vec<String> {
        db.get_commit_history(limit).into_iter().map(|c| c.hash).collect()
    };
    assert_eq!(hashes(Some(0)), Vec::<String>::new());
    assert_eq!(hashes(Some(2)), vec!["c", "b"]);
    assert_eq!(hashes(Some(3)), vec!["c", "b", "a"]);
    assert_eq!(hashes(Some(99)), vec!["c", "b", "a"]);
    assert_eq!(hashes(Some(-1)), vec!["c", "b", "a"]);
    assert_eq!(hashes(None), vec!["c", "b", "a"]);
}

#[test]
fn the_files_of_a_commit_are_sorted_and_the_first_entry_of_a_path_stays() {
    let mut db = DatabaseManager::new();
    let none: Vec<String> = vec![];
    let files = vec![file("b", "h1", 1), file("a", "h2", 2), file("b", "h3", 3), file("c", "h4", 4)];
    db.create_commit("c1", "m", 1, &none, &files, false).unwrap();
    assert_eq!(
        db.get_commit_files("c1"),
        vec![file("a", "h2", 2), file("b", "h1", 1), file("c", "h4", 4)]
    );
    assert_eq!(db.get_commit_files("nothing"), vec![]);
    assert!(db.get_commit("nothing").is_none());
}

#[test]
fn parents_keep_their_order() {
    let mut db = DatabaseManager::new();
    let parents = vec!["z".to_string(), "a".to_string(), "z".to_string()];
    db.create_commit("c1", "merge", 1, &parents, &vec![], true).unwrap();
    let c: Commit = db.get_commit("c1").unwrap();
    assert_eq!(c.parents, parents);
    assert!(c.is_merge);
}

#[test]
fn an_empty_index_has_no_head() {
    let db = DatabaseManager::new();
    assert_eq!(db.get_head(), None);
    assert_eq!(db.get_commit_history(None).len(), 0);
    assert_eq!(db.get_staged_files().len(), 0);
    assert_eq!(db.get_current_ref(), "refs/heads/main");
    assert_eq!(db.get_current_branch(), Ok("main".to_string()));
}

#[test]
fn branches_are_made_moved_and_removed() {
    let mut db = DatabaseManager::new();
    assert!(!db.branch_exists("dev"));
    assert_eq!(db.create_branch("dev", "c1"), Ok(()));
    assert_eq!(db.create_branch("main", "c0"), Ok(()));
    assert_eq!(db.create_branch("dev", "c2"), Err(FaiError::Invalid));
    assert!(db.branch_exists("dev"));
    assert_eq!(db.get_branch_head("dev"), Some("c1".to_string()));
    assert_eq!(db.get_branch_head("none"), None);
    assert_eq!(db.update_branch_head("dev", "c3"), Ok(()));
    assert_eq!(db.update_branch_head("none", "c3"), Err(FaiError::NotFound));
    assert_eq!(
        db.list_branches(),
        vec![("dev".to_string(), "c3".to_string()), ("main".to_string(), "c0".to_string())]
    );
    // the branch that is checked out stays
    assert_eq!(db.delete_branch("main"), Err(FaiError::Invalid));
    assert_eq!(db.delete_branch("none"), Err(FaiError::NotFound));
    assert_eq!(db.delete_branch("dev"), Ok(()));
    assert_eq!(db.list_branches(), vec![("main".to_string(), "c0".to_string())]);
    db.set_current_ref("detached");
    assert_eq!(db.get_current_branch(), Err(FaiError::NotFound));
    assert_eq!(db.delete_branch("main"), Ok(()));
    db.set_current_ref("refs/heads/");
    assert_eq!(db.get_current_branch(), Ok(String::new()));
    db.set_current_ref("refs/heads/f\u{e9}");
    assert_eq!(db.get_current_branch(), Ok("f\u{e9}".to_string()));
}

#[test]
fn blank_texts_are_known() {
    assert!(is_blank_text(""));
    assert!(is_blank_text(" \t\r\n\u{b}\u{c}\u{85}\u{a0}\u{1680}\u{2000}\u{200a}\u{2028}\u{2029}\u{202f}\u{205f}\u{3000}"));
    assert!(!is_blank_text(" x "));
    assert!(!is_blank_text("\u{200b}"));
    assert!(!is_blank_text("\u{180e}"));
}
