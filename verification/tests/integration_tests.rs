use fai_protocol::services::{BranchService, CliService};
use fai_protocol::{FaiError, FaiProtocol};

fn init() -> FaiProtocol {
    CliService::new(".").init_repo(false).unwrap()
}

#[test]
fn test_basic_repository_workflow() {
    // init
    let mut repo = init();
    assert_eq!(repo.fai_path(), "./.fai");

    // add
    let hash = repo.add_file("test.txt", Some(b"test content")).unwrap();

    // commit
    let commit = repo.commit("Integration test commit", 1_000).unwrap();

    // status
    assert_eq!(repo.get_status().len(), 0);

    // log
    let log = repo.get_log();
    assert_eq!(log.len(), 1);
    assert_eq!(log[0].hash, commit);
    assert_eq!(log[0].message, "Integration test commit");

    // objects
    assert!(repo.storage().has_object(&hash));
}

#[test]
fn test_data_integrity() {
    let mut repo = init();
    let content = b"important test data for integrity verification";
    let hash = repo.add_file("integrity_test.txt", Some(content)).unwrap();
    repo.commit("Integrity test commit", 1_000).unwrap();

    assert!(repo.storage().object_count() > 0);
    assert_eq!(repo.storage().retrieve(&hash).unwrap(), content.to_vec());
    assert_eq!(repo.retrieve(&hash).unwrap(), content.to_vec());
    assert_eq!(hash, blake3::hash(content).to_hex().to_string());
}

#[test]
fn test_multiple_file_operations() {
    let mut repo = init();
    let files = [
        ("file1.txt", "Content of file 1"),
        ("file2.txt", "Content of file 2"),
        ("model.onnx", "fake model content for testing"),
    ];
    for (name, content) in files {
        repo.add_file(name, Some(content.as_bytes())).unwrap();
    }
    let staged = repo.get_status();
    assert_eq!(staged.len(), 3);
    let commit = repo.commit("Multiple files commit", 1_000).unwrap();
    assert_eq!(repo.get_status().len(), 0);
    assert_eq!(repo.get_commit_files(&commit), staged);
    for (i, (name, content)) in files.iter().enumerate() {
        assert_eq!(staged[i].0, *name);
        assert_eq!(staged[i].2, content.len() as u64);
    }
}

#[test]
fn test_error_handling() {
    let mut repo = init();
    // adding a file that is not there fails
    assert_eq!(repo.add_file("nonexistent.txt", None), Err(FaiError::NotFound));
    // a commit without staged files fails
    assert_eq!(repo.commit("Empty commit", 1_000), Err(FaiError::Empty));
    // what the store cannot give out is told in the kinds of the repository
    assert_eq!(repo.retrieve("x"), Err(FaiError::Invalid));
    assert_eq!(repo.retrieve("nonexistenthash123456789"), Err(FaiError::NotFound));
    let manifest = repo.add_file("broken", Some(b"{ broken")).unwrap();
    assert_eq!(repo.retrieve(&manifest), Err(FaiError::Invalid));
}

#[test]
fn test_branch_operations() {
    let cli = CliService::new(".");
    let mut repo = init();
    repo.add_file("main.txt", Some(b"main branch content")).unwrap();
    let commit = repo.commit("Initial commit", 1_000).unwrap();

    let mut database = fai_protocol::DatabaseManager::new();
    for c in repo.get_all_commits() {
        database.create_commit(&c.hash, &c.message, c.timestamp, &c.parents, &c.files, c.is_merge).unwrap();
    }
    let mut service = BranchService::new(database);
    let outcome = cli.handle_branch_command(&mut service, true, Some("test-branch".to_string()), false, false);
    assert!(outcome.is_ok());
    assert_eq!(service.get_branch_head("test-branch"), Some(commit));
}

#[test]
fn a_commit_needs_the_blobs_of_its_files() {
    let mut database = fai_protocol::DatabaseManager::new();
    database.add_to_staging("f", &"0".repeat(64), 1);
    let mut repo = FaiProtocol::from_parts(".fai", fai_protocol::StorageManager::new(), database, "ref: refs/heads/main");
    assert_eq!(repo.commit("m", 1), Err(FaiError::NotFound));
    assert_eq!(repo.get_status().len(), 1);
    assert_eq!(repo.get_log().len(), 0);
}
