use fai_protocol::services::cli_service::BranchOutcome;
use fai_protocol::services::security_service::{default_config, RoleConfig, SecuritySettings};
use fai_protocol::services::{
    BranchInfo, BranchService, CliService, SecurityService, UserKeyPair, WebServiceConfig, WebState,
};
use fai_protocol::repository::hash_amended;
use fai_protocol::{DatabaseManager, FaiError, FaiProtocol};

fn service_with_commit() -> BranchService {
    let mut db = DatabaseManager::new();
    db.create_commit("0123456789abcdef", "m", 1, &vec![], &vec![], false).unwrap();
    BranchService::new(db)
}

#[test]
fn test_create_branch() {
    let service = BranchService::new(DatabaseManager::new());

    // Without a commit there is nothing to test but that the branch is not there
    assert!(!service.database.branch_exists("test"));
}

#[test]
fn a_branch_is_made_at_the_newest_commit_or_at_the_named_one() {
    let mut service = service_with_commit();
    assert_eq!(service.create_branch("dev", None), Ok(()));
    assert_eq!(service.create_branch("old", Some("beef")), Ok(()));
    assert_eq!(service.create_branch("dev", Some("beef")), Err(FaiError::Invalid));
    assert_eq!(service.get_branch_head("dev"), Some("0123456789abcdef".to_string()));
    assert_eq!(service.get_branch_head("old"), Some("beef".to_string()));
    let mut empty = BranchService::new(DatabaseManager::new());
    assert_eq!(empty.create_branch("dev", None), Err(FaiError::NotFound));
    assert_eq!(empty.create_branch("dev", Some("c")), Ok(()));
}

#[test]
fn branches_are_listed_with_their_marks() {
    let mut service = service_with_commit();
    service.create_branch("main", None).unwrap();
    service.create_branch("fresh", Some("0000000000000000000000000000000000000000")).unwrap();
    service.create_branch("x", Some("abc")).unwrap();
    let infos = service.list_branches();
    assert_eq!(infos.len(), 3);
    assert_eq!(infos[0].name, "main");
    assert!(infos[0].is_current);
    assert!(!infos[0].is_empty);
    assert_eq!(infos[0].short_hash(), "01234567");
    assert_eq!(infos[0].status_marker(), "* ");
    assert_eq!(infos[0].status_text(), "");
    assert_eq!(infos[1].name, "fresh");
    assert!(!infos[1].is_current);
    assert!(infos[1].is_empty);
    assert_eq!(infos[1].short_hash(), "00000000");
    assert_eq!(infos[1].status_marker(), "  ");
    assert_eq!(infos[1].status_text(), "(no commits)");
    assert_eq!(infos[2].short_hash(), "abc");

    assert_eq!(service.checkout_branch("x"), Ok(()));
    assert_eq!(service.get_current_branch(), Ok("x".to_string()));
    assert_eq!(service.database.get_current_ref(), "refs/heads/x");
    assert_eq!(service.checkout_branch("none"), Err(FaiError::NotFound));
    let infos = service.list_branches();
    assert!(!infos[0].is_current);
    assert!(infos[2].is_current);
    assert_eq!(service.delete_branch("x"), Err(FaiError::Invalid));
    assert_eq!(service.delete_branch("main"), Ok(()));
    assert_eq!(service.delete_branch("main"), Err(FaiError::NotFound));
    assert_eq!(service.update_branch_head("x", "def"), Ok(()));
    assert_eq!(service.get_branch_head("x"), Some("def".to_string()));
    assert_eq!(service.update_branch_head("main", "def"), Err(FaiError::NotFound));
}

#[test]
fn a_short_hash_is_never_cut_inside_a_character() {
    let info = |head: &str| BranchInfo {
        name: "b".to_string(),
        head_commit: head.to_string(),
        is_current: false,
        is_empty: false,
    };
    assert_eq!(info("12345678").short_hash(), "12345678");
    assert_eq!(info("123456789").short_hash(), "12345678");
    assert_eq!(info("1234567").short_hash(), "1234567");
    assert_eq!(info("").short_hash(), "");
    assert_eq!(info("1234567\u{e9}9").short_hash(), "1234567\u{e9}9");
    assert_eq!(info("123456\u{e9}9").short_hash(), "123456\u{e9}");
}

#[test]
fn the_command_line_decides_what_a_branch_command_does() {
    let cli = CliService::new("/work");
    assert_eq!(cli.repo_path(), "/work");
    assert_eq!(cli.check_repo_initialized(true), Ok(()));
    assert_eq!(cli.check_repo_initialized(false), Err(FaiError::NotFound));

    let mut service = service_with_commit();
    assert_eq!(
        cli.handle_branch_command(&mut service, false, Some("a".to_string()), false, false).err(),
        Some(FaiError::NotFound)
    );
    assert!(matches!(cli.handle_branch_command(&mut service, true, None, false, false), Ok(BranchOutcome::Help)));
    match cli.handle_branch_command(&mut service, true, Some("dev".to_string()), false, false) {
        Ok(BranchOutcome::Created { name, head }) => {
            assert_eq!(name, "dev");
            assert_eq!(head, "0123456789abcdef");
        }
        other => panic!("{:?}", other),
    }
    assert_eq!(
        cli.handle_branch_command(&mut service, true, Some("dev".to_string()), false, false).err(),
        Some(FaiError::Invalid)
    );
    match cli.handle_branch_command(&mut service, true, Some("ignored".to_string()), true, true) {
        Ok(BranchOutcome::Listed(infos)) => {
            assert_eq!(infos.len(), 1);
            assert_eq!(infos[0].name, "dev");
        }
        other => panic!("{:?}", other),
    }
    assert_eq!(
        cli.handle_branch_command(&mut service, true, None, true, false).err(),
        Some(FaiError::Invalid)
    );
    assert_eq!(
        cli.handle_branch_command(&mut service, true, Some("none".to_string()), true, false).err(),
        Some(FaiError::NotFound)
    );
    assert_eq!(cli.handle_checkout_command(&mut service, false, "dev"), Err(FaiError::NotFound));
    assert_eq!(cli.handle_checkout_command(&mut service, true, "none"), Err(FaiError::NotFound));
    assert_eq!(cli.handle_checkout_command(&mut service, true, "dev"), Ok(()));
    assert_eq!(
        cli.handle_branch_command(&mut service, true, Some("dev".to_string()), true, false).err(),
        Some(FaiError::Invalid)
    );
    service.database.set_current_ref("refs/heads/main");
    match cli.handle_branch_command(&mut service, true, Some("dev".to_string()), true, false) {
        Ok(BranchOutcome::Deleted(name)) => assert_eq!(name, "dev"),
        other => panic!("{:?}", other),
    }
    let mut empty = BranchService::new(DatabaseManager::new());
    assert_eq!(
        cli.handle_branch_command(&mut empty, true, Some("dev".to_string()), false, false).err(),
        Some(FaiError::NotFound)
    );
}

#[test]
fn test_security_service_initialization() {
    let security_service = SecurityService::new("/repo/.fai");
    assert_eq!(security_service.config_path(), "/repo/.fai");
    let config = default_config();
    assert_eq!(config.users.len(), 0);
    assert_eq!(config.roles.len(), 2);
    assert_eq!(config.roles[0].0, "admin");
    assert_eq!(config.roles[0].1.permissions, vec!["read", "write", "delete", "admin"]);
    assert_eq!(config.roles[1].0, "user");
    assert_eq!(config.roles[1].1.permissions, vec!["read", "write"]);
    assert!(config.settings.encryption_enabled);
    assert!(!config.settings.require_auth);
    assert_eq!(config.settings.session_timeout_minutes, 60);
    let again = fai_protocol::services::SecurityConfig::default();
    assert_eq!(again.roles.len(), 2);
    assert_eq!(again.roles[1].1.permissions, config.roles[1].1.permissions);
    let settings = SecuritySettings::default();
    assert!(settings.encryption_enabled);
    assert!(!settings.require_auth);
    assert_eq!(settings.session_timeout_minutes, 60);
    let role = RoleConfig { permissions: vec![] };
    assert_eq!(role.permissions.len(), 0);
}

#[test]
fn scrambling_is_its_own_inverse() {
    let service = SecurityService::new("x");
    let mut key = [0u8; 32];
    for (i, k) in key.iter_mut().enumerate() {
        *k = i as u8 + 1;
    }
    let data: Vec<u8> = (0..100).collect();
    let scrambled = service.simple_encrypt(&data, &key);
    assert_eq!(scrambled.len(), 100);
    assert_eq!(scrambled[0], 0 ^ 1);
    assert_eq!(scrambled[31], 31 ^ 32);
    assert_eq!(scrambled[32], 32 ^ 1);
    assert_eq!(scrambled[99], 99 ^ 4);
    assert_eq!(service.simple_decrypt(&scrambled, &key), data);
    assert_eq!(service.simple_encrypt(&[], &key), Vec::<u8>::new());
}

#[test]
fn the_key_of_a_user_is_the_hash_of_the_public_key_and_the_mark() {
    let service = SecurityService::new("x");
    let keypair = UserKeyPair {
        username: "u".to_string(),
        public_key: vec![1, 2, 3],
        private_key: vec![9, 9],
        created_at: 0,
    };
    let mut hasher = blake3::Hasher::new();
    hasher.update(&[1, 2, 3]);
    hasher.update(b"fai-encryption-key");
    let key = hasher.finalize();
    assert_eq!(service.derive_encryption_key(&[1, 2, 3]), *key.as_bytes());
    let secret = service.encrypt_for_user(&keypair, b"secret");
    assert_eq!(secret, service.simple_encrypt(b"secret", key.as_bytes()));
    assert_ne!(secret, b"secret".to_vec());
    assert_eq!(service.decrypt_for_user(&keypair, &secret), b"secret".to_vec());

    let mut hasher = blake3::Hasher::new();
    hasher.update(b"message");
    hasher.update(&[9, 9]);
    let signature = hasher.finalize();
    assert!(service.authenticate_user(&keypair, signature.as_bytes(), b"message"));
    assert!(!service.authenticate_user(&keypair, signature.as_bytes(), b"other"));
    assert!(!service.authenticate_user(&keypair, &signature.as_bytes()[..31], b"message"));
}

#[test]
fn permissions_are_those_of_the_user() {
    let service = SecurityService::new("x");
    let mut config = default_config();
    assert!(!service.check_permission(&config, "ann", "read", "r"));
    service.create_user(&mut config, "ann", "admin", vec!["read".to_string()], 5);
    service.create_user(&mut config, "bob", "user", vec![], 6);
    assert!(service.check_permission(&config, "ann", "read", "r"));
    // the role gives nothing by itself
    assert!(!service.check_permission(&config, "ann", "write", "r"));
    assert!(!service.check_permission(&config, "bob", "read", "r"));
    service.create_user(&mut config, "ann", "user", vec!["write".to_string()], 7);
    assert_eq!(config.users.len(), 2);
    assert_eq!(config.users[0].0, "ann");
    assert_eq!(config.users[0].1.role, "user");
    assert_eq!(config.users[0].1.created_at, 7);
    assert_eq!(config.users[0].1.last_login, None);
    assert!(service.check_permission(&config, "ann", "write", "r"));
    assert!(!service.check_permission(&config, "ann", "read", "r"));
    assert_eq!(config.roles.len(), 2);
}

#[test]
fn fresh_keys_have_32_bytes_each() {
    let service = SecurityService::new("x");
    let keypair = service.generate_user_keypair("ann", 77);
    assert_eq!(keypair.username, "ann");
    assert_eq!(keypair.created_at, 77);
    assert_eq!(keypair.public_key.len(), 32);
    assert_eq!(keypair.private_key.len(), 32);
    assert_ne!(keypair.public_key, keypair.private_key);
    let other = service.generate_user_keypair("ann", 77);
    assert_ne!(keypair.private_key, other.private_key);
}

#[test]
fn the_status_page_has_its_defaults() {
    let config = WebServiceConfig::default();
    assert_eq!(config.host, "127.0.0.1");
    assert_eq!(config.port, 8080);
    assert_eq!(config.static_dir, None);
    assert!(!config.enable_auth);
    assert_eq!(config.address(), ("127.0.0.1", 8080));
    let state = WebState::new("/repo".to_string());
    assert_eq!(state.repo_path(), "/repo");
}

#[test]
fn a_repository_is_made_once() {
    let cli = CliService::new("/work");
    let repo = cli.init_repo(false).unwrap();
    assert_eq!(repo.fai_path(), "/work/.fai");
    assert_eq!(repo.head_file(), "ref: refs/heads/main");
    assert_eq!(repo.get_log().len(), 0);
    assert_eq!(cli.init_repo(true).err(), Some(FaiError::Invalid));
}

#[test]
fn the_newest_commit_is_made_anew() {
    let cli = CliService::new(".");
    let mut repo = FaiProtocol::new();
    assert_eq!(cli.handle_commit_amend(&mut repo, true, None, 5), Err(FaiError::NotFound));
    let blob = repo.add_file("a", Some(b"a")).unwrap();
    let first = repo.commit("first", 10).unwrap();
    let second_blob = repo.add_file("b", Some(b"bb")).unwrap();
    let second = repo.commit("second", 20).unwrap();

    assert_eq!(cli.handle_commit_amend(&mut repo, false, None, 30), Err(FaiError::NotFound));
    assert_eq!(cli.handle_commit_amend(&mut repo, true, Some("  "), 30), Err(FaiError::Invalid));
    assert_eq!(cli.handle_commit_amend(&mut repo, true, None, -1), Err(FaiError::Invalid));
    assert_eq!(repo.get_head_commit(), Some(second.clone()));
    assert_eq!(repo.get_log().len(), 2);

    // nothing staged: the files and the message of the newest commit
    let amended = cli.handle_commit_amend(&mut repo, true, None, 30).unwrap();
    let files = vec![("b".to_string(), second_blob.clone(), 2)];
    assert_eq!(amended, hash_amended("second", "main", &files, &vec![first.clone()]));
    let mut text = b"secondmainb".to_vec();
    text.extend_from_slice(second_blob.as_bytes());
    text.extend_from_slice(b"2");
    text.extend_from_slice(first.as_bytes());
    assert_eq!(amended, blake3::hash(&text).to_hex().to_string());
    let commit = repo.database().get_commit(&amended).unwrap();
    assert_eq!(commit.message, "second");
    assert_eq!(commit.timestamp, 30);
    assert_eq!(commit.parents, vec![first.clone()]);
    assert_eq!(commit.files, files);
    assert_eq!(repo.get_head_commit(), Some(amended.clone()));
    // the old commit stays
    let hashes: Vec<String> = repo.get_all_commits().into_iter().map(|c| c.hash).collect();
    assert_eq!(hashes, vec![amended.clone(), second, first]);

    // staged files and a new message
    repo.add_file("c", Some(b"ccc")).unwrap();
    let again = cli.handle_commit_amend(&mut repo, true, Some("better"), 40).unwrap();
    let commit = repo.database().get_commit(&again).unwrap();
    assert_eq!(commit.message, "better");
    assert_eq!(commit.files.len(), 1);
    assert_eq!(commit.files[0].0, "c");
    assert_eq!(commit.parents, repo.database().get_commit(&amended).unwrap().parents);
    assert_eq!(repo.get_status().len(), 0);
    assert!(repo.storage().has_object(&blob));
}

#[test]
fn an_amended_commit_moves_the_branch_that_is_checked_out() {
    let mut storage = fai_protocol::StorageManager::new();
    let blob = storage.store(b"x");
    let mut db = DatabaseManager::new();
    db.create_commit("c1", "m", 1, &vec![], &vec![("f".to_string(), blob, 1)], false).unwrap();
    db.create_branch("main", "c1").unwrap();
    db.create_branch("other", "c1").unwrap();
    let mut repo = FaiProtocol::from_parts(".fai", storage, db, "c1");
    let amended = repo.amend(Some("n"), 2).unwrap();
    assert_eq!(repo.database().get_branch_head("main"), Some(amended));
    assert_eq!(repo.database().get_branch_head("other"), Some("c1".to_string()));

    let mut detached = FaiProtocol::new();
    detached.add_file("f", Some(b"x")).unwrap();
    detached.commit("m", 1).unwrap();
    let (storage, mut db) = (fai_protocol::StorageManager::new(), DatabaseManager::new());
    db.create_commit("c1", "m", 1, &vec![], &vec![], false).unwrap();
    db.set_current_ref("somewhere");
    let mut detached = FaiProtocol::from_parts(".fai", storage, db, "c1");
    assert_eq!(detached.amend(None, 2), Err(FaiError::NotFound));
}

#[test]
fn without_a_checked_out_branch_the_branch_named_detached_is_current() {
    let mut db = DatabaseManager::new();
    db.create_branch("main", "c1").unwrap();
    db.create_branch("detached", "c2").unwrap();
    db.set_current_ref("somewhere else");
    let service = BranchService::new(db);
    let infos = service.list_branches();
    assert_eq!(infos.len(), 2);
    assert!(!infos[0].is_current);
    assert!(infos[1].is_current);
    assert_eq!(infos[1].name, "detached");

    let mut db = DatabaseManager::new();
    db.create_branch("main", "c1").unwrap();
    db.create_branch("detached", "c2").unwrap();
    let service = BranchService::new(db);
    let infos = service.list_branches();
    assert!(infos[0].is_current);
    assert!(!infos[1].is_current);

    let mut db = DatabaseManager::new();
    db.create_branch("main", "c1").unwrap();
    db.set_current_ref("HEAD");
    let service = BranchService::new(db);
    assert!(service.list_branches().iter().all(|b| !b.is_current));
}
