use fai_protocol::network::{
    ago, Ago, PeerInfo,
    answer_chunk_request, answer_commit_request, is_loopback_address, parse_peer_line,
    ChunkRequest, ChunkResponse, CommitRequest, CommitResponse, ConnectionStep, FAIEvent,
    NetworkAction, NetworkManager, Outcome, CHUNK_PROTOCOL, COMMIT_PROTOCOL, CONNECT_ATTEMPTS,
    PEER_TTL_SECS, QUERY_INTERVAL_SECS, REQUEST_TIMEOUT_MS,
};
use fai_protocol::{DatabaseManager, FaiError, StorageManager};

fn node() -> NetworkManager {
    NetworkManager::new("me", StorageManager::new(), DatabaseManager::new())
}

fn node_with_history() -> (NetworkManager, String) {
    let mut storage = StorageManager::new();
    let blob = storage.store(b"payload");
    let mut db = DatabaseManager::new();
    let files = vec![("f".to_string(), blob.clone(), 7)];
    db.create_commit("c1", "one", 10, &vec![], &files, false).unwrap();
    db.create_commit("c2", "two", 20, &vec!["c1".to_string()], &files, false).unwrap();
    (NetworkManager::new("me", storage, db), blob)
}

fn dial(action: &NetworkAction) -> &str {
    match action {
        NetworkAction::Dial { address } => address,
        other => panic!("no dial: {:?}", other),
    }
}

#[test]
fn the_protocol_is_fixed() {
    assert_eq!(CHUNK_PROTOCOL, "/fai/chunk/1.0.0");
    assert_eq!(COMMIT_PROTOCOL, "/fai/commit/1.0.0");
    assert_eq!(QUERY_INTERVAL_SECS, 5);
    assert_eq!(PEER_TTL_SECS, 60);
    assert_eq!(REQUEST_TIMEOUT_MS, 10_000);
    assert_eq!(CONNECT_ATTEMPTS, 50);
}

#[test]
fn a_new_node_knows_nobody() {
    let n = node();
    assert_eq!(n.local_peer_id(), "me");
    assert_eq!(n.list_peers().len(), 0);
    assert_eq!(n.listeners(), Vec::<String>::new());
    assert!(!n.is_connected("anyone"));
    assert_eq!(n.dial_plan("anyone"), None);
}

#[test]
fn a_chunk_that_is_not_there_is_answered_with_no_data() {
    let (mut n, blob) = node_with_history();
    let request = ChunkRequest { hash: "0".repeat(64) };
    let response = answer_chunk_request(n.storage(), &request);
    assert_eq!(response.hash, "0".repeat(64));
    assert_eq!(response.data, None);

    let actions = n.handle_swarm_event(
        FAIEvent::ChunkRequested { peer: "p".to_string(), channel: 7, request },
        0,
    );
    assert_eq!(actions.len(), 1);
    match &actions[0] {
        NetworkAction::SendChunk { channel, response } => {
            assert_eq!(*channel, 7);
            assert_eq!(response.hash, "0".repeat(64));
            assert_eq!(response.data, None);
        }
        other => panic!("{:?}", other),
    }
    // the node goes on serving
    let actions = n.handle_swarm_event(
        FAIEvent::ChunkRequested { peer: "p".to_string(), channel: 8, request: ChunkRequest { hash: blob.clone() } },
        0,
    );
    match &actions[0] {
        NetworkAction::SendChunk { channel, response } => {
            assert_eq!(*channel, 8);
            assert_eq!(response.hash, blob);
            assert_eq!(response.data, Some(b"payload".to_vec()));
        }
        other => panic!("{:?}", other),
    }
}

#[test]
fn a_manifest_is_served_as_its_text() {
    let mut storage = StorageManager::new();
    let data = vec![0x5Au8; 1048576 + 10];
    let m = storage.store(&data);
    let response = answer_chunk_request(&storage, &ChunkRequest { hash: m.clone() });
    let text = response.data.unwrap();
    assert_eq!(text[0], b'{');
    assert_eq!(text, storage.open_chunk(&m).unwrap());
    assert_ne!(text, data);
}

#[test]
fn commits_are_answered_from_the_index() {
    let (mut n, blob) = node_with_history();
    let all = answer_commit_request(n.database(), &CommitRequest { commit_hash: None });
    let hashes: Vec<&str> = all.commits.iter().map(|c| c.hash.as_str()).collect();
    assert_eq!(hashes, vec!["c2", "c1"]);
    assert_eq!(all.commits[0].parents, vec!["c1".to_string()]);
    assert_eq!(all.commits[0].files, vec![("f".to_string(), blob, 7)]);

    let one = answer_commit_request(n.database(), &CommitRequest { commit_hash: Some("c1".to_string()) });
    assert_eq!(one.commits.len(), 1);
    assert_eq!(one.commits[0].hash, "c1");
    assert_eq!(one.commits[0].message, "one");
    assert_eq!(one.commits[0].timestamp, 10);

    let none = answer_commit_request(n.database(), &CommitRequest { commit_hash: Some("zz".to_string()) });
    assert_eq!(none.commits.len(), 0);

    let actions = n.handle_swarm_event(
        FAIEvent::CommitsRequested { peer: "p".to_string(), channel: 3, request: CommitRequest { commit_hash: None } },
        0,
    );
    match &actions[0] {
        NetworkAction::SendCommits { channel, response } => {
            assert_eq!(*channel, 3);
            assert_eq!(response.commits.len(), 2);
        }
        other => panic!("{:?}", other),
    }
}

#[test]
fn discovered_peers_are_noted_and_dialled() {
    let mut n = node();
    let found = vec![
        ("ann".to_string(), "/ip4/10.0.0.1/tcp/1".to_string()),
        ("bob".to_string(), "/ip4/10.0.0.2/tcp/1".to_string()),
        ("ann".to_string(), "/ip4/127.0.0.1/tcp/1".to_string()),
        ("ann".to_string(), "/ip4/10.0.0.1/tcp/1".to_string()),
    ];
    let actions = n.handle_swarm_event(FAIEvent::Discovered(found), 111);
    let dials: Vec<&str> = actions.iter().map(dial).collect();
    assert_eq!(
        dials,
        vec!["/ip4/10.0.0.1/tcp/1", "/ip4/10.0.0.2/tcp/1", "/ip4/127.0.0.1/tcp/1", "/ip4/10.0.0.1/tcp/1"]
    );
    let peers = n.list_peers();
    assert_eq!(peers.len(), 2);
    assert_eq!(peers[0].peer_id, "ann");
    assert_eq!(peers[0].addresses, vec!["/ip4/10.0.0.1/tcp/1", "/ip4/127.0.0.1/tcp/1"]);
    assert_eq!(peers[0].last_seen, 111);
    assert_eq!(peers[1].peer_id, "bob");

    // loopback addresses are tried first
    assert_eq!(
        n.dial_plan("ann"),
        Some(vec!["/ip4/127.0.0.1/tcp/1".to_string(), "/ip4/10.0.0.1/tcp/1".to_string()])
    );

    // a peer to which a connection stands is not dialled again
    n.handle_swarm_event(FAIEvent::ConnectionEstablished { peer: "bob".to_string() }, 112);
    let actions = n.handle_swarm_event(
        FAIEvent::Discovered(vec![
            ("bob".to_string(), "/ip4/10.0.0.9/tcp/1".to_string()),
            ("cat".to_string(), "/ip4/10.0.0.3/tcp/1".to_string()),
        ]),
        120,
    );
    let dials: Vec<&str> = actions.iter().map(dial).collect();
    assert_eq!(dials, vec!["/ip4/10.0.0.3/tcp/1"]);
    let peers = n.list_peers();
    assert_eq!(peers[1].addresses.len(), 2);
    assert_eq!(peers[1].last_seen, 120);
    assert_eq!(peers[0].last_seen, 111);

    let actions = n.handle_swarm_event(
        FAIEvent::Expired(vec![("ann".to_string(), "x".to_string()), ("zed".to_string(), "x".to_string())]),
        130,
    );
    assert_eq!(actions.len(), 0);
    let ids: Vec<String> = n.list_peers().into_iter().map(|p| p.peer_id).collect();
    assert_eq!(ids, vec!["bob", "cat"]);
}

#[test]
fn connections_and_listeners_are_noted() {
    let mut n = node();
    assert_eq!(n.connection_step("p", 0), ConnectionStep::Wait);
    assert_eq!(n.connection_step("p", 49), ConnectionStep::Wait);
    assert_eq!(n.connection_step("p", 50), ConnectionStep::GiveUp);
    assert_eq!(ConnectionStep::GiveUp.failure(), Some(FaiError::Network));
    assert_eq!(ConnectionStep::Wait.failure(), None);
    assert_eq!(ConnectionStep::Ready.failure(), None);
    n.handle_swarm_event(FAIEvent::ConnectionEstablished { peer: "p".to_string() }, 0);
    n.handle_swarm_event(FAIEvent::ConnectionEstablished { peer: "p".to_string() }, 0);
    assert!(n.is_connected("p"));
    assert_eq!(n.connection_step("p", 50), ConnectionStep::Ready);
    n.handle_swarm_event(FAIEvent::ConnectionClosed { peer: "p".to_string(), remaining: 1 }, 0);
    assert!(n.is_connected("p"));
    n.handle_swarm_event(FAIEvent::ConnectionClosed { peer: "p".to_string(), remaining: 0 }, 0);
    assert!(!n.is_connected("p"));
    n.handle_swarm_event(FAIEvent::NewListenAddr { address: "/ip4/0.0.0.0/tcp/4001".to_string() }, 0);
    assert_eq!(n.listeners(), vec!["/ip4/0.0.0.0/tcp/4001".to_string()]);
    assert_eq!(n.handle_swarm_event(FAIEvent::Other, 0).len(), 0);
    assert_eq!(n.handle_swarm_event(FAIEvent::ChunkFailed { request_id: 1 }, 0).len(), 0);
}

#[test]
fn a_request_for_a_chunk_ends_with_its_answer() {
    let mut n = node();
    let answer = FAIEvent::ChunkAnswered {
        request_id: 5,
        response: ChunkResponse { hash: "h".to_string(), data: Some(vec![1, 2, 3]) },
    };
    match n.request_chunk(5, answer, 0, 20_000) {
        (Outcome::Done(Some(data)), actions) => {
            assert_eq!(data, vec![1, 2, 3]);
            assert_eq!(actions.len(), 0);
        }
        other => panic!("{:?}", other),
    }
    // the peer does not have it: no data, and no failure
    let answer = FAIEvent::ChunkAnswered { request_id: 5, response: ChunkResponse { hash: "h".to_string(), data: None } };
    assert!(matches!(n.request_chunk(5, answer, 0, 0), (Outcome::Done(None), _)));
    // the answer to another request is not ours
    let answer = FAIEvent::ChunkAnswered { request_id: 6, response: ChunkResponse { hash: "h".to_string(), data: None } };
    assert!(matches!(n.request_chunk(5, answer, 0, 9_999), (Outcome::Pending, _)));
    let answer = FAIEvent::ChunkAnswered { request_id: 6, response: ChunkResponse { hash: "h".to_string(), data: None } };
    assert!(matches!(n.request_chunk(5, answer, 0, 10_000), (Outcome::Failed(FaiError::Timeout), _)));
    assert!(matches!(
        n.request_chunk(5, FAIEvent::ChunkFailed { request_id: 5 }, 0, 0),
        (Outcome::Failed(FaiError::Unavailable), _)
    ));
    assert!(matches!(n.request_chunk(5, FAIEvent::ChunkFailed { request_id: 4 }, 0, 0), (Outcome::Pending, _)));
    // other events are handled while the request waits
    let (outcome, actions) = n.request_chunk(
        5,
        FAIEvent::Discovered(vec![("p".to_string(), "addr".to_string())]),
        77,
        1,
    );
    assert!(matches!(outcome, Outcome::Pending));
    assert_eq!(actions.len(), 1);
    assert_eq!(n.list_peers().len(), 1);
}

#[test]
fn a_request_for_commits_ends_when_its_answer_has_come() {
    let (peer, _) = node_with_history();
    let commits = answer_commit_request(peer.database(), &CommitRequest { commit_hash: None }).commits;
    let mut n = node();
    assert!(matches!(n.request_commits(9, None, 0, 0), (Outcome::Pending, _)));
    assert!(matches!(n.request_commits(9, None, 0, 10_000), (Outcome::Failed(FaiError::Timeout), _)));
    assert!(matches!(
        n.request_commits(9, Some(FAIEvent::CommitsFailed { request_id: 9 }), 0, 0),
        (Outcome::Failed(FaiError::Unavailable), _)
    ));
    assert!(matches!(
        n.request_commits(9, Some(FAIEvent::CommitsFailed { request_id: 8 }), 0, 0),
        (Outcome::Pending, _)
    ));
    // the answer to another request waits for its own fetch
    let other = FAIEvent::CommitsAnswered { request_id: 8, response: CommitResponse { commits: vec![] } };
    assert!(matches!(n.request_commits(9, Some(other), 0, 0), (Outcome::Pending, _)));
    let ours = FAIEvent::CommitsAnswered { request_id: 9, response: CommitResponse { commits } };
    match n.request_commits(9, Some(ours), 0, 99_999) {
        (Outcome::Done(got), _) => {
            assert_eq!(got.len(), 2);
            assert_eq!(got[0].hash, "c2");
        }
        other => panic!("{:?}", other),
    }
    // it was taken from the waiting answers
    assert!(matches!(n.request_commits(9, None, 0, 0), (Outcome::Pending, _)));
    match n.request_commits(8, None, 0, 0) {
        (Outcome::Done(got), _) => assert_eq!(got.len(), 0),
        other => panic!("{:?}", other),
    }
}

#[test]
fn peers_are_added_by_hand() {
    let mut n = node();
    assert_eq!(dial(&n.connect_to_peer("/ip4/9.9.9.9/tcp/1")), "/ip4/9.9.9.9/tcp/1");
    assert_eq!(n.list_peers().len(), 0);
    let action = n.add_peer_manually("ann", "/ip4/1.2.3.4/tcp/5", 9);
    assert_eq!(dial(&action), "/ip4/1.2.3.4/tcp/5");
    assert!(n.load_peer("me", "/ip4/1.2.3.4/tcp/6", 9).is_none());
    let action = n.load_peer("bob", "/ip4/1.2.3.4/tcp/7", 9).unwrap();
    assert_eq!(dial(&action), "/ip4/1.2.3.4/tcp/7");
    let actions = n.connect_to_known_peers(
        &vec![("ann".to_string(), "a1".to_string()), ("cat".to_string(), "a3".to_string())],
        10,
    );
    assert_eq!(actions.iter().map(dial).collect::<Vec<_>>(), vec!["a1", "a3"]);
    let peers = n.list_peers();
    assert_eq!(peers.iter().map(|p| p.peer_id.as_str()).collect::<Vec<_>>(), vec!["ann", "bob", "cat"]);
    assert_eq!(peers[0].addresses, vec!["/ip4/1.2.3.4/tcp/5", "a1"]);
    assert_eq!(peers[0].last_seen, 10);
    assert_eq!(peers[1].last_seen, 9);
}

#[test]
fn a_line_of_a_peer_list_names_a_peer_and_an_address() {
    assert_eq!(
        parse_peer_line("12D3KooW /ip4/127.0.0.1/tcp/4001"),
        Some(("12D3KooW".to_string(), "/ip4/127.0.0.1/tcp/4001".to_string()))
    );
    assert_eq!(
        parse_peer_line("  \tid\u{a0}\u{a0}addr  more words\n"),
        Some(("id".to_string(), "addr".to_string()))
    );
    assert_eq!(parse_peer_line("p\u{e9} \u{4e2d}"), Some(("p\u{e9}".to_string(), "\u{4e2d}".to_string())));
    assert_eq!(parse_peer_line(""), None);
    assert_eq!(parse_peer_line("   "), None);
    assert_eq!(parse_peer_line("only"), None);
    assert_eq!(parse_peer_line(" only \n"), None);
}

#[test]
fn loopback_addresses_are_known_by_their_text() {
    assert!(is_loopback_address("/ip4/127.0.0.1/tcp/4001"));
    assert!(is_loopback_address("127.0.0.1"));
    assert!(is_loopback_address("x127.0.0.12"));
    assert!(!is_loopback_address("/ip4/127.0.0.2/tcp/4001"));
    assert!(!is_loopback_address("127.0.0."));
    assert!(!is_loopback_address(""));
    assert!(!is_loopback_address("/ip4/10.0.0.1/tcp/127"));
}

#[test]
fn how_long_ago_a_peer_was_seen() {
    assert_eq!(ago(0), Ago::Seconds(0));
    assert_eq!(ago(59), Ago::Seconds(59));
    assert_eq!(ago(60), Ago::Minutes(1));
    assert_eq!(ago(3599), Ago::Minutes(59));
    assert_eq!(ago(3600), Ago::Hours(1));
    assert_eq!(ago(7300), Ago::Hours(2));
    let peer = PeerInfo { peer_id: "ann".to_string(), addresses: vec![], last_seen: 10_000 };
    assert_eq!(peer.seen_ago(10_999), Ago::Seconds(0));
    assert_eq!(peer.seen_ago(75_000), Ago::Minutes(1));
    assert_eq!(peer.seen_ago(5_000), Ago::Seconds(0));
}

#[test]
fn a_later_answer_to_a_request_takes_the_place_of_the_earlier() {
    let (peer, _) = node_with_history();
    let commits = answer_commit_request(peer.database(), &CommitRequest { commit_hash: None }).commits;
    let mut n = node();
    let first = FAIEvent::CommitsAnswered { request_id: 3, response: CommitResponse { commits: vec![] } };
    assert_eq!(n.handle_swarm_event(first, 0).len(), 0);
    let second = FAIEvent::CommitsAnswered { request_id: 3, response: CommitResponse { commits } };
    assert_eq!(n.handle_swarm_event(second, 0).len(), 0);
    match n.request_commits(3, None, 0, 0) {
        (Outcome::Done(got), _) => assert_eq!(got.len(), 2),
        other => panic!("{:?}", other),
    }
    // one answer waited under the number, and it is gone
    assert!(matches!(n.request_commits(3, None, 0, 0), (Outcome::Pending, _)));
}
