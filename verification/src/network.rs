//! The sync engine: the table of discovered peers, the two request and
//! response channels, and what a node does on each event of the network.
//!
//! Nothing here touches a socket. The program that drives the transport
//! hands each event to `handle_swarm_event` and carries out the actions that
//! come back.

use crate::database::{
    clone_commit, commit_of, commits_view, Commit, CommitView, DatabaseManager, IndexView,
};
use crate::digest::digest_of;
use crate::manifest::strings_view;
use crate::error::FaiError;
use crate::database::{is_space, is_space_char};
use crate::repository::{contains_text, lead_spaces};
use crate::storage::{Objects, StorageManager};
use crate::text::{is_prefix, starts_with_bytes, str_eq, utf8};
use std::collections::HashMap;
use vstd::prelude::*;

verus! {

/// The name of the channel on which chunks are asked for.
pub const CHUNK_PROTOCOL: &'static str = "/fai/chunk/1.0.0";

/// The name of the channel on which commits are asked for.
pub const COMMIT_PROTOCOL: &'static str = "/fai/commit/1.0.0";

/// How often peers are looked for, in seconds.
pub const QUERY_INTERVAL_SECS: u64 = 5;

/// How long a peer that was seen is kept, in seconds.
pub const PEER_TTL_SECS: u64 = 60;

/// How long a request waits for its answer, in milliseconds.
pub const REQUEST_TIMEOUT_MS: u64 = 10000;

/// How often a connection is looked for before a request gives up.
pub const CONNECT_ATTEMPTS: u32 = 50;

/// A peer that was discovered.
#[derive(Debug, Clone)]
pub struct PeerInfo {
    /// The identity of the peer.
    pub peer_id: String,
    /// The addresses at which the peer was seen, oldest first.
    pub addresses: Vec<String>,
    /// When the peer was last seen, in milliseconds since the Unix epoch.
    pub last_seen: u64,
}

/// How long ago something was, as it is told: in seconds below a minute, in
/// whole minutes below an hour, and in whole hours from there on.
#[derive(Debug, Clone, Copy, PartialEq, Eq, Structural)]
pub enum Ago {
    Seconds(u64),
    Minutes(u64),
    Hours(u64),
}

/// How long ago a time that lies `seconds` back is told to be.
pub fn ago(seconds: u64) -> (r: Ago)
    ensures
        r == (if seconds < 60 {
            Ago::Seconds(seconds)
        } else if seconds < 3600 {
            Ago::Minutes(seconds / 60)
        } else {
            Ago::Hours(seconds / 3600)
        }),
{
    if seconds < 60 {
        Ago::Seconds(seconds)
    } else if seconds < 3600 {
        Ago::Minutes(seconds / 60)
    } else {
        Ago::Hours(seconds / 3600)
    }
}

impl PeerInfo {
    /// How long ago the peer was seen at the time `now`, both in
    /// milliseconds since the Unix epoch. A peer seen after `now` was seen
    /// just now.
    pub fn seen_ago(&self, now: u64) -> (r: Ago)
        ensures
            r == (if now >= self.last_seen {
                let seconds = ((now - self.last_seen) / 1000) as u64;
                if seconds < 60 {
                    Ago::Seconds(seconds)
                } else if seconds < 3600 {
                    Ago::Minutes(seconds / 60)
                } else {
                    Ago::Hours(seconds / 3600)
                }
            } else {
                Ago::Seconds(0)
            }),
    {
        if now >= self.last_seen {
            ago((now - self.last_seen) / 1000)
        } else {
            Ago::Seconds(0)
        }
    }
}

/// A request for the blob of a digest.
#[derive(Debug, Clone)]
pub struct ChunkRequest {
    /// The digest that is asked for.
    pub hash: String,
}

/// The answer to a request for a blob.
#[derive(Debug, Clone)]
pub struct ChunkResponse {
    /// The digest that was asked for.
    pub hash: String,
    /// The blob, or nothing where the peer does not have it.
    pub data: Option<Vec<u8>>,
}

/// A request for commits.
#[derive(Debug, Clone)]
pub struct CommitRequest {
    /// The digest of the one commit that is asked for, or nothing to ask
    /// for all.
    pub commit_hash: Option<String>,
}

/// The answer to a request for commits.
#[derive(Debug, Clone)]
pub struct CommitResponse {
    /// The commits, each with its parents and its files.
    pub commits: Vec<Commit>,
}

/// A peer as a mathematical value.
pub struct PeerView {
    pub peer_id: Seq<char>,
    pub addresses: Seq<Seq<char>>,
    pub last_seen: u64,
}

impl View for PeerInfo {
    type V = PeerView;

    open spec fn view(&self) -> PeerView {
        PeerView {
            peer_id: self.peer_id@,
            addresses: strings_view(self.addresses@),
            last_seen: self.last_seen,
        }
    }
}

/// The peers that a list of records stands for.
pub open spec fn peers_view(v: Seq<PeerInfo>) -> Seq<PeerView> {
    Seq::new(v.len(), |i: int| v[i]@)
}

/// The index of the peer `id` in the table, or the length of the table
/// where it is not there.
pub open spec fn peer_index(peers: Seq<PeerView>, id: Seq<char>) -> int
    decreases peers.len(),
{
    if peers.len() == 0 || peers[0].peer_id == id {
        0
    } else {
        1 + peer_index(peers.skip(1), id)
    }
}

/// Whether the table knows the peer `id`.
pub open spec fn knows(peers: Seq<PeerView>, id: Seq<char>) -> bool {
    peer_index(peers, id) < peers.len()
}

/// The table after the peer `id` was seen at `address` at the time `now`:
/// the address is added to those of the peer where it is new, and a peer
/// that was not known is added at the end.
pub open spec fn seen(peers: Seq<PeerView>, id: Seq<char>, address: Seq<char>, now: u64) -> Seq<
    PeerView,
> {
    let i = peer_index(peers, id);
    if i < peers.len() {
        let addresses = if peers[i].addresses.contains(address) {
            peers[i].addresses
        } else {
            peers[i].addresses.push(address)
        };
        peers.update(i, PeerView { peer_id: id, addresses, last_seen: now })
    } else {
        peers.push(PeerView { peer_id: id, addresses: seq![address], last_seen: now })
    }
}

/// The table without the peer `id`.
pub open spec fn forgotten(peers: Seq<PeerView>, id: Seq<char>) -> Seq<PeerView> {
    if knows(peers, id) {
        peers.remove(peer_index(peers, id))
    } else {
        peers
    }
}

/// No peer stands twice in the table.
pub open spec fn unique_peers(peers: Seq<PeerView>) -> bool {
    forall|i: int, j: int|
        0 <= i < j < peers.len() ==> (#[trigger] peers[i]).peer_id != (#[trigger] peers[j]).peer_id
}

/// The index of a peer is a place of the table or its length; no peer
/// before it has the identity, and the peer at it has.
pub proof fn lemma_peer_index(peers: Seq<PeerView>, id: Seq<char>)
    ensures
        0 <= peer_index(peers, id) <= peers.len(),
        forall|i: int| 0 <= i < peer_index(peers, id) ==> (#[trigger] peers[i]).peer_id != id,
        peer_index(peers, id) < peers.len() ==> peers[peer_index(peers, id)].peer_id == id,
    decreases peers.len(),
{
    if peers.len() > 0 && peers[0].peer_id != id {
        let rest = peers.skip(1);
        lemma_peer_index(rest, id);
        assert forall|i: int| 0 <= i < peer_index(peers, id) implies (#[trigger] peers[i]).peer_id
            != id by {
            if i > 0 {
                assert(peers[i] == rest[i - 1]);
            }
        }
        if peer_index(peers, id) < peers.len() {
            assert(peers[peer_index(peers, id)] == rest[peer_index(rest, id)]);
        }
    }
}

/// Seeing a peer and forgetting one leave the table with each peer once;
/// a peer that was forgotten is not known any more.
pub proof fn lemma_peers_stay_unique(peers: Seq<PeerView>, id: Seq<char>, address: Seq<char>, now: u64)
    requires
        unique_peers(peers),
    ensures
        unique_peers(seen(peers, id, address, now)),
        unique_peers(forgotten(peers, id)),
        knows(seen(peers, id, address, now), id),
        !knows(forgotten(peers, id), id),
{
    lemma_peer_index(peers, id);
    let k = peer_index(peers, id);
    let a = seen(peers, id, address, now);
    let b = forgotten(peers, id);
    assert forall|i: int, j: int| 0 <= i < j < a.len() implies (#[trigger] a[i]).peer_id != (
    #[trigger] a[j]).peer_id by {
        if k < peers.len() {
            assert(a[i].peer_id == peers[i].peer_id && a[j].peer_id == peers[j].peer_id);
        } else if j < peers.len() {
            assert(a[i] == peers[i] && a[j] == peers[j]);
        } else {
            assert(a[i] == peers[i]);
        }
    }
    assert forall|i: int, j: int| 0 <= i < j < b.len() implies (#[trigger] b[i]).peer_id != (
    #[trigger] b[j]).peer_id by {
        if k < peers.len() {
            let i0 = if i < k {
                i
            } else {
                i + 1
            };
            let j0 = if j < k {
                j
            } else {
                j + 1
            };
            assert(b[i] == peers[i0] && b[j] == peers[j0]);
        }
    }
    lemma_peer_index(a, id);
    if k < peers.len() {
        assert(a[k].peer_id == id);
    } else {
        assert(a[peers.len() as int].peer_id == id);
    }
    lemma_peer_index(b, id);
    if peer_index(b, id) < b.len() {
        let m = peer_index(b, id);
        if k < peers.len() {
            let m0 = if m < k {
                m
            } else {
                m + 1
            };
            assert(b[m] == peers[m0]);
            if m0 < k {
                assert(peers[m0].peer_id != id);
            } else {
                assert(peers[k].peer_id != peers[m0].peer_id);
            }
        }
    }
}

/// What a node answers to a request for the blob of `hash`: the blob as it
/// is stored, or nothing where the store does not have it.
pub open spec fn chunk_answer(m: Objects, hash: Seq<char>) -> Option<Seq<u8>> {
    if m.contains_key(hash) {
        Some(m[hash])
    } else {
        None
    }
}

/// What a node answers to a request for commits: the one commit that was
/// asked for, or nothing where the index does not have it; the whole
/// history where none was named.
pub open spec fn commits_answer(commits: Seq<CommitView>, wanted: Option<Seq<char>>) -> Seq<
    CommitView,
> {
    match wanted {
        Some(hash) => match commit_of(commits, hash) {
            Some(c) => seq![c],
            None => Seq::<CommitView>::empty(),
        },
        None => commits,
    }
}

/// Answers a request for a blob from `store`.
pub fn answer_chunk_request(store: &StorageManager, request: &ChunkRequest) -> (response:
    ChunkResponse)
    requires
        store.wf(),
    ensures
        response.hash@ == request.hash@,
        match chunk_answer(store@, request.hash@) {
            Some(bytes) => response.data matches Some(data) && data@ == bytes && digest_of(data@)
                == request.hash@,
            None => response.data is None,
        },
{
    ChunkResponse { hash: request.hash.clone(), data: store.open_chunk(request.hash.as_str()) }
}

/// Answers a request for commits from `database`.
pub fn answer_commit_request(database: &DatabaseManager, request: &CommitRequest) -> (response:
    CommitResponse)
    requires
        database.wf(),
    ensures
        commits_view(response.commits@) == commits_answer(
            database@.commits,
            match request.commit_hash {
                Some(hash) => Some(hash@),
                None => None,
            },
        ),
{
    match &request.commit_hash {
        Some(hash) => {
            let mut commits: Vec<Commit> = Vec::new();
            match database.get_commit(hash.as_str()) {
                Some(c) => {
                    let ghost v = c@;
                    commits.push(c);
                    assert(commits_view(commits@) =~= seq![v]);
                },
                None => {
                    assert(commits_view(commits@) =~= Seq::<CommitView>::empty());
                },
            }
            CommitResponse { commits }
        },
        None => CommitResponse { commits: database.get_commit_history(None) },
    }
}

/// What the transport reports to the node.
#[derive(Debug)]
pub enum FAIEvent {
    /// Peers were discovered, each at an address.
    Discovered(Vec<(String, String)>),
    /// Peers were not seen for longer than they are kept.
    Expired(Vec<(String, String)>),
    /// A peer asks for a blob; the answer goes back on `channel`.
    ChunkRequested { peer: String, channel: u64, request: ChunkRequest },
    /// A peer answered the request `request_id` for a blob.
    ChunkAnswered { request_id: u64, response: ChunkResponse },
    /// The request `request_id` for a blob failed on the way.
    ChunkFailed { request_id: u64 },
    /// A peer asks for commits; the answer goes back on `channel`.
    CommitsRequested { peer: String, channel: u64, request: CommitRequest },
    /// A peer answered the request `request_id` for commits.
    CommitsAnswered { request_id: u64, response: CommitResponse },
    /// The request `request_id` for commits failed on the way.
    CommitsFailed { request_id: u64 },
    /// A connection to a peer stands.
    ConnectionEstablished { peer: String },
    /// A connection to a peer was closed; `remaining` connections to it
    /// still stand.
    ConnectionClosed { peer: String, remaining: u32 },
    /// The node listens at a new address.
    NewListenAddr { address: String },
    /// Anything else.
    Other,
}

/// What the node asks the transport to do.
#[derive(Debug)]
pub enum NetworkAction {
    /// Dial the address.
    Dial { address: String },
    /// Send the answer to a request for a blob on `channel`.
    SendChunk { channel: u64, response: ChunkResponse },
    /// Send the answer to a request for commits on `channel`.
    SendCommits { channel: u64, response: CommitResponse },
}

/// An action as a mathematical value.
pub enum ActionView {
    Dial { address: Seq<char> },
    SendChunk { channel: u64, hash: Seq<char>, data: Option<Seq<u8>> },
    SendCommits { channel: u64, commits: Seq<CommitView> },
}

impl View for NetworkAction {
    type V = ActionView;

    open spec fn view(&self) -> ActionView {
        match *self {
            NetworkAction::Dial { address } => ActionView::Dial { address: address@ },
            NetworkAction::SendChunk { channel, response } => ActionView::SendChunk {
                channel,
                hash: response.hash@,
                data: match response.data {
                    Some(bytes) => Some(bytes@),
                    None => None,
                },
            },
            NetworkAction::SendCommits { channel, response } => ActionView::SendCommits {
                channel,
                commits: commits_view(response.commits@),
            },
        }
    }
}

/// The actions that a list stands for.
pub open spec fn actions_view(v: Seq<NetworkAction>) -> Seq<ActionView> {
    Seq::new(v.len(), |i: int| v[i]@)
}

/// The pairs of texts that a list of pairs of strings stands for.
pub open spec fn pairs_view(v: Seq<(String, String)>) -> Seq<(Seq<char>, Seq<char>)> {
    Seq::new(v.len(), |i: int| (v[i].0@, v[i].1@))
}

/// The table after each peer of `found` was seen at its address, in order.
pub open spec fn seen_all(peers: Seq<PeerView>, found: Seq<(Seq<char>, Seq<char>)>, now: u64) -> Seq<
    PeerView,
>
    decreases found.len(),
{
    if found.len() == 0 {
        peers
    } else {
        seen_all(seen(peers, found[0].0, found[0].1, now), found.skip(1), now)
    }
}

/// The table without the peers of `gone`.
pub open spec fn forgotten_all(peers: Seq<PeerView>, gone: Seq<(Seq<char>, Seq<char>)>) -> Seq<
    PeerView,
>
    decreases gone.len(),
{
    if gone.len() == 0 {
        peers
    } else {
        forgotten_all(forgotten(peers, gone[0].0), gone.skip(1))
    }
}

/// One dial for each discovered peer to which no connection stands, at the
/// address at which it was discovered.
pub open spec fn dials(connected: Seq<Seq<char>>, found: Seq<(Seq<char>, Seq<char>)>) -> Seq<
    ActionView,
>
    decreases found.len(),
{
    if found.len() == 0 {
        Seq::<ActionView>::empty()
    } else if connected.contains(found[0].0) {
        dials(connected, found.skip(1))
    } else {
        seq![ActionView::Dial { address: found[0].1 }] + dials(connected, found.skip(1))
    }
}

/// The list with `x` in it: with `x` at the end where it was not there.
pub open spec fn with_text(s: Seq<Seq<char>>, x: Seq<char>) -> Seq<Seq<char>> {
    if s.contains(x) {
        s
    } else {
        s.push(x)
    }
}

/// The index of the first `x` in the list, or the length of the list.
pub open spec fn text_index(s: Seq<Seq<char>>, x: Seq<char>) -> int
    decreases s.len(),
{
    if s.len() == 0 || s[0] == x {
        0
    } else {
        1 + text_index(s.skip(1), x)
    }
}

/// The list without the first `x` in it.
pub open spec fn without_text(s: Seq<Seq<char>>, x: Seq<char>) -> Seq<Seq<char>> {
    if text_index(s, x) < s.len() {
        s.remove(text_index(s, x))
    } else {
        s
    }
}

/// The answers to requests for commits that wait to be fetched, each under
/// the number of its request.
pub type Pending = Map<u64, Seq<CommitView>>;

/// The state of a node.
pub struct NetView {
    /// The identity of the node.
    pub local_peer_id: Seq<char>,
    /// The addresses at which the node listens.
    pub listeners: Seq<Seq<char>>,
    /// The peers to which a connection stands.
    pub connected: Seq<Seq<char>>,
    /// The table of discovered peers.
    pub peers: Seq<PeerView>,
    /// The answers to requests for commits that wait to be fetched.
    pub pending: Pending,
    /// The object store from which blobs are served.
    pub store: Objects,
    /// The metadata index from which commits are served.
    pub index: IndexView,
}

/// The node after an event.
pub open spec fn node_after(v: NetView, event: FAIEvent, now: u64) -> NetView {
    match event {
        FAIEvent::Discovered(found) => NetView {
            peers: seen_all(v.peers, pairs_view(found@), now),
            ..v
        },
        FAIEvent::Expired(gone) => NetView { peers: forgotten_all(v.peers, pairs_view(gone@)), ..v },
        FAIEvent::CommitsAnswered { request_id, response } => NetView {
            pending: v.pending.insert(request_id, commits_view(response.commits@)),
            ..v
        },
        FAIEvent::ConnectionEstablished { peer } => NetView {
            connected: with_text(v.connected, peer@),
            ..v
        },
        FAIEvent::ConnectionClosed { peer, remaining } => if remaining == 0 {
            NetView { connected: without_text(v.connected, peer@), ..v }
        } else {
            v
        },
        FAIEvent::NewListenAddr { address } => NetView { listeners: v.listeners.push(address@), ..v },
        _ => v,
    }
}

/// What a node asks for on an event.
pub open spec fn actions_on(v: NetView, event: FAIEvent) -> Seq<ActionView> {
    match event {
        FAIEvent::Discovered(found) => dials(v.connected, pairs_view(found@)),
        FAIEvent::ChunkRequested { peer, channel, request } => seq![
            ActionView::SendChunk {
                channel,
                hash: request.hash@,
                data: chunk_answer(v.store, request.hash@),
            },
        ],
        FAIEvent::CommitsRequested { peer, channel, request } => seq![
            ActionView::SendCommits {
                channel,
                commits: commits_answer(
                    v.index.commits,
                    match request.commit_hash {
                        Some(hash) => Some(hash@),
                        None => None,
                    },
                ),
            },
        ],
        _ => Seq::<ActionView>::empty(),
    }
}

fn no_actions() -> (actions: Vec<NetworkAction>)
    ensures
        actions_view(actions@) == Seq::<ActionView>::empty(),
{
    let actions: Vec<NetworkAction> = Vec::new();
    assert(actions_view(actions@) =~= Seq::<ActionView>::empty());
    actions
}

fn one_action(action: NetworkAction) -> (actions: Vec<NetworkAction>)
    ensures
        actions_view(actions@) == seq![action@],
{
    let mut actions: Vec<NetworkAction> = Vec::new();
    actions.push(action);
    assert(actions_view(actions@) =~= seq![action@]);
    actions
}

/// The waiting answers that a table of records stands for.
pub open spec fn pending_view(m: Map<u64, Vec<Commit>>) -> Pending {
    m.map_values(|commits: Vec<Commit>| commits_view(commits@))
}

/// A node of the sync engine.
pub struct NetworkManager {
    local_peer_id: String,
    listeners: Vec<String>,
    connected: Vec<String>,
    discovered_peers: Vec<PeerInfo>,
    pending_commit_responses: HashMap<u64, Vec<Commit>>,
    storage: StorageManager,
    database: DatabaseManager,
}

impl View for NetworkManager {
    type V = NetView;

    closed spec fn view(&self) -> NetView {
        NetView {
            local_peer_id: self.local_peer_id@,
            listeners: strings_view(self.listeners@),
            connected: strings_view(self.connected@),
            peers: peers_view(self.discovered_peers@),
            pending: pending_view(self.pending_commit_responses@),
            store: self.storage@,
            index: self.database@,
        }
    }
}

/// Copies a peer.
pub fn clone_peer(p: &PeerInfo) -> (r: PeerInfo)
    ensures
        r@ == p@,
{
    PeerInfo {
        peer_id: p.peer_id.clone(),
        addresses: crate::database::clone_strings(&p.addresses),
        last_seen: p.last_seen,
    }
}

/// Copies a list of commits.
pub fn clone_commits(v: &Vec<Commit>) -> (r: Vec<Commit>)
    ensures
        commits_view(r@) == commits_view(v@),
{
    let mut out: Vec<Commit> = Vec::new();
    let mut i: usize = 0;
    while i < v.len()
        invariant
            i <= v.len(),
            out.len() == i,
            forall|k: int| 0 <= k < i ==> (#[trigger] out@[k])@ == v@[k]@,
        decreases v.len() - i,
    {
        out.push(clone_commit(&v[i]));
        i += 1;
    }
    assert(commits_view(out@) =~= commits_view(v@));
    out
}

fn find_text(v: &Vec<String>, x: &str) -> (r: Option<usize>)
    ensures
        match r {
            Some(i) => i == text_index(strings_view(v@), x@) && i < v.len() && strings_view(
                v@,
            ).contains(x@),
            None => text_index(strings_view(v@), x@) == v.len() && !strings_view(v@).contains(x@),
        },
{
    let ghost s = strings_view(v@);
    let mut i: usize = 0;
    assert(s.skip(0) =~= s);
    while i < v.len()
        invariant
            i <= v.len(),
            s == strings_view(v@),
            text_index(s, x@) == i + text_index(s.skip(i as int), x@),
            forall|k: int| 0 <= k < i ==> s[k] != x@,
        decreases v.len() - i,
    {
        assert(s.skip(i as int)[0] == s[i as int]);
        if str_eq(v[i].as_str(), x) {
            assert(s[i as int] == x@);
            return Some(i);
        }
        assert(s.skip(i as int).skip(1) =~= s.skip(i + 1));
        i += 1;
    }
    None
}

impl NetworkManager {
    /// The invariant of a node: that of its store and of its index, and no
    /// peer stands twice in its table.
    pub closed spec fn wf(&self) -> bool {
        self.storage.wf() && self.database.wf() && unique_peers(self@.peers)
    }

    /// What holds of every node: its blobs are stored under their digests,
    /// and its index is in order.
    pub proof fn lemma_wf(&self)
        requires
            self.wf(),
        ensures
            crate::storage::intact(self@.store),
            self@.store.dom().finite(),
            crate::database::index_ok(self@.index),
            unique_peers(self@.peers),
    {
        self.storage.lemma_wf();
    }

    /// A node with the identity `local_peer_id` that serves from `storage`
    /// and `database`. It knows no peer, listens nowhere and is connected
    /// to nobody.
    pub fn new(local_peer_id: &str, storage: StorageManager, database: DatabaseManager) -> (node:
        NetworkManager)
        requires
            storage.wf(),
            database.wf(),
        ensures
            node.wf(),
            node@ == (NetView {
                local_peer_id: local_peer_id@,
                listeners: Seq::<Seq<char>>::empty(),
                connected: Seq::<Seq<char>>::empty(),
                peers: Seq::<PeerView>::empty(),
                pending: Map::<u64, Seq<CommitView>>::empty(),
                store: storage@,
                index: database@,
            }),
    {
        let node = NetworkManager {
            local_peer_id: local_peer_id.to_owned(),
            listeners: Vec::new(),
            connected: Vec::new(),
            discovered_peers: Vec::new(),
            pending_commit_responses: HashMap::new(),
            storage,
            database,
        };
        assert(node@.listeners =~= Seq::<Seq<char>>::empty());
        assert(node@.connected =~= Seq::<Seq<char>>::empty());
        assert(node@.peers =~= Seq::<PeerView>::empty());
        assert(node@.pending =~= Map::<u64, Seq<CommitView>>::empty());
        node
    }

    /// The store from which the node serves blobs.
    pub fn storage(&self) -> (store: &StorageManager)
        requires
            self.wf(),
        ensures
            store.wf(),
            store@ == self@.store,
    {
        &self.storage
    }

    /// The index from which the node serves commits.
    pub fn database(&self) -> (index: &DatabaseManager)
        requires
            self.wf(),
        ensures
            index.wf(),
            index@ == self@.index,
    {
        &self.database
    }

    /// The discovered peers.
    pub fn list_peers(&self) -> (peers: Vec<PeerInfo>)
        ensures
            peers_view(peers@) == self@.peers,
    {
        let mut out: Vec<PeerInfo> = Vec::new();
        let mut i: usize = 0;
        while i < self.discovered_peers.len()
            invariant
                i <= self.discovered_peers.len(),
                out.len() == i,
                forall|k: int| 0 <= k < i ==> (#[trigger] out@[k])@ == self.discovered_peers@[k]@,
            decreases self.discovered_peers.len() - i,
        {
            out.push(clone_peer(&self.discovered_peers[i]));
            i += 1;
        }
        assert(peers_view(out@) =~= self@.peers);
        out
    }

    /// The identity of the node.
    pub fn local_peer_id(&self) -> (id: String)
        ensures
            id@ == self@.local_peer_id,
    {
        self.local_peer_id.clone()
    }

    /// The addresses at which the node listens.
    pub fn listeners(&self) -> (addresses: Vec<String>)
        ensures
            strings_view(addresses@) == self@.listeners,
    {
        crate::database::clone_strings(&self.listeners)
    }

    /// Whether a connection to `peer` stands.
    pub fn is_connected(&self, peer: &str) -> (r: bool)
        ensures
            r == self@.connected.contains(peer@),
    {
        find_text(&self.connected, peer).is_some()
    }

    fn find_peer(&self, id: &str) -> (r: Option<usize>)
        ensures
            match r {
                Some(i) => i == peer_index(self@.peers, id@) && i < self.discovered_peers.len(),
                None => peer_index(self@.peers, id@) == self.discovered_peers.len(),
            },
    {
        let ghost s = self@.peers;
        let mut i: usize = 0;
        assert(s.skip(0) =~= s);
        while i < self.discovered_peers.len()
            invariant
                i <= self.discovered_peers.len(),
                s == self@.peers,
                peer_index(s, id@) == i + peer_index(s.skip(i as int), id@),
            decreases self.discovered_peers.len() - i,
        {
            assert(s.skip(i as int)[0] == self.discovered_peers@[i as int]@);
            if str_eq(self.discovered_peers[i].peer_id.as_str(), id) {
                return Some(i);
            }
            assert(s.skip(i as int).skip(1) =~= s.skip(i + 1));
            i += 1;
        }
        None
    }

    /// Notes that the peer `peer_id` was seen at `address` at the time
    /// `now`.
    pub fn note_peer(&mut self, peer_id: &str, address: &str, now: u64)
        requires
            old(self).wf(),
        ensures
            final(self).wf(),
            final(self)@ == (NetView {
                peers: seen(old(self)@.peers, peer_id@, address@, now),
                ..old(self)@
            }),
    {
        let ghost before = self@.peers;
        match self.find_peer(peer_id) {
            Some(i) => {
                let old_peer = self.discovered_peers.remove(i);
                let mut addresses = old_peer.addresses;
                let ghost known = strings_view(addresses@);
                assert(known.take(addresses.len() as int) =~= known);
                if !contains_text(&addresses, addresses.len(), address) {
                    addresses.push(address.to_owned());
                    assert(strings_view(addresses@) =~= known.push(address@));
                }
                let peer = PeerInfo { peer_id: peer_id.to_owned(), addresses, last_seen: now };
                let ghost v = peer@;
                self.discovered_peers.insert(i, peer);
                assert(peers_view(self.discovered_peers@) =~= before.update(i as int, v));
            },
            None => {
                let mut addresses: Vec<String> = Vec::new();
                addresses.push(address.to_owned());
                assert(strings_view(addresses@) =~= seq![address@]);
                let peer = PeerInfo { peer_id: peer_id.to_owned(), addresses, last_seen: now };
                let ghost v = peer@;
                self.discovered_peers.push(peer);
                assert(peers_view(self.discovered_peers@) =~= before.push(v));
            },
        }
        proof {
            lemma_peers_stay_unique(before, peer_id@, address@, now);
        }
    }

    /// Forgets the peer `peer_id`.
    pub fn forget_peer(&mut self, peer_id: &str)
        requires
            old(self).wf(),
        ensures
            final(self).wf(),
            final(self)@ == (NetView { peers: forgotten(old(self)@.peers, peer_id@), ..old(self)@ }),
    {
        let ghost before = self@.peers;
        match self.find_peer(peer_id) {
            Some(i) => {
                self.discovered_peers.remove(i);
                assert(peers_view(self.discovered_peers@) =~= before.remove(i as int));
            },
            None => {},
        }
        proof {
            lemma_peers_stay_unique(before, peer_id@, Seq::<char>::empty(), 0);
        }
    }

    fn note_discovered(&mut self, found: &Vec<(String, String)>, now: u64) -> (actions: Vec<
        NetworkAction,
    >)
        requires
            old(self).wf(),
        ensures
            final(self).wf(),
            final(self)@ == (NetView {
                peers: seen_all(old(self)@.peers, pairs_view(found@), now),
                ..old(self)@
            }),
            actions_view(actions@) == dials(old(self)@.connected, pairs_view(found@)),
    {
        let ghost all = pairs_view(found@);
        let ghost connected = self@.connected;
        let mut actions: Vec<NetworkAction> = Vec::new();
        let mut i: usize = 0;
        assert(all.skip(0) =~= all);
        assert(actions_view(actions@) + dials(connected, all) =~= dials(connected, all));
        while i < found.len()
            invariant
                i <= found.len(),
                self.wf(),
                all == pairs_view(found@),
                connected == old(self)@.connected,
                self@ == (NetView { peers: self@.peers, ..old(self)@ }),
                seen_all(self@.peers, all.skip(i as int), now) == seen_all(
                    old(self)@.peers,
                    all,
                    now,
                ),
                actions_view(actions@) + dials(connected, all.skip(i as int)) == dials(
                    connected,
                    all,
                ),
            decreases found.len() - i,
        {
            let ghost rest = all.skip(i as int);
            let ghost done = actions_view(actions@);
            assert(rest[0] == (found@[i as int].0@, found@[i as int].1@));
            assert(rest.skip(1) =~= all.skip(i + 1));
            let peer = found[i].0.as_str();
            let address = found[i].1.as_str();
            self.note_peer(peer, address, now);
            if !self.is_connected(peer) {
                actions.push(NetworkAction::Dial { address: address.to_owned() });
                assert(actions_view(actions@) =~= done.push(ActionView::Dial { address: address@ }));
                assert(done.push(ActionView::Dial { address: address@ }) + dials(
                    connected,
                    all.skip(i + 1),
                ) =~= done + (seq![ActionView::Dial { address: address@ }] + dials(
                    connected,
                    all.skip(i + 1),
                )));
            }
            i += 1;
        }
        assert(actions_view(actions@) + Seq::<ActionView>::empty() =~= actions_view(actions@));
        actions
    }

    fn note_expired(&mut self, gone: &Vec<(String, String)>)
        requires
            old(self).wf(),
        ensures
            final(self).wf(),
            final(self)@ == (NetView {
                peers: forgotten_all(old(self)@.peers, pairs_view(gone@)),
                ..old(self)@
            }),
    {
        let ghost all = pairs_view(gone@);
        let mut i: usize = 0;
        assert(all.skip(0) =~= all);
        while i < gone.len()
            invariant
                i <= gone.len(),
                self.wf(),
                all == pairs_view(gone@),
                self@ == (NetView { peers: self@.peers, ..old(self)@ }),
                forgotten_all(self@.peers, all.skip(i as int)) == forgotten_all(
                    old(self)@.peers,
                    all,
                ),
            decreases gone.len() - i,
        {
            assert(all.skip(i as int)[0] == (gone@[i as int].0@, gone@[i as int].1@));
            assert(all.skip(i as int).skip(1) =~= all.skip(i + 1));
            self.forget_peer(gone[i].0.as_str());
            i += 1;
        }
    }

    fn note_connected(&mut self, peer: &str)
        requires
            old(self).wf(),
        ensures
            final(self).wf(),
            final(self)@ == (NetView {
                connected: with_text(old(self)@.connected, peer@),
                ..old(self)@
            }),
    {
        let ghost before = self@.connected;
        if find_text(&self.connected, peer).is_none() {
            self.connected.push(peer.to_owned());
            assert(strings_view(self.connected@) =~= before.push(peer@));
        }
    }

    fn note_disconnected(&mut self, peer: &str)
        requires
            old(self).wf(),
        ensures
            final(self).wf(),
            final(self)@ == (NetView {
                connected: without_text(old(self)@.connected, peer@),
                ..old(self)@
            }),
    {
        let ghost before = self@.connected;
        match find_text(&self.connected, peer) {
            Some(i) => {
                self.connected.remove(i);
                assert(strings_view(self.connected@) =~= before.remove(i as int));
            },
            None => {},
        }
    }

    fn keep_commits(&mut self, request_id: u64, commits: Vec<Commit>)
        requires
            old(self).wf(),
        ensures
            final(self).wf(),
            final(self)@ == (NetView {
                pending: old(self)@.pending.insert(request_id, commits_view(commits@)),
                ..old(self)@
            }),
    {
        let ghost before = self@.pending;
        let ghost v = commits_view(commits@);
        self.pending_commit_responses.insert(request_id, commits);
        assert(pending_view(self.pending_commit_responses@) =~= before.insert(request_id, v));
    }

    /// Takes in one event of the network and says what is to be done.
    ///
    /// Discovered peers are noted, and a dial is asked for to each of them
    /// to which no connection stands. Expired peers are forgotten. A
    /// request for a blob is answered from the store, with no data where the
    /// store does not have the blob; a request for commits is answered from
    /// the index. The answer to a request for commits of this node is kept
    /// until it is fetched. Connections and listening addresses are noted.
    /// Nothing else changes the node.
    pub fn handle_swarm_event(&mut self, event: FAIEvent, now: u64) -> (actions: Vec<NetworkAction>)
        requires
            old(self).wf(),
        ensures
            final(self).wf(),
            final(self)@ == node_after(old(self)@, event, now),
            actions_view(actions@) == actions_on(old(self)@, event),
    {
        match event {
            FAIEvent::Discovered(found) => self.note_discovered(&found, now),
            FAIEvent::Expired(gone) => {
                self.note_expired(&gone);
                no_actions()
            },
            FAIEvent::ChunkRequested { peer, channel, request } => {
                let response = answer_chunk_request(&self.storage, &request);
                one_action(NetworkAction::SendChunk { channel, response })
            },
            FAIEvent::CommitsRequested { peer, channel, request } => {
                let response = answer_commit_request(&self.database, &request);
                one_action(NetworkAction::SendCommits { channel, response })
            },
            FAIEvent::CommitsAnswered { request_id, response } => {
                self.keep_commits(request_id, response.commits);
                no_actions()
            },
            FAIEvent::ConnectionEstablished { peer } => {
                self.note_connected(peer.as_str());
                no_actions()
            },
            FAIEvent::ConnectionClosed { peer, remaining } => {
                if remaining == 0 {
                    self.note_disconnected(peer.as_str());
                }
                no_actions()
            },
            FAIEvent::NewListenAddr { address } => {
                let ghost before = self@.listeners;
                let ghost a = address@;
                self.listeners.push(address);
                assert(strings_view(self.listeners@) =~= before.push(a));
                no_actions()
            },
            _ => no_actions(),
        }
    }

    /// Asks for a dial to `address`.
    pub fn connect_to_peer(&self, address: &str) -> (action: NetworkAction)
        ensures
            action@ == (ActionView::Dial { address: address@ }),
    {
        NetworkAction::Dial { address: address.to_owned() }
    }

    /// Adds a peer to the table by hand and asks for a dial to it.
    pub fn add_peer_manually(&mut self, peer_id: &str, address: &str, now: u64) -> (action:
        NetworkAction)
        requires
            old(self).wf(),
        ensures
            final(self).wf(),
            final(self)@ == (NetView {
                peers: seen(old(self)@.peers, peer_id@, address@, now),
                ..old(self)@
            }),
            action@ == (ActionView::Dial { address: address@ }),
    {
        self.note_peer(peer_id, address, now);
        self.connect_to_peer(address)
    }
}

/// Whether the bytes `p` stand somewhere in `s`.
pub open spec fn has_sub(s: Seq<u8>, p: Seq<u8>) -> bool {
    exists|i: int| 0 <= i <= s.len() && #[trigger] is_prefix(p, s.skip(i))
}

/// The text `127.0.0.1`.
pub open spec fn loopback_mark() -> Seq<u8> {
    seq![0x31u8, 0x32u8, 0x37u8, 0x2eu8, 0x30u8, 0x2eu8, 0x30u8, 0x2eu8, 0x31u8]
}

/// Whether an address is one of this machine: whether it holds the text
/// `127.0.0.1`.
pub open spec fn is_loopback(address: Seq<char>) -> bool {
    has_sub(utf8(address), loopback_mark())
}

/// Those of the addresses that are loopback addresses, or those that are
/// not, in the order in which they stand.
pub open spec fn those(addresses: Seq<Seq<char>>, loopback: bool) -> Seq<Seq<char>>
    decreases addresses.len(),
{
    if addresses.len() == 0 {
        Seq::<Seq<char>>::empty()
    } else if is_loopback(addresses.last()) == loopback {
        those(addresses.drop_last(), loopback).push(addresses.last())
    } else {
        those(addresses.drop_last(), loopback)
    }
}

/// The order in which the addresses of a peer are dialled: loopback
/// addresses first, and otherwise as they stand.
pub open spec fn dial_order(addresses: Seq<Seq<char>>) -> Seq<Seq<char>> {
    those(addresses, true) + those(addresses, false)
}

/// Whether an address is one of this machine.
pub fn is_loopback_address(address: &str) -> (r: bool)
    ensures
        r == is_loopback(address@),
{
    let mark: [u8; 9] = [0x31, 0x32, 0x37, 0x2e, 0x30, 0x2e, 0x30, 0x2e, 0x31];
    assert(mark@ =~= loopback_mark());
    let bytes = address.as_bytes();
    let mut i: usize = 0;
    while i < bytes.len()
        invariant
            i <= bytes.len(),
            mark@ == loopback_mark(),
            bytes@ == utf8(address@),
            forall|k: int| 0 <= k < i ==> !is_prefix(loopback_mark(), #[trigger] bytes@.skip(k)),
        decreases bytes.len() - i,
    {
        let rest = vstd::slice::slice_subrange(bytes, i, bytes.len());
        assert(rest@ =~= bytes@.skip(i as int));
        if starts_with_bytes(rest, mark.as_slice()) {
            return true;
        }
        i += 1;
    }
    assert(!is_prefix(loopback_mark(), bytes@.skip(bytes.len() as int)));
    false
}

fn pick_addresses(addresses: &Vec<String>, loopback: bool, out: &mut Vec<String>)
    ensures
        strings_view(final(out)@) == strings_view(old(out)@) + those(
            strings_view(addresses@),
            loopback,
        ),
{
    let ghost all = strings_view(addresses@);
    let ghost head = strings_view(out@);
    let mut i: usize = 0;
    assert(all.take(0) =~= Seq::<Seq<char>>::empty());
    assert(head + those(all.take(0), loopback) =~= head);
    while i < addresses.len()
        invariant
            i <= addresses.len(),
            all == strings_view(addresses@),
            strings_view(out@) == head + those(all.take(i as int), loopback),
        decreases addresses.len() - i,
    {
        let ghost before = strings_view(out@);
        assert(all.take(i + 1).drop_last() =~= all.take(i as int));
        assert(all.take(i + 1).last() == addresses@[i as int]@);
        if is_loopback_address(addresses[i].as_str()) == loopback {
            out.push(addresses[i].clone());
            assert(strings_view(out@) =~= before.push(addresses@[i as int]@));
            assert(head + those(all.take(i as int), loopback).push(addresses@[i as int]@) =~= (head
                + those(all.take(i as int), loopback)).push(addresses@[i as int]@));
        }
        i += 1;
    }
    assert(all.take(i as int) =~= all);
}

/// How far a request has come.
#[derive(Debug)]
pub enum Outcome<T> {
    /// The request still waits.
    Pending,
    /// The request was answered.
    Done(T),
    /// The request failed.
    Failed(FaiError),
}

/// Whether a request can be sent to a peer.
#[derive(Debug, Clone, Copy, PartialEq, Eq, Structural)]
pub enum ConnectionStep {
    /// A connection stands: the request can be sent.
    Ready,
    /// No connection stands yet: wait and look again.
    Wait,
    /// No connection came about: the request fails.
    GiveUp,
}

impl ConnectionStep {
    /// How a request fails at this step: as `Network` where no connection
    /// came about, and not at all otherwise.
    pub fn failure(&self) -> (r: Option<FaiError>)
        ensures
            r == (if *self == ConnectionStep::GiveUp {
                Some(FaiError::Network)
            } else {
                None
            }),
    {
        match self {
            ConnectionStep::GiveUp => Some(FaiError::Network),
            _ => None,
        }
    }
}

/// What one event means for a request for a blob that waits for its
/// answer.
pub open spec fn chunk_outcome(event: FAIEvent, request_id: u64, elapsed_ms: u64) -> Outcome<
    Option<Seq<u8>>,
> {
    match event {
        FAIEvent::ChunkAnswered { request_id: id, response } if id == request_id => Outcome::Done(
            match response.data {
                Some(bytes) => Some(bytes@),
                None => None,
            },
        ),
        FAIEvent::ChunkFailed { request_id: id } if id == request_id => Outcome::Failed(
            FaiError::Unavailable,
        ),
        _ => if elapsed_ms >= REQUEST_TIMEOUT_MS {
            Outcome::Failed(FaiError::Timeout)
        } else {
            Outcome::Pending
        },
    }
}

/// Whether an event ends the request `request_id` for a blob.
pub open spec fn ends_chunk_request(event: FAIEvent, request_id: u64) -> bool {
    match event {
        FAIEvent::ChunkAnswered { request_id: id, response } => id == request_id,
        FAIEvent::ChunkFailed { request_id: id } => id == request_id,
        _ => false,
    }
}

/// Whether an event reports that the request `request_id` for commits
/// failed.
pub open spec fn fails_commit_request(event: Option<FAIEvent>, request_id: u64) -> bool {
    match event {
        Some(FAIEvent::CommitsFailed { request_id: id }) => id == request_id,
        _ => false,
    }
}

/// The node after an event, or as it is where there was none.
pub open spec fn node_after_maybe(v: NetView, event: Option<FAIEvent>, now: u64) -> NetView {
    match event {
        Some(e) => node_after(v, e, now),
        None => v,
    }
}

/// What a node asks for on an event; nothing where there was none.
pub open spec fn actions_on_maybe(v: NetView, event: Option<FAIEvent>) -> Seq<ActionView> {
    match event {
        Some(e) => actions_on(v, e),
        None => Seq::<ActionView>::empty(),
    }
}

impl NetworkManager {
    /// The addresses at which `peer` is dialled, in the order in which they
    /// are tried: loopback addresses first. Nothing where the peer is not
    /// known.
    pub fn dial_plan(&self, peer: &str) -> (r: Option<Vec<String>>)
        ensures
            match r {
                Some(addresses) => knows(self@.peers, peer@) && strings_view(addresses@)
                    == dial_order(self@.peers[peer_index(self@.peers, peer@)].addresses),
                None => !knows(self@.peers, peer@),
            },
    {
        match self.find_peer(peer) {
            Some(i) => {
                let mut out: Vec<String> = Vec::new();
                assert(strings_view(out@) =~= Seq::<Seq<char>>::empty());
                pick_addresses(&self.discovered_peers[i].addresses, true, &mut out);
                pick_addresses(&self.discovered_peers[i].addresses, false, &mut out);
                assert(self@.peers[i as int] == self.discovered_peers@[i as int]@);
                assert(strings_view(out@) =~= dial_order(
                    strings_view(self.discovered_peers@[i as int].addresses@),
                ));
                Some(out)
            },
            None => None,
        }
    }

    /// Whether a request can be sent to `peer`, after `attempt` looks for a
    /// connection: it can where a connection stands; else the caller waits,
    /// and gives up after `CONNECT_ATTEMPTS` looks.
    pub fn connection_step(&self, peer: &str, attempt: u32) -> (step: ConnectionStep)
        ensures
            step == (if self@.connected.contains(peer@) {
                ConnectionStep::Ready
            } else if attempt >= CONNECT_ATTEMPTS {
                ConnectionStep::GiveUp
            } else {
                ConnectionStep::Wait
            }),
    {
        if self.is_connected(peer) {
            ConnectionStep::Ready
        } else if attempt >= CONNECT_ATTEMPTS {
            ConnectionStep::GiveUp
        } else {
            ConnectionStep::Wait
        }
    }

    /// Takes in one event while the request `request_id` for a blob waits
    /// for its answer, `elapsed_ms` after it was sent.
    ///
    /// The answer to the request ends it with the data that came, which is
    /// nothing where the peer does not have the blob; its failure on the way
    /// ends it as `Unavailable`. Every other event is handled as usual, and
    /// the request then fails as `Timeout` once `REQUEST_TIMEOUT_MS` have
    /// gone by.
    pub fn request_chunk(&mut self, request_id: u64, event: FAIEvent, now: u64, elapsed_ms: u64) -> (r:
        (Outcome<Option<Vec<u8>>>, Vec<NetworkAction>))
        requires
            old(self).wf(),
        ensures
            final(self).wf(),
            match chunk_outcome(event, request_id, elapsed_ms) {
                Outcome::Done(Some(bytes)) => r.0 matches Outcome::Done(Some(data)) && data@
                    == bytes,
                Outcome::Done(None) => r.0 matches Outcome::Done(None),
                Outcome::Failed(e) => r.0 matches Outcome::Failed(e2) && e2 == e,
                Outcome::Pending => r.0 is Pending,
            },
            if ends_chunk_request(event, request_id) {
                final(self)@ == old(self)@ && actions_view(r.1@) == Seq::<ActionView>::empty()
            } else {
                final(self)@ == node_after(old(self)@, event, now) && actions_view(r.1@)
                    == actions_on(old(self)@, event)
            },
    {
        match event {
            FAIEvent::ChunkAnswered { request_id: id, response } if id == request_id => {
                (Outcome::Done(response.data), no_actions())
            },
            FAIEvent::ChunkFailed { request_id: id } if id == request_id => {
                (Outcome::Failed(FaiError::Unavailable), no_actions())
            },
            other => {
                let actions = self.handle_swarm_event(other, now);
                if elapsed_ms >= REQUEST_TIMEOUT_MS {
                    (Outcome::Failed(FaiError::Timeout), actions)
                } else {
                    (Outcome::Pending, actions)
                }
            },
        }
    }

    /// Takes in what came from the network, if anything, while the request
    /// `request_id` for commits waits for its answer, `elapsed_ms` after it
    /// was sent.
    ///
    /// The event is handled as usual. Then, where the answer to the request
    /// has come, it is taken from the waiting answers and ends the request.
    /// Else the failure of the request on the way ends it as `Unavailable`,
    /// and it fails as `Timeout` once `REQUEST_TIMEOUT_MS` have gone by.
    pub fn request_commits(
        &mut self,
        request_id: u64,
        event: Option<FAIEvent>,
        now: u64,
        elapsed_ms: u64,
    ) -> (r: (Outcome<Vec<Commit>>, Vec<NetworkAction>))
        requires
            old(self).wf(),
        ensures
            final(self).wf(),
            actions_view(r.1@) == actions_on_maybe(old(self)@, event),
            ({
                let mid = node_after_maybe(old(self)@, event, now);
                if mid.pending.contains_key(request_id) {
                    &&& r.0 matches Outcome::Done(commits)
                    &&& commits_view(commits@) == mid.pending[request_id]
                    &&& final(self)@ == (NetView { pending: mid.pending.remove(request_id), ..mid })
                } else {
                    &&& final(self)@ == mid
                    &&& if fails_commit_request(event, request_id) {
                        r.0 matches Outcome::Failed(e) && e == FaiError::Unavailable
                    } else if elapsed_ms >= REQUEST_TIMEOUT_MS {
                        r.0 matches Outcome::Failed(e) && e == FaiError::Timeout
                    } else {
                        r.0 is Pending
                    }
                }
            }),
    {
        let failed = match &event {
            Some(FAIEvent::CommitsFailed { request_id: id }) => *id == request_id,
            _ => false,
        };
        let actions = match event {
            Some(e) => self.handle_swarm_event(e, now),
            None => no_actions(),
        };
        let ghost mid = self@;
        let ghost table = self.pending_commit_responses@;
        assert(mid.pending == pending_view(table));
        match self.pending_commit_responses.remove(&request_id) {
            Some(commits) => {
                assert(table.contains_key(request_id) && table[request_id] == commits);
                assert(self.pending_commit_responses@ == table.remove(request_id));
                assert(pending_view(table.remove(request_id)) =~= mid.pending.remove(request_id));
                (Outcome::Done(commits), actions)
            },
            None => {
                assert(!table.contains_key(request_id));
                assert(self.pending_commit_responses@ =~= table);
                if failed {
                    (Outcome::Failed(FaiError::Unavailable), actions)
                } else if elapsed_ms >= REQUEST_TIMEOUT_MS {
                    (Outcome::Failed(FaiError::Timeout), actions)
                } else {
                    (Outcome::Pending, actions)
                }
            },
        }
    }
}

/// How many characters that are no white space a text begins with.
pub open spec fn word_len(s: Seq<char>) -> int
    decreases s.len(),
{
    if s.len() > 0 && !is_space(s[0]) {
        1 + word_len(s.skip(1))
    } else {
        0
    }
}

/// The peer and the address that a line of a peer list names: its first two
/// words. A line with fewer words names nothing.
pub open spec fn peer_line(line: Seq<char>) -> Option<(Seq<char>, Seq<char>)> {
    let a = lead_spaces(line);
    let b = a + word_len(line.skip(a));
    let c = b + lead_spaces(line.skip(b));
    let d = c + word_len(line.skip(c));
    if a < b && c < d {
        Some((line.subrange(a, b), line.subrange(c, d)))
    } else {
        None
    }
}

fn skip_spaces(text: &str, n: usize, from: usize) -> (to: usize)
    requires
        n == text@.len(),
        from <= n,
    ensures
        to == from + lead_spaces(text@.skip(from as int)),
        from <= to <= n,
{
    let mut i: usize = from;
    while i < n && is_space_char(text.get_char(i))
        invariant
            from <= i <= n,
            n == text@.len(),
            lead_spaces(text@.skip(from as int)) == (i - from) + lead_spaces(text@.skip(i as int)),
        decreases n - i,
    {
        assert(text@.skip(i as int)[0] == text@[i as int]);
        assert(text@.skip(i as int).skip(1) =~= text@.skip(i + 1));
        i += 1;
    }
    proof {
        if i < n {
            assert(text@.skip(i as int)[0] == text@[i as int]);
        }
    }
    i
}

fn skip_word(text: &str, n: usize, from: usize) -> (to: usize)
    requires
        n == text@.len(),
        from <= n,
    ensures
        to == from + word_len(text@.skip(from as int)),
        from <= to <= n,
{
    let mut i: usize = from;
    while i < n && !is_space_char(text.get_char(i))
        invariant
            from <= i <= n,
            n == text@.len(),
            word_len(text@.skip(from as int)) == (i - from) + word_len(text@.skip(i as int)),
        decreases n - i,
    {
        assert(text@.skip(i as int)[0] == text@[i as int]);
        assert(text@.skip(i as int).skip(1) =~= text@.skip(i + 1));
        i += 1;
    }
    proof {
        if i < n {
            assert(text@.skip(i as int)[0] == text@[i as int]);
        }
    }
    i
}

/// The peer and the address that a line of a peer list names.
pub fn parse_peer_line(line: &str) -> (r: Option<(String, String)>)
    ensures
        match peer_line(line@) {
            Some((peer, address)) => r matches Some((p, a)) && p@ == peer && a@ == address,
            None => r is None,
        },
{
    let n = line.unicode_len();
    let a = skip_spaces(line, n, 0);
    let b = skip_word(line, n, a);
    let c = skip_spaces(line, n, b);
    let d = skip_word(line, n, c);
    assert(line@.skip(0) =~= line@);
    if a < b && c < d {
        Some((line.substring_char(a, b).to_owned(), line.substring_char(c, d).to_owned()))
    } else {
        None
    }
}

impl NetworkManager {
    /// Takes a peer from a peer list into the table and asks for a dial to
    /// it. The node itself is passed over.
    pub fn load_peer(&mut self, peer_id: &str, address: &str, now: u64) -> (action: Option<
        NetworkAction,
    >)
        requires
            old(self).wf(),
        ensures
            final(self).wf(),
            if peer_id@ == old(self)@.local_peer_id {
                action is None && final(self)@ == old(self)@
            } else {
                &&& action matches Some(a) && a@ == (ActionView::Dial { address: address@ })
                &&& final(self)@ == (NetView {
                    peers: seen(old(self)@.peers, peer_id@, address@, now),
                    ..old(self)@
                })
            },
    {
        if str_eq(peer_id, self.local_peer_id.as_str()) {
            None
        } else {
            Some(self.add_peer_manually(peer_id, address, now))
        }
    }

    /// Takes the peers of a list into the table and asks for a dial to each.
    pub fn connect_to_known_peers(&mut self, peers: &Vec<(String, String)>, now: u64) -> (actions:
        Vec<NetworkAction>)
        requires
            old(self).wf(),
        ensures
            final(self).wf(),
            final(self)@ == (NetView {
                peers: seen_all(old(self)@.peers, pairs_view(peers@), now),
                ..old(self)@
            }),
            actions.len() == peers.len(),
            forall|i: int|
                0 <= i < actions.len() ==> (#[trigger] actions@[i])@ == (ActionView::Dial {
                    address: peers@[i].1@,
                }),
    {
        let ghost all = pairs_view(peers@);
        let mut actions: Vec<NetworkAction> = Vec::new();
        let mut i: usize = 0;
        assert(all.skip(0) =~= all);
        while i < peers.len()
            invariant
                i <= peers.len(),
                self.wf(),
                all == pairs_view(peers@),
                self@ == (NetView { peers: self@.peers, ..old(self)@ }),
                seen_all(self@.peers, all.skip(i as int), now) == seen_all(
                    old(self)@.peers,
                    all,
                    now,
                ),
                actions.len() == i,
                forall|k: int|
                    0 <= k < i ==> (#[trigger] actions@[k])@ == (ActionView::Dial {
                        address: peers@[k].1@,
                    }),
            decreases peers.len() - i,
        {
            assert(all.skip(i as int)[0] == (peers@[i as int].0@, peers@[i as int].1@));
            assert(all.skip(i as int).skip(1) =~= all.skip(i + 1));
            let action = self.add_peer_manually(peers[i].0.as_str(), peers[i].1.as_str(), now);
            actions.push(action);
            i += 1;
        }
        actions
    }
}

} // verus!
