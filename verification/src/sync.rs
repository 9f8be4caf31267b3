//! Fetch, clone and pull: what is asked of a peer, in which order, and what
//! is done with each answer.
//!
//! A session never talks to the network itself. It names the next request;
//! the caller sends it and hands the answer back.

use crate::database::{
    acceptable, commits_view, has_commit, lemma_recorded, newest_first, recorded, unique_hashes,
    Commit, CommitView,
};
use crate::digest::digest_of;
use crate::entries::{files_view, normalized};
use crate::error::FaiError;
use crate::repository::{contains_text, digests, file_digests};
use crate::storage::put;
use crate::FaiProtocol;
use crate::manifest::{
    is_manifest_text, lemma_manifest_round_trip, looks_like_manifest, manifest_text,
    parsed_manifest, strings_view, FileManifest,
};
use crate::network::{
    answer_chunk_request, answer_commit_request, chunk_answer, commits_answer, ChunkRequest,
    CommitRequest, NetworkManager,
};
use crate::text::str_eq;
use crate::storage::{
    chunks_of, concat, digests_of, holds, lemma_concat_chunks, lemma_put_all_holds,
    lemma_put_all_push, manifest_of, no_clash, store_digest, stored, Objects, StorageManager,
    CHUNK_SIZE,
};
use vstd::prelude::*;

verus! {

/// The blobs of the listed digests as a peer with the store `m` gives them
/// out, one after the other; `Unavailable` where it does not have one of
/// them.
pub open spec fn raw_joined(m: Objects, chunks: Seq<Seq<char>>) -> Result<Seq<u8>, FaiError>
    decreases chunks.len(),
{
    if chunks.len() == 0 {
        Ok(Seq::<u8>::empty())
    } else {
        match (chunk_answer(m, chunks[0]), raw_joined(m, chunks.skip(1))) {
            (Some(part), Ok(rest)) => Ok(part + rest),
            (None, _) => Err(FaiError::Unavailable),
            (_, Err(e)) => Err(e),
        }
    }
}

/// What a fetch of `hash` from a peer with the store `m` gives: the blob,
/// or, where the blob is a manifest, the blobs of its chunks one after the
/// other. `Unavailable` where the peer does not have the blob or one of the
/// chunks, `Invalid` where the manifest cannot be read.
pub open spec fn fetched(m: Objects, hash: Seq<char>) -> Result<Seq<u8>, FaiError> {
    match chunk_answer(m, hash) {
        None => Err(FaiError::Unavailable),
        Some(raw) => if is_manifest_text(raw) {
            match parsed_manifest(raw) {
                Some(manifest) => raw_joined(m, manifest.chunks),
                None => Err(FaiError::Invalid),
            }
        } else {
            Ok(raw)
        },
    }
}

/// How far a fetch has come.
pub enum FetchStage {
    /// The blob itself is to be asked for.
    First,
    /// The blob was a manifest: the chunks from `pos` on are still to be
    /// asked for, and `data` holds the chunks before.
    Chunks { digests: Seq<Seq<char>>, pos: int, data: Seq<u8> },
    /// The fetch has ended.
    Done { result: Result<Seq<u8>, FaiError> },
}

/// A fetch as a mathematical value.
pub struct FetchView {
    pub hash: Seq<char>,
    pub stage: FetchStage,
}

/// The digest that a fetch asks for next; nothing once it has ended.
pub open spec fn fetch_wants(v: FetchView) -> Option<Seq<char>> {
    match v.stage {
        FetchStage::First => Some(v.hash),
        FetchStage::Chunks { digests, pos, data } => Some(digests[pos]),
        FetchStage::Done { result } => None,
    }
}

/// The fetch after the answer to its request has come.
pub open spec fn fetch_after(v: FetchView, answer: Option<Seq<u8>>) -> FetchView {
    let stage = match v.stage {
        FetchStage::First => match answer {
            None => FetchStage::Done { result: Err(FaiError::Unavailable) },
            Some(raw) => if is_manifest_text(raw) {
                match parsed_manifest(raw) {
                    None => FetchStage::Done { result: Err(FaiError::Invalid) },
                    Some(manifest) => if manifest.chunks.len() == 0 {
                        FetchStage::Done { result: Ok(Seq::<u8>::empty()) }
                    } else {
                        FetchStage::Chunks {
                            digests: manifest.chunks,
                            pos: 0,
                            data: Seq::<u8>::empty(),
                        }
                    },
                }
            } else {
                FetchStage::Done { result: Ok(raw) }
            },
        },
        FetchStage::Chunks { digests, pos, data } => match answer {
            None => FetchStage::Done { result: Err(FaiError::Unavailable) },
            Some(part) => if pos + 1 == digests.len() {
                FetchStage::Done { result: Ok(data + part) }
            } else {
                FetchStage::Chunks { digests, pos: pos + 1, data: data + part }
            },
        },
        FetchStage::Done { result } => v.stage,
    };
    FetchView { hash: v.hash, stage }
}

/// What a fetch that has come as far as `v` ends with, where the peer has
/// the store `m`.
pub open spec fn fetch_end(m: Objects, v: FetchView) -> Result<Seq<u8>, FaiError> {
    match v.stage {
        FetchStage::First => fetched(m, v.hash),
        FetchStage::Chunks { digests, pos, data } => match raw_joined(m, digests.skip(pos)) {
            Ok(rest) => Ok(data + rest),
            Err(e) => Err(e),
        },
        FetchStage::Done { result } => result,
    }
}

/// The fetch of one digest from a peer.
pub struct FetchSession {
    hash: String,
    started: bool,
    chunks: Vec<String>,
    pos: usize,
    data: Vec<u8>,
    ended: Option<FaiError>,
    done: bool,
}

impl View for FetchSession {
    type V = FetchView;

    closed spec fn view(&self) -> FetchView {
        FetchView {
            hash: self.hash@,
            stage: if !self.started {
                FetchStage::First
            } else if self.done {
                FetchStage::Done {
                    result: match self.ended {
                        Some(e) => Err(e),
                        None => Ok(self.data@),
                    },
                }
            } else {
                FetchStage::Chunks {
                    digests: strings_view(self.chunks@),
                    pos: self.pos as int,
                    data: self.data@,
                }
            },
        }
    }
}

impl FetchSession {
    /// The invariant of a fetch: while chunks are asked for, there is a
    /// next one.
    pub closed spec fn wf(&self) -> bool {
        &&& self.started && !self.done ==> self.pos < self.chunks.len()
        &&& self.done ==> self.started
        &&& self.ended is Some ==> self.done
    }

    /// What holds of the value of every fetch.
    pub proof fn lemma_wf(&self)
        requires
            self.wf(),
        ensures
            self@.stage matches FetchStage::Chunks { digests, pos, data } ==> 0 <= pos
                < digests.len(),
    {
    }

    /// A fetch of `hash` that has not asked for anything yet.
    pub fn new(hash: &str) -> (session: FetchSession)
        ensures
            session.wf(),
            session@ == (FetchView { hash: hash@, stage: FetchStage::First }),
    {
        FetchSession {
            hash: hash.to_owned(),
            started: false,
            chunks: Vec::new(),
            pos: 0,
            data: Vec::new(),
            ended: None,
            done: false,
        }
    }

    /// The request to send next; nothing once the fetch has ended.
    pub fn next_request(&self) -> (r: Option<ChunkRequest>)
        requires
            self.wf(),
        ensures
            match fetch_wants(self@) {
                Some(hash) => r matches Some(request) && request.hash@ == hash,
                None => r is None,
            },
    {
        if !self.started {
            Some(ChunkRequest { hash: self.hash.clone() })
        } else if self.done {
            None
        } else {
            Some(ChunkRequest { hash: self.chunks[self.pos].clone() })
        }
    }

    /// Takes in the answer to the request that was sent last: the blob, or
    /// nothing where the peer does not have it.
    pub fn on_response(&mut self, answer: Option<Vec<u8>>)
        requires
            old(self).wf(),
        ensures
            final(self).wf(),
            final(self)@ == fetch_after(
                old(self)@,
                match answer {
                    Some(bytes) => Some(bytes@),
                    None => None,
                },
            ),
    {
        if self.done {
            return ;
        }
        let bytes = match answer {
            Some(bytes) => bytes,
            None => {
                self.started = true;
                self.done = true;
                self.ended = Some(FaiError::Unavailable);
                return ;
            },
        };
        if !self.started {
            self.started = true;
            if looks_like_manifest(bytes.as_slice()) {
                match FileManifest::from_bytes(bytes.as_slice()) {
                    Some(manifest) => {
                        self.chunks = manifest.chunks;
                        self.pos = 0;
                        self.data = Vec::new();
                        if self.chunks.len() == 0 {
                            self.done = true;
                        }
                    },
                    None => {
                        self.done = true;
                        self.ended = Some(FaiError::Invalid);
                    },
                }
            } else {
                self.data = bytes;
                self.done = true;
            }
        } else {
            let mut part = bytes;
            self.data.append(&mut part);
            self.pos = self.pos + 1;
            if self.pos == self.chunks.len() {
                self.done = true;
            }
        }
    }

    /// What the fetch ended with; nothing while it has not ended.
    pub fn finish(self) -> (r: Option<Result<Vec<u8>, FaiError>>)
        ensures
            match self@.stage {
                FetchStage::Done { result: Ok(bytes) } => r matches Some(Ok(data)) && data@ == bytes,
                FetchStage::Done { result: Err(e) } => r matches Some(Err(e2)) && e2 == e,
                _ => r is None,
            },
    {
        if !self.started || !self.done {
            None
        } else {
            match self.ended {
                Some(e) => Some(Err(e)),
                None => Some(Ok(self.data)),
            }
        }
    }
}

/// A step of a fetch against a peer with the store `m` does not change what
/// the fetch ends with.
pub proof fn lemma_fetch_step(m: Objects, v: FetchView)
    requires
        v.stage matches FetchStage::Chunks { digests, pos, data } ==> 0 <= pos < digests.len(),
        fetch_wants(v) is Some,
    ensures
        fetch_end(m, fetch_after(v, chunk_answer(m, fetch_wants(v)->0))) == fetch_end(m, v),
{
    match v.stage {
        FetchStage::First => {
            match chunk_answer(m, v.hash) {
                Some(raw) => {
                    if is_manifest_text(raw) {
                        match parsed_manifest(raw) {
                            Some(manifest) => {
                                if manifest.chunks.len() > 0 {
                                    assert(manifest.chunks.skip(0) =~= manifest.chunks);
                                    match raw_joined(m, manifest.chunks) {
                                        Ok(rest) => {
                                            assert(Seq::<u8>::empty() + rest =~= rest);
                                        },
                                        Err(_) => {},
                                    }
                                }
                            },
                            None => {},
                        }
                    }
                },
                None => {},
            }
        },
        FetchStage::Chunks { digests, pos, data } => {
            let here = digests.skip(pos);
            assert(here[0] == digests[pos]);
            assert(here.skip(1) =~= digests.skip(pos + 1));
            match chunk_answer(m, digests[pos]) {
                Some(part) => {
                    match raw_joined(m, digests.skip(pos + 1)) {
                        Ok(rest) => {
                            assert(data + (part + rest) =~= (data + part) + rest);
                        },
                        Err(_) => {},
                    }
                    if pos + 1 == digests.len() {
                        assert(raw_joined(m, digests.skip(pos + 1)) == Ok::<Seq<u8>, FaiError>(
                            Seq::<u8>::empty(),
                        ));
                        assert(data + part + Seq::<u8>::empty() =~= data + part);
                    }
                },
                None => {},
            }
        },
        FetchStage::Done { result } => {},
    }
}

/// How many requests a fetch still has to send at most, once its first
/// answer has come.
pub open spec fn fetch_left(v: FetchView) -> nat {
    match v.stage {
        FetchStage::First => 0,
        FetchStage::Chunks { digests, pos, data } => (digests.len() - pos) as nat,
        FetchStage::Done { result } => 0,
    }
}

/// Fetches `hash` from a peer whose store is at hand: asks it for the blob
/// and, where the blob is a manifest, for each of its chunks, and puts the
/// chunks together.
pub fn fetch_from(peer: &StorageManager, hash: &str) -> (r: Result<Vec<u8>, FaiError>)
    requires
        peer.wf(),
    ensures
        match fetched(peer@, hash@) {
            Ok(bytes) => r matches Ok(data) && data@ == bytes,
            Err(e) => r matches Err(e2) && e2 == e,
        },
{
    let mut session = FetchSession::new(hash);
    let first = match session.next_request() {
        Some(request) => request,
        None => {
            return Err(FaiError::Invalid);
        },
    };
    proof {
        session.lemma_wf();
        lemma_fetch_step(peer@, session@);
    }
    let answer = answer_chunk_request(peer, &first);
    session.on_response(answer.data);
    loop
        invariant
            peer.wf(),
            session.wf(),
            !(session@.stage is First),
            fetch_end(peer@, session@) == fetched(peer@, hash@),
        ensures
            fetch_wants(session@) is None,
        decreases fetch_left(session@),
    {
        let request = match session.next_request() {
            Some(request) => request,
            None => {
                break ;
            },
        };
        proof {
            session.lemma_wf();
            lemma_fetch_step(peer@, session@);
        }
        let answer = answer_chunk_request(peer, &request);
        session.on_response(answer.data);
    }
    match session.finish() {
        Some(result) => result,
        None => Err(FaiError::Invalid),
    }
}

/// The chunks that are in the store are given out one after the other.
pub proof fn lemma_raw_joined(m: Objects, parts: Seq<Seq<u8>>)
    requires
        forall|i: int| 0 <= i < parts.len() ==> holds(m, #[trigger] parts[i]),
    ensures
        raw_joined(m, digests_of(parts)) == Ok::<Seq<u8>, FaiError>(concat(parts)),
    decreases parts.len(),
{
    if parts.len() > 0 {
        let rest = parts.skip(1);
        assert forall|i: int| 0 <= i < rest.len() implies holds(m, #[trigger] rest[i]) by {
            assert(rest[i] == parts[i + 1]);
        }
        lemma_raw_joined(m, rest);
        assert(digests_of(parts).skip(1) =~= digests_of(rest));
        assert(holds(m, parts[0]));
        assert(digests_of(parts)[0] == crate::digest::digest_of(parts[0]));
        assert(concat(parts) == parts[0] + concat(rest));
    }
}

/// A fetch gives back what was stored: where a peer has stored `data`, a
/// fetch of the digest that `store` gave from that peer is `data`, byte for
/// byte.
///
/// This holds where a blob of one chunk is not itself taken for a manifest,
/// and where no two different blobs among those involved share a digest.
pub proof fn lemma_fetch_gives_stored(before: StorageManager, after: StorageManager, data: Seq<u8>)
    requires
        before.wf(),
        after.wf(),
        after@ == stored(before@, data),
        data.len() <= CHUNK_SIZE ==> !is_manifest_text(data) && no_clash(before@, seq![data]),
        data.len() > CHUNK_SIZE ==> no_clash(
            before@,
            chunks_of(data).push(manifest_text(manifest_of(data))),
        ),
    ensures
        fetched(after@, store_digest(data)) == Ok::<Seq<u8>, FaiError>(data),
{
    let m = before@;
    let m2 = after@;
    if data.len() <= CHUNK_SIZE {
        assert(seq![data][0] == data);
        assert(holds(m2, data));
    } else {
        let parts = chunks_of(data);
        let text = manifest_text(manifest_of(data));
        let all = parts.push(text);
        lemma_put_all_push(m, parts, text);
        lemma_put_all_holds(m, all);
        assert(holds(m2, text)) by {
            assert(all[parts.len() as int] == text);
        }
        assert forall|i: int| 0 <= i < parts.len() implies holds(m2, #[trigger] parts[i]) by {
            assert(all[i] == parts[i]);
        }
        lemma_manifest_round_trip(manifest_of(data));
        lemma_raw_joined(m2, parts);
        lemma_concat_chunks(data);
    }
}

/// The digests of the files of a list of commits, commit after commit.
pub open spec fn all_digests(commits: Seq<CommitView>) -> Seq<Seq<char>>
    decreases commits.len(),
{
    if commits.len() == 0 {
        Seq::<Seq<char>>::empty()
    } else {
        all_digests(commits.drop_last()) + digests(commits.last().files)
    }
}

/// Those of the digests that the store `m` does not have, each once and in
/// the order in which they come first.
pub open spec fn needed(m: Objects, ds: Seq<Seq<char>>) -> Seq<Seq<char>>
    decreases ds.len(),
{
    if ds.len() == 0 {
        Seq::<Seq<char>>::empty()
    } else {
        let front = needed(m, ds.drop_last());
        if !ds.drop_last().contains(ds.last()) && !m.contains_key(ds.last()) {
            front.push(ds.last())
        } else {
            front
        }
    }
}

/// Every file of every commit is among all the digests.
pub proof fn lemma_all_digests(commits: Seq<CommitView>, i: int, j: int)
    requires
        0 <= i < commits.len(),
        0 <= j < commits[i].files.len(),
    ensures
        all_digests(commits).contains(commits[i].files[j].1),
    decreases commits.len(),
{
    let front = all_digests(commits.drop_last());
    let last = digests(commits.last().files);
    if i == commits.len() - 1 {
        assert((front + last)[front.len() + j] == commits[i].files[j].1);
    } else {
        lemma_all_digests(commits.drop_last(), i, j);
        let k = choose|k: int| 0 <= k < front.len() && front[k] == commits[i].files[j].1;
        assert((front + last)[k] == front[k]);
    }
}

/// Every digest is in the store or among the needed ones.
pub proof fn lemma_needed(m: Objects, ds: Seq<Seq<char>>)
    ensures
        forall|k: int|
            0 <= k < ds.len() ==> m.contains_key(#[trigger] ds[k]) || needed(m, ds).contains(ds[k]),
    decreases ds.len(),
{
    if ds.len() > 0 {
        let front_ds = ds.drop_last();
        let front = needed(m, front_ds);
        let r = needed(m, ds);
        lemma_needed(m, front_ds);
        assert forall|k: int| 0 <= k < ds.len() implies m.contains_key(#[trigger] ds[k])
            || r.contains(ds[k]) by {
            if !m.contains_key(ds[k]) {
                if k < front_ds.len() {
                    assert(front_ds[k] == ds[k]);
                    let w = choose|w: int| 0 <= w < front.len() && front[w] == ds[k];
                    assert(r[w] == front[w]);
                } else {
                    if front_ds.contains(ds[k]) {
                        let q = choose|q: int| 0 <= q < front_ds.len() && front_ds[q] == ds[k];
                        assert(front_ds[q] == ds[q]);
                        let w = choose|w: int| 0 <= w < front.len() && front[w] == ds[q];
                        assert(r[w] == front[w]);
                    } else {
                        assert(r[r.len() - 1] == ds[k]);
                    }
                }
            }
        }
    }
}

/// A transfer of the files of commits as a mathematical value.
pub struct SyncView {
    /// The digests of the files that are asked for, in order.
    pub files: Seq<Seq<char>>,
    /// How many of the files have been dealt with.
    pub file_pos: int,
    /// Whether the chunks of a manifest are being asked for.
    pub in_chunks: bool,
    /// The chunks of the manifest that is being dealt with.
    pub chunks: Seq<Seq<char>>,
    /// How many of the chunks have been dealt with.
    pub chunk_pos: int,
    /// Whether every chunk so far has come as asked for.
    pub file_ok: bool,
    /// The files that have come whole.
    pub ok: Seq<Seq<char>>,
    /// The files that have not.
    pub failed: Seq<Seq<char>>,
    /// The object store of the receiving repository.
    pub store: Objects,
}

/// The digest that a transfer asks for next; nothing once every file has
/// been dealt with.
pub open spec fn sync_wants(v: SyncView) -> Option<Seq<char>> {
    if v.file_pos >= v.files.len() {
        None
    } else if v.in_chunks {
        Some(v.chunks[v.chunk_pos])
    } else {
        Some(v.files[v.file_pos])
    }
}

/// The store after an answer was taken in: with the blob that came, under
/// its own digest.
pub open spec fn store_after(m: Objects, answer: Option<Seq<u8>>) -> Objects {
    match answer {
        Some(bytes) => put(m, bytes),
        None => m,
    }
}

/// Whether an answer is the blob of the digest that was asked for.
pub open spec fn came_as_asked(answer: Option<Seq<u8>>, want: Seq<char>) -> bool {
    match answer {
        Some(bytes) => digest_of(bytes) == want,
        None => false,
    }
}

/// The chunks that are to be asked for after the blob of a file has come:
/// those of the manifest, where the blob is one that can be read.
pub open spec fn chunks_to_ask(answer: Option<Seq<u8>>) -> Seq<Seq<char>> {
    match answer {
        Some(bytes) => if is_manifest_text(bytes) {
            match parsed_manifest(bytes) {
                Some(manifest) => manifest.chunks,
                None => Seq::<Seq<char>>::empty(),
            }
        } else {
            Seq::<Seq<char>>::empty()
        },
        None => Seq::<Seq<char>>::empty(),
    }
}

/// The chunks that the blob which the store holds under `digest` lists.
pub open spec fn chunks_listed(m: Objects, digest: Seq<char>) -> Seq<Seq<char>> {
    if m.contains_key(digest) {
        chunks_to_ask(Some(m[digest]))
    } else {
        Seq::<Seq<char>>::empty()
    }
}

/// The transfer after the answer to its request has come.
///
/// Every blob that comes is stored under its own digest. A file has come
/// whole where its blob came as asked for and, where the blob that the store
/// then holds for it is a manifest, every chunk that it lists came as asked
/// for too. A file of which anything is missing has failed; the transfer
/// goes on with the next file.
pub open spec fn sync_after(v: SyncView, answer: Option<Seq<u8>>) -> SyncView {
    let store = store_after(v.store, answer);
    if v.file_pos >= v.files.len() {
        v
    } else if !v.in_chunks {
        let want = v.files[v.file_pos];
        if !came_as_asked(answer, want) {
            SyncView { failed: v.failed.push(want), file_pos: v.file_pos + 1, store, ..v }
        } else if chunks_listed(store, want).len() > 0 {
            SyncView {
                in_chunks: true,
                chunks: chunks_listed(store, want),
                chunk_pos: 0,
                file_ok: true,
                store,
                ..v
            }
        } else {
            SyncView { ok: v.ok.push(want), file_pos: v.file_pos + 1, store, ..v }
        }
    } else {
        let good = v.file_ok && came_as_asked(answer, v.chunks[v.chunk_pos]);
        if v.chunk_pos + 1 < v.chunks.len() {
            SyncView { chunk_pos: v.chunk_pos + 1, file_ok: good, store, ..v }
        } else if good {
            SyncView {
                in_chunks: false,
                file_pos: v.file_pos + 1,
                ok: v.ok.push(v.files[v.file_pos]),
                file_ok: good,
                store,
                ..v
            }
        } else {
            SyncView {
                in_chunks: false,
                file_pos: v.file_pos + 1,
                failed: v.failed.push(v.files[v.file_pos]),
                file_ok: good,
                store,
                ..v
            }
        }
    }
}

/// Whether the store `m` has the file of `digest` whole: it has the blob,
/// and every chunk that the blob lists where it is a manifest.
pub open spec fn serves_whole(m: Objects, digest: Seq<char>) -> bool {
    m.contains_key(digest) && forall|k: int|
        0 <= k < chunks_to_ask(Some(m[digest])).len() ==> m.contains_key(
            #[trigger] chunks_to_ask(Some(m[digest]))[k],
        )
}

/// Whether the store `m` has each of the files `ds` whole.
pub open spec fn whole(m: Objects, ds: Seq<Seq<char>>) -> bool {
    forall|k: int| 0 <= k < ds.len() ==> serves_whole(m, #[trigger] ds[k])
}

/// What holds of every transfer: it stands at a file and a chunk that are
/// there; the chunks that are asked for are those that the manifest at hand
/// lists as the store holds it, and while none of them has failed, those
/// dealt with are in the store; the store has whole every file that is
/// counted as come and, while no file has failed, every file that was dealt
/// with.
pub open spec fn sync_ok(v: SyncView) -> bool {
    &&& 0 <= v.file_pos <= v.files.len()
    &&& v.in_chunks ==> {
        &&& v.file_pos < v.files.len()
        &&& 0 <= v.chunk_pos < v.chunks.len()
        &&& v.store.contains_key(v.files[v.file_pos])
        &&& v.chunks == chunks_listed(v.store, v.files[v.file_pos])
        &&& v.file_ok ==> forall|k: int|
            0 <= k < v.chunk_pos ==> v.store.contains_key(#[trigger] v.chunks[k])
    }
    &&& whole(v.store, v.ok)
    &&& v.failed.len() == 0 ==> whole(v.store, v.files.take(v.file_pos))
}

/// A store that has grown, and kept what it had, has whole what it had
/// whole.
pub proof fn lemma_stays_whole(a: Objects, b: Objects, digest: Seq<char>)
    requires
        serves_whole(a, digest),
        forall|d: Seq<char>| #[trigger] a.contains_key(d) ==> b.contains_key(d) && b[d] == a[d],
    ensures
        serves_whole(b, digest),
{
    assert(b[digest] == a[digest]);
    let chunks = chunks_to_ask(Some(a[digest]));
    assert forall|k: int| 0 <= k < chunks.len() implies b.contains_key(#[trigger] chunks[k]) by {
        assert(a.contains_key(chunks[k]));
    }
}

/// A step of a transfer keeps what holds of every transfer, and removes
/// nothing from the store.
pub proof fn lemma_sync_after(v: SyncView, answer: Option<Seq<u8>>)
    requires
        sync_ok(v),
    ensures
        sync_ok(sync_after(v, answer)),
        forall|d: Seq<char>| #[trigger]
            v.store.contains_key(d) ==> sync_after(v, answer).store.contains_key(d) && sync_after(
                v,
                answer,
            ).store[d] == v.store[d],
        sync_after(v, answer).files == v.files,
{
    let w = sync_after(v, answer);
    if v.file_pos < v.files.len() {
        let file = v.files[v.file_pos];
        assert forall|k: int| 0 <= k < v.ok.len() implies serves_whole(w.store, #[trigger] v.ok[k]) by {
            lemma_stays_whole(v.store, w.store, v.ok[k]);
        }
        if v.failed.len() == 0 {
            assert forall|i: int| 0 <= i < v.file_pos implies serves_whole(
                w.store,
                #[trigger] v.files[i],
            ) by {
                assert(v.files.take(v.file_pos)[i] == v.files[i]);
                lemma_stays_whole(v.store, w.store, v.files[i]);
            }
        }
        if v.in_chunks {
            assert(w.store[file] == v.store[file]);
            if v.file_ok && came_as_asked(answer, v.chunks[v.chunk_pos]) {
                assert(w.store.contains_key(v.chunks[v.chunk_pos]));
                assert forall|k: int| 0 <= k <= v.chunk_pos implies w.store.contains_key(
                    #[trigger] v.chunks[k],
                ) by {
                    if k < v.chunk_pos {
                        assert(v.store.contains_key(v.chunks[k]));
                    }
                }
                if v.chunk_pos + 1 >= v.chunks.len() {
                    assert(serves_whole(w.store, file));
                }
            }
        } else if came_as_asked(answer, file) {
            assert(w.store.contains_key(file));
            if chunks_listed(w.store, file).len() == 0 {
                assert(serves_whole(w.store, file));
            }
        }
        if w.file_pos == v.file_pos + 1 {
            if w.ok.len() == v.ok.len() + 1 {
                assert(w.ok == v.ok.push(file));
                assert(serves_whole(w.store, file));
                assert forall|k: int| 0 <= k < w.ok.len() implies serves_whole(
                    w.store,
                    #[trigger] w.ok[k],
                ) by {
                    if k < v.ok.len() {
                        assert(w.ok[k] == v.ok[k]);
                    }
                }
            }
            if w.failed.len() == 0 {
                assert(v.failed.len() == 0);
                assert forall|i: int| 0 <= i < w.file_pos implies serves_whole(
                    w.store,
                    #[trigger] w.files.take(w.file_pos)[i],
                ) by {
                    if i < v.file_pos {
                        assert(serves_whole(w.store, v.files[i]));
                    }
                }
            }
        } else {
            assert(w.ok == v.ok);
            assert(w.failed == v.failed);
            assert(w.files.take(w.file_pos) == v.files.take(v.file_pos));
        }
    }
}

/// How many files a transfer has not dealt with yet.
pub open spec fn files_left(v: SyncView) -> int {
    v.files.len() - v.file_pos
}

/// Whether the blob of the file at hand is still to come: one while it is,
/// none once its chunks are asked for.
pub open spec fn blob_left(v: SyncView) -> int {
    if v.in_chunks {
        0
    } else {
        1
    }
}

/// How many chunks of the manifest at hand a transfer has not dealt with
/// yet.
pub open spec fn chunks_left(v: SyncView) -> int {
    if v.in_chunks {
        v.chunks.len() - v.chunk_pos
    } else {
        0
    }
}

/// The transfer after each of its requests was answered by a peer with the
/// store `peer`, up to the last.
pub open spec fn transferred(peer: Objects, v: SyncView) -> SyncView
    decreases files_left(v), blob_left(v), chunks_left(v),
{
    if sync_wants(v) is None || !sync_ok(v) {
        v
    } else {
        transferred(peer, sync_after(v, chunk_answer(peer, sync_wants(v)->0)))
    }
}

/// Every needed digest is one of the digests.
pub proof fn lemma_needed_within(m: Objects, ds: Seq<Seq<char>>)
    ensures
        forall|k: int| 0 <= k < needed(m, ds).len() ==> ds.contains(#[trigger] needed(m, ds)[k]),
    decreases ds.len(),
{
    if ds.len() > 0 {
        let front_ds = ds.drop_last();
        let front = needed(m, front_ds);
        lemma_needed_within(m, front_ds);
        assert forall|k: int| 0 <= k < needed(m, ds).len() implies ds.contains(
            #[trigger] needed(m, ds)[k],
        ) by {
            if k < front.len() {
                assert(needed(m, ds)[k] == front[k]);
                let w = choose|w: int| 0 <= w < front_ds.len() && front_ds[w] == front[k];
                assert(ds[w] == front_ds[w]);
            } else {
                assert(needed(m, ds)[k] == ds[ds.len() - 1]);
            }
        }
    }
}

/// Where every received commit is acceptable, none is refused.
pub proof fn lemma_none_refused(received: Seq<CommitView>, order: Seq<usize>)
    requires
        forall|k: int| 0 <= k < order.len() ==> (#[trigger] order[k]) < received.len(),
        forall|i: int|
            0 <= i < received.len() ==> acceptable(
                (#[trigger] received[i]).hash,
                received[i].message,
                received[i].timestamp,
            ),
    ensures
        refused(received, order) == Seq::<Seq<char>>::empty(),
    decreases order.len(),
{
    if order.len() > 0 {
        let rest = order.skip(1);
        assert forall|k: int| 0 <= k < rest.len() implies (#[trigger] rest[k]) < received.len() by {
            assert(rest[k] == order[k + 1]);
        }
        lemma_none_refused(received, rest);
        assert(order[0] < received.len());
        let c = received[order[0] as int];
        assert(acceptable(c.hash, c.message, c.timestamp));
    }
}

/// Whether two stores hold the same blob under every digest that both
/// have.
pub open spec fn agree(a: Objects, b: Objects) -> bool {
    forall|d: Seq<char>| #[trigger] a.contains_key(d) && b.contains_key(d) ==> a[d] == b[d]
}

/// Whether a transfer that has come as far as `v` without a failure can be
/// brought to its end without one by a peer with the store `peer`: the two
/// stores agree, the peer can give out whole every file that is still to
/// come, and has every chunk that is still to come of the manifest at hand.
pub open spec fn can_complete(peer: Objects, v: SyncView) -> bool {
    &&& crate::storage::intact(peer)
    &&& agree(v.store, peer)
    &&& v.failed.len() == 0
    &&& forall|i: int|
        v.file_pos + (1 - blob_left(v)) <= i < v.files.len() ==> serves_whole(
            peer,
            #[trigger] v.files[i],
        )
    &&& v.in_chunks ==> v.file_ok && forall|k: int|
        v.chunk_pos <= k < v.chunks.len() ==> peer.contains_key(#[trigger] v.chunks[k])
}

/// A transfer from a peer that has everything whole ends without a failure.
pub proof fn lemma_transfer_completes(peer: Objects, v: SyncView)
    requires
        sync_ok(v),
        can_complete(peer, v),
    ensures
        transferred(peer, v).failed.len() == 0,
        sync_wants(transferred(peer, v)) is None,
    decreases files_left(v), blob_left(v), chunks_left(v),
{
    if sync_wants(v) is Some {
        let want = sync_wants(v)->0;
        let answer = chunk_answer(peer, want);
        let w = sync_after(v, answer);
        lemma_sync_after(v, answer);
        if !v.in_chunks {
            assert(serves_whole(peer, v.files[v.file_pos]));
        } else {
            assert(peer.contains_key(v.chunks[v.chunk_pos]));
        }
        assert(came_as_asked(answer, want));
        assert(w.store == put(v.store, peer[want]));
        assert(w.store[want] == peer[want]);
        assert forall|d: Seq<char>| #[trigger]
            w.store.contains_key(d) && peer.contains_key(d) implies w.store[d] == peer[d] by {
            if d != want {
                assert(v.store.contains_key(d));
            }
        }
        if !v.in_chunks {
            if w.in_chunks {
                assert(w.chunks == chunks_to_ask(Some(peer[want])));
                assert forall|k: int| w.chunk_pos <= k < w.chunks.len() implies peer.contains_key(
                    #[trigger] w.chunks[k],
                ) by {
                    assert(w.chunks[k] == chunks_to_ask(Some(peer[want]))[k]);
                }
            }
        } else if w.in_chunks {
            assert forall|k: int| w.chunk_pos <= k < w.chunks.len() implies peer.contains_key(
                #[trigger] w.chunks[k],
            ) by {
                assert(peer.contains_key(v.chunks[k]));
            }
        }
        assert forall|i: int|
            w.file_pos + (1 - blob_left(w)) <= i < w.files.len() implies serves_whole(
            peer,
            #[trigger] w.files[i],
        ) by {
            assert(serves_whole(peer, v.files[i]));
        }
        lemma_transfer_completes(peer, w);
    }
}

/// However a peer answers, the store has whole at the end every file that
/// is counted as come, and every file that was asked for where none has
/// failed.
pub proof fn lemma_transferred_whole(peer: Objects, v: SyncView)
    requires
        sync_ok(v),
    ensures
        sync_ok(transferred(peer, v)),
        sync_wants(transferred(peer, v)) is None,
        transferred(peer, v).files == v.files,
        whole(transferred(peer, v).store, transferred(peer, v).ok),
        transferred(peer, v).failed.len() == 0 ==> whole(transferred(peer, v).store, v.files),
    decreases files_left(v), blob_left(v), chunks_left(v),
{
    if sync_wants(v) is Some {
        let answer = chunk_answer(peer, sync_wants(v)->0);
        lemma_sync_after(v, answer);
        lemma_transferred_whole(peer, sync_after(v, answer));
    } else {
        assert(v.files.take(v.file_pos) =~= v.files);
    }
}

/// What a clone or a pull did.
#[derive(Debug)]
pub struct SyncReport {
    /// How many commits were received.
    pub commits: usize,
    /// The places of the received commits in the order in which they were
    /// put into the index: parents first.
    pub order: Vec<usize>,
    /// How many of the places of `order` could be settled parents first.
    pub settled: usize,
    /// The digests of the commits that the index refused.
    pub refused_commits: Vec<String>,
    /// The digests of the files that came whole.
    pub files: Vec<String>,
    /// The digests of the files of which something was missing.
    pub failed_files: Vec<String>,
}

impl SyncReport {
    /// Whether everything came: no file failed and no commit was refused.
    pub fn is_complete(&self) -> (r: bool)
        ensures
            r == (self.failed_files.len() == 0 && self.refused_commits.len() == 0),
    {
        self.failed_files.len() == 0 && self.refused_commits.len() == 0
    }
}

/// A clone or a pull: the transfer of the files of received commits into a
/// repository, and then of the commits themselves.
pub struct SyncSession {
    repo: FaiProtocol,
    commits: Vec<Commit>,
    files: Vec<String>,
    file_pos: usize,
    in_chunks: bool,
    chunks: Vec<String>,
    chunk_pos: usize,
    file_ok: bool,
    ok: Vec<String>,
    failed: Vec<String>,
    move_head: bool,
}

impl View for SyncSession {
    type V = SyncView;

    closed spec fn view(&self) -> SyncView {
        SyncView {
            files: strings_view(self.files@),
            file_pos: self.file_pos as int,
            in_chunks: self.in_chunks,
            chunks: strings_view(self.chunks@),
            chunk_pos: self.chunk_pos as int,
            file_ok: self.file_ok,
            ok: strings_view(self.ok@),
            failed: strings_view(self.failed@),
            store: self.repo.store()@,
        }
    }
}

/// The digests of the files of a list of commits, commit after commit.
pub fn collect_digests(commits: &Vec<Commit>) -> (r: Vec<String>)
    ensures
        strings_view(r@) == all_digests(commits_view(commits@)),
{
    let ghost all = commits_view(commits@);
    let mut out: Vec<String> = Vec::new();
    let mut i: usize = 0;
    assert(all.take(0) =~= Seq::<CommitView>::empty());
    assert(strings_view(out@) =~= all_digests(all.take(0)));
    while i < commits.len()
        invariant
            i <= commits.len(),
            all == commits_view(commits@),
            strings_view(out@) == all_digests(all.take(i as int)),
        decreases commits.len() - i,
    {
        let ghost before = strings_view(out@);
        assert(all.take(i + 1).drop_last() =~= all.take(i as int));
        assert(all.take(i + 1).last() == commits@[i as int]@);
        let mut ds = file_digests(&commits[i].files);
        let ghost added = strings_view(ds@);
        out.append(&mut ds);
        assert(strings_view(out@) =~= before + added);
        i += 1;
    }
    assert(all.take(i as int) =~= all);
    out
}

/// Those of the digests that the store does not have, each once.
pub fn pick_needed(store: &StorageManager, ds: &Vec<String>) -> (r: Vec<String>)
    requires
        store.wf(),
    ensures
        strings_view(r@) == needed(store@, strings_view(ds@)),
{
    let ghost all = strings_view(ds@);
    let mut out: Vec<String> = Vec::new();
    let mut i: usize = 0;
    assert(strings_view(out@) =~= needed(store@, all.take(0)));
    while i < ds.len()
        invariant
            i <= ds.len(),
            store.wf(),
            all == strings_view(ds@),
            strings_view(out@) == needed(store@, all.take(i as int)),
        decreases ds.len() - i,
    {
        let ghost before = strings_view(out@);
        assert(all.take(i + 1).drop_last() =~= all.take(i as int));
        assert(all.take(i + 1).last() == ds@[i as int]@);
        if !contains_text(ds, i, ds[i].as_str()) && !store.has_object(ds[i].as_str()) {
            out.push(ds[i].clone());
            assert(strings_view(out@) =~= before.push(ds@[i as int]@));
        }
        i += 1;
    }
    assert(all.take(i as int) =~= all);
    out
}

impl SyncSession {
    /// The repository that receives.
    pub closed spec fn target(&self) -> FaiProtocol {
        self.repo
    }

    /// The commits that were received.
    pub closed spec fn received(&self) -> Seq<CommitView> {
        commits_view(self.commits@)
    }

    /// Whether HEAD is moved to the tip of the received commits at the end.
    pub closed spec fn moves_head(&self) -> bool {
        self.move_head
    }

    /// The invariant of a session: that of the repository and of the
    /// transfer, and every file of every received commit is in the store or
    /// among the files that are asked for.
    pub open spec fn wf(&self) -> bool {
        &&& self.target().wf()
        &&& sync_ok(self@)
        &&& forall|k: int|
            0 <= k < all_digests(self.received()).len() ==> self@.store.contains_key(
                #[trigger] all_digests(self.received())[k],
            ) || self@.files.contains(all_digests(self.received())[k])
    }

    /// Begins a clone into the fresh repository `repo`. A peer that has no
    /// commits cannot be cloned.
    pub fn start_clone(repo: FaiProtocol, commits: Vec<Commit>) -> (r: Result<
        SyncSession,
        FaiError,
    >)
        requires
            repo.wf(),
        ensures
            match r {
                Ok(session) => commits.len() > 0 && session.wf() && session.moves_head()
                    && session.received() == commits_view(commits@) && session.target() == repo
                    && session@ == begun(repo.store()@, commits_view(commits@)),
                Err(e) => e == FaiError::NotFound && commits.len() == 0,
            },
    {
        if commits.len() == 0 {
            return Err(FaiError::NotFound);
        }
        Ok(SyncSession::start(repo, commits, true))
    }

    /// Begins a pull into `repo`. HEAD stays where it is.
    pub fn start_pull(repo: FaiProtocol, commits: Vec<Commit>) -> (session: SyncSession)
        requires
            repo.wf(),
        ensures
            session.wf(),
            !session.moves_head(),
            session.received() == commits_view(commits@),
            session.target() == repo,
            session@ == begun(repo.store()@, commits_view(commits@)),
    {
        SyncSession::start(repo, commits, false)
    }

    fn start(repo: FaiProtocol, commits: Vec<Commit>, move_head: bool) -> (session: SyncSession)
        requires
            repo.wf(),
        ensures
            session.wf(),
            session.moves_head() == move_head,
            session.received() == commits_view(commits@),
            session.target() == repo,
            session@ == begun(repo.store()@, commits_view(commits@)),
    {
        let all = collect_digests(&commits);
        let files = pick_needed(repo.storage(), &all);
        proof {
            lemma_needed(repo.store()@, strings_view(all@));
        }
        let session = SyncSession {
            repo,
            commits,
            files,
            file_pos: 0,
            in_chunks: false,
            chunks: Vec::new(),
            chunk_pos: 0,
            file_ok: true,
            ok: Vec::new(),
            failed: Vec::new(),
            move_head,
        };
        assert(session@.chunks =~= Seq::<Seq<char>>::empty());
        assert(session@.ok =~= Seq::<Seq<char>>::empty());
        assert(session@.failed =~= Seq::<Seq<char>>::empty());
        session
    }

    /// The request to send next; nothing once every file has been dealt
    /// with.
    pub fn next_request(&self) -> (r: Option<ChunkRequest>)
        requires
            self.wf(),
        ensures
            match sync_wants(self@) {
                Some(hash) => r matches Some(request) && request.hash@ == hash,
                None => r is None,
            },
    {
        if self.file_pos >= self.files.len() {
            None
        } else if self.in_chunks {
            Some(ChunkRequest { hash: self.chunks[self.chunk_pos].clone() })
        } else {
            Some(ChunkRequest { hash: self.files[self.file_pos].clone() })
        }
    }
}

/// A transfer that has not asked for anything yet: it asks for the files of
/// the commits that the store does not have.
pub open spec fn begun(m: Objects, commits: Seq<CommitView>) -> SyncView {
    SyncView {
        files: needed(m, all_digests(commits)),
        file_pos: 0,
        in_chunks: false,
        chunks: Seq::<Seq<char>>::empty(),
        chunk_pos: 0,
        file_ok: true,
        ok: Seq::<Seq<char>>::empty(),
        failed: Seq::<Seq<char>>::empty(),
        store: m,
    }
}

/// The commit that an index would hold for a received commit: the commit
/// with its files in their normal form.
pub open spec fn as_recorded(c: CommitView) -> CommitView {
    CommitView { files: normalized(c.files), ..c }
}

/// The history after `c` was offered to it: with `c` recorded where it is
/// acceptable, and as it was where it is not.
pub open spec fn offered(history: Seq<CommitView>, c: CommitView) -> Seq<CommitView> {
    if acceptable(c.hash, c.message, c.timestamp) {
        recorded(history, as_recorded(c))
    } else {
        history
    }
}

/// Offering a commit a second time changes nothing.
pub proof fn lemma_offered_twice(history: Seq<CommitView>, c: CommitView)
    requires
        newest_first(history),
        unique_hashes(history),
    ensures
        offered(offered(history, c), c) == offered(history, c),
{
    if acceptable(c.hash, c.message, c.timestamp) {
        lemma_recorded(history, as_recorded(c));
    }
}

/// The history after the received commits have been put in, in the order
/// `order` of their places. A commit that is not acceptable is passed over.
pub open spec fn imported(history: Seq<CommitView>, received: Seq<CommitView>, order: Seq<usize>) -> Seq<
    CommitView,
>
    decreases order.len(),
{
    if order.len() == 0 {
        history
    } else {
        imported(offered(history, received[order[0] as int]), received, order.skip(1))
    }
}

/// The digests of the received commits that are not acceptable, in the
/// order `order` of their places.
pub open spec fn refused(received: Seq<CommitView>, order: Seq<usize>) -> Seq<Seq<char>>
    decreases order.len(),
{
    if order.len() == 0 {
        Seq::<Seq<char>>::empty()
    } else {
        let c = received[order[0] as int];
        if acceptable(c.hash, c.message, c.timestamp) {
            refused(received, order.skip(1))
        } else {
            seq![c.hash] + refused(received, order.skip(1))
        }
    }
}

/// Whether `hash` is the digest of one of the commits.
pub open spec fn is_received(commits: Seq<CommitView>, hash: Seq<char>) -> bool {
    exists|j: int| 0 <= j < commits.len() && (#[trigger] commits[j]).hash == hash
}

/// Whether `hash` is the digest of one of the commits at the places
/// `placed`.
pub open spec fn is_placed(commits: Seq<CommitView>, placed: Seq<usize>, hash: Seq<char>) -> bool {
    exists|t: int| 0 <= t < placed.len() && commits[(#[trigger] placed[t]) as int].hash == hash
}

/// Whether the commit at the place `i` can be put in after those at the
/// places `placed`: whether every parent of it that is among the commits
/// has been put in.
pub open spec fn ready(commits: Seq<CommitView>, placed: Seq<usize>, i: int) -> bool {
    forall|p: int|
        0 <= p < commits[i].parents.len() && is_received(commits, #[trigger] commits[i].parents[p])
            ==> is_placed(commits, placed, commits[i].parents[p])
}

/// Whether `order` puts the commits in parents first, as far as that can be
/// done: it names every place once; each of its first `settled` places is
/// ready after the places before it; and none of the others is ready after
/// the first `settled`, which is so where commits list each other as
/// parents in a circle.
pub open spec fn parents_first(commits: Seq<CommitView>, order: Seq<usize>, settled: int) -> bool {
    &&& order.len() == commits.len()
    &&& order.no_duplicates()
    &&& forall|k: int| 0 <= k < order.len() ==> (#[trigger] order[k]) < commits.len()
    &&& forall|i: usize| i < commits.len() ==> #[trigger] order.contains(i)
    &&& 0 <= settled <= order.len()
    &&& forall|k: int| 0 <= k < settled ==> ready(commits, order.take(k), #[trigger] order[k] as int)
    &&& forall|k: int|
        settled <= k < order.len() ==> !ready(commits, order.take(settled), #[trigger] order[k] as int)
}

/// Whether the commit at `i` is a tip: no received commit lists it as a
/// parent.
pub open spec fn is_tip(received: Seq<CommitView>, i: int) -> bool {
    forall|j: int| 0 <= j < received.len() ==> !(#[trigger] received[j]).parents.contains(
        received[i].hash,
    )
}

/// The index of the first tip among the commits from `from` on; the length
/// of the list where there is none.
pub open spec fn first_tip(received: Seq<CommitView>, from: int) -> int
    decreases received.len() - from,
{
    if from >= received.len() || from < 0 {
        received.len() as int
    } else if is_tip(received, from) {
        from
    } else {
        first_tip(received, from + 1)
    }
}

/// The text of HEAD after the commits were received: the digest of the
/// first tip where HEAD is moved and there is a tip, else as before.
pub open spec fn head_after(head: Seq<char>, received: Seq<CommitView>, move_head: bool) -> Seq<
    char,
> {
    if move_head && first_tip(received, 0) < received.len() {
        received[first_tip(received, 0)].hash
    } else {
        head
    }
}

/// Putting received commits into a history keeps it newest first and its
/// digests unique; every commit that was there stays, and every commit at
/// a place of `order` that is acceptable is there afterwards.
pub proof fn lemma_imported(history: Seq<CommitView>, received: Seq<CommitView>, order: Seq<usize>)
    requires
        newest_first(history),
        unique_hashes(history),
        forall|k: int| 0 <= k < order.len() ==> (#[trigger] order[k]) < received.len(),
    ensures
        newest_first(imported(history, received, order)),
        unique_hashes(imported(history, received, order)),
        forall|h: Seq<char>| #[trigger]
            has_commit(history, h) ==> has_commit(imported(history, received, order), h),
        forall|k: int|
            0 <= k < order.len() && acceptable(
                received[(#[trigger] order[k]) as int].hash,
                received[order[k] as int].message,
                received[order[k] as int].timestamp,
            ) ==> has_commit(imported(history, received, order), received[order[k] as int].hash),
        refused(received, order).len() == 0 ==> forall|k: int|
            0 <= k < order.len() ==> has_commit(
                imported(history, received, order),
                received[(#[trigger] order[k]) as int].hash,
            ),
    decreases order.len(),
{
    if order.len() > 0 {
        let c = received[order[0] as int];
        let rest = order.skip(1);
        let next = offered(history, c);
        lemma_recorded(history, as_recorded(c));
        assert forall|k: int| 0 <= k < rest.len() implies (#[trigger] rest[k]) < received.len() by {
            assert(rest[k] == order[k + 1]);
        }
        lemma_imported(next, received, rest);
        let end = imported(history, received, order);
        assert forall|h: Seq<char>| #[trigger] has_commit(history, h) implies has_commit(end, h) by {
            if acceptable(c.hash, c.message, c.timestamp) {
                assert(crate::database::commit_of(next, h) == crate::database::commit_of(history, h));
                assert(has_commit(next, h));
            }
        }
        assert forall|k: int|
            0 <= k < order.len() && acceptable(
                received[(#[trigger] order[k]) as int].hash,
                received[order[k] as int].message,
                received[order[k] as int].timestamp,
            ) implies has_commit(end, received[order[k] as int].hash) by {
            if k > 0 {
                assert(rest[k - 1] == order[k]);
            } else {
                assert(has_commit(next, c.hash));
            }
        }
        if refused(received, order).len() == 0 {
            assert(acceptable(c.hash, c.message, c.timestamp));
            assert forall|k: int| 0 <= k < order.len() implies has_commit(
                end,
                received[(#[trigger] order[k]) as int].hash,
            ) by {
                if k > 0 {
                    assert(rest[k - 1] == order[k]);
                } else {
                    assert(has_commit(next, c.hash));
                }
            }
        }
    }
}

/// A list of places below `n` that names no place twice has at most `n`
/// places, and exactly `n` where it names every place below `n`.
pub proof fn lemma_places(order: Seq<usize>, n: int)
    requires
        0 <= n <= usize::MAX,
        order.no_duplicates(),
        forall|k: int| 0 <= k < order.len() ==> (#[trigger] order[k]) < n,
    ensures
        order.len() <= n,
        (forall|i: usize| i < n ==> #[trigger] order.contains(i)) ==> order.len() == n,
{
    let ints = Seq::new(order.len(), |k: int| order[k] as int);
    assert(ints.no_duplicates()) by {
        assert forall|i: int, j: int| 0 <= i < ints.len() && 0 <= j < ints.len() && i != j implies ints[i]
            != ints[j] by {
            assert(order[i] != order[j]);
        }
    }
    ints.unique_seq_to_set();
    let range = vstd::set_lib::set_int_range(0, n);
    vstd::set_lib::lemma_int_range(0, n);
    assert(ints.to_set().subset_of(range)) by {
        assert forall|x: int| ints.to_set().contains(x) implies range.contains(x) by {
            let k = choose|k: int| 0 <= k < ints.len() && ints[k] == x;
            assert(order[k] < n);
        }
    }
    vstd::set_lib::lemma_len_subset(ints.to_set(), range);
    if forall|i: usize| i < n ==> #[trigger] order.contains(i) {
        assert(range.subset_of(ints.to_set())) by {
            assert forall|x: int| range.contains(x) implies ints.to_set().contains(x) by {
                assert(order.contains(x as usize));
                let k = choose|k: int| 0 <= k < order.len() && order[k] == x as usize;
                assert(ints[k] == x);
            }
        }
        vstd::set_lib::lemma_len_subset(range, ints.to_set());
    }
}

fn received_has(commits: &Vec<Commit>, hash: &str) -> (r: bool)
    ensures
        r == is_received(commits_view(commits@), hash@),
{
    let ghost all = commits_view(commits@);
    let mut j: usize = 0;
    while j < commits.len()
        invariant
            j <= commits.len(),
            all == commits_view(commits@),
            forall|k: int| 0 <= k < j ==> (#[trigger] all[k]).hash != hash@,
        decreases commits.len() - j,
    {
        assert(all[j as int].hash == commits@[j as int].hash@);
        if str_eq(commits[j].hash.as_str(), hash) {
            return true;
        }
        j += 1;
    }
    false
}

fn placed_has(commits: &Vec<Commit>, placed: &Vec<usize>, hash: &str) -> (r: bool)
    requires
        forall|k: int| 0 <= k < placed.len() ==> (#[trigger] placed@[k]) < commits.len(),
    ensures
        r == is_placed(commits_view(commits@), placed@, hash@),
{
    let ghost all = commits_view(commits@);
    let mut t: usize = 0;
    while t < placed.len()
        invariant
            t <= placed.len(),
            all == commits_view(commits@),
            forall|k: int| 0 <= k < placed.len() ==> (#[trigger] placed@[k]) < commits.len(),
            forall|k: int| 0 <= k < t ==> all[(#[trigger] placed@[k]) as int].hash != hash@,
        decreases placed.len() - t,
    {
        let at = placed[t];
        assert(all[at as int].hash == commits@[at as int].hash@);
        if str_eq(commits[at].hash.as_str(), hash) {
            return true;
        }
        t += 1;
    }
    false
}

fn is_ready(commits: &Vec<Commit>, placed: &Vec<usize>, i: usize) -> (r: bool)
    requires
        i < commits.len(),
        forall|k: int| 0 <= k < placed.len() ==> (#[trigger] placed@[k]) < commits.len(),
    ensures
        r == ready(commits_view(commits@), placed@, i as int),
{
    let ghost all = commits_view(commits@);
    let parents = &commits[i].parents;
    assert(all[i as int].parents == strings_view(parents@));
    let mut p: usize = 0;
    while p < parents.len()
        invariant
            p <= parents.len(),
            i < commits.len(),
            all == commits_view(commits@),
            all[i as int].parents == strings_view(parents@),
            forall|k: int| 0 <= k < placed.len() ==> (#[trigger] placed@[k]) < commits.len(),
            forall|q: int|
                0 <= q < p && is_received(all, #[trigger] all[i as int].parents[q]) ==> is_placed(
                    all,
                    placed@,
                    all[i as int].parents[q],
                ),
        decreases parents.len() - p,
    {
        assert(all[i as int].parents[p as int] == parents@[p as int]@);
        if received_has(commits, parents[p].as_str()) && !placed_has(
            commits,
            placed,
            parents[p].as_str(),
        ) {
            return false;
        }
        p += 1;
    }
    true
}

/// What holds of the places put in so far: each is a place of a commit and
/// comes once, `flags` marks just the places that were put in, and each was
/// ready after the places before it.
pub open spec fn placed_so_far(commits: Seq<CommitView>, order: Seq<usize>, flags: Seq<bool>) -> bool {
    &&& flags.len() == commits.len()
    &&& order.no_duplicates()
    &&& forall|k: int| 0 <= k < order.len() ==> (#[trigger] order[k]) < commits.len()
    &&& forall|i: int| 0 <= i < flags.len() ==> (#[trigger] flags[i] <==> order.contains(i as usize))
}

/// The order in which received commits are put into the index: parents
/// first, as far as that can be done, and the rest as they were received.
/// The second answer says how many places were settled parents first.
pub fn plan_order(commits: &Vec<Commit>) -> (r: (Vec<usize>, usize))
    ensures
        parents_first(commits_view(commits@), r.0@, r.1 as int),
{
    let ghost all = commits_view(commits@);
    let n = commits.len();
    let mut order: Vec<usize> = Vec::new();
    let mut flags: Vec<bool> = Vec::new();
    let mut f: usize = 0;
    while f < n
        invariant
            f <= n,
            flags.len() == f,
            forall|i: int| 0 <= i < f ==> !(#[trigger] flags@[i]),
        decreases n - f,
    {
        flags.push(false);
        f += 1;
    }
    let mut going = true;
    while going
        invariant
            n == commits.len(),
            all == commits_view(commits@),
            placed_so_far(all, order@, flags@),
            order.len() <= n,
            forall|k: int| 0 <= k < order.len() ==> ready(all, order@.take(k), #[trigger] order@[k] as int),
            !going ==> forall|i: int| 0 <= i < n && !(#[trigger] flags@[i]) ==> !ready(all, order@, i),
        decreases n - order.len() + (if going {
            1int
        } else {
            0int
        }),
    {
        let before = order.len();
        let ghost start = order@;
        let mut i: usize = 0;
        while i < n
            invariant
                i <= n,
                n == commits.len(),
                all == commits_view(commits@),
                placed_so_far(all, order@, flags@),
                order.len() <= n,
                before <= order.len(),
                start.len() == before,
                order@.take(before as int) == start,
                forall|k: int|
                    0 <= k < order.len() ==> ready(all, order@.take(k), #[trigger] order@[k] as int),
                order.len() == before ==> forall|j: int|
                    0 <= j < i && !(#[trigger] flags@[j]) ==> !ready(all, order@, j),
            decreases n - i,
        {
            if !flags[i] && is_ready(commits, &order, i) {
                let ghost was = order@;
                let ghost marks = flags@;
                order.push(i);
                flags.set(i, true);
                proof {
                    assert(order@.take(was.len() as int) =~= was);
                    assert(order@.take(before as int) =~= start) by {
                        assert(was.take(before as int) == start);
                    }
                    assert forall|k: int| 0 <= k < order.len() implies ready(
                        all,
                        order@.take(k),
                        #[trigger] order@[k] as int,
                    ) by {
                        if k < was.len() {
                            assert(order@.take(k) =~= was.take(k));
                            assert(order@[k] == was[k]);
                        }
                    }
                    assert(!was.contains(i));
                    assert forall|a: int, b: int|
                        0 <= a < order.len() && 0 <= b < order.len() && a != b implies order@[a]
                        != order@[b] by {
                        if a < was.len() && b < was.len() {
                            assert(order@[a] == was[a] && order@[b] == was[b]);
                        } else if a < was.len() {
                            assert(was.contains(order@[a])) by {
                                assert(was[a] == order@[a]);
                            }
                        } else {
                            assert(was.contains(order@[b])) by {
                                assert(was[b] == order@[b]);
                            }
                        }
                    }
                    assert forall|x: int| 0 <= x < flags.len() implies (#[trigger] flags@[x]
                        <==> order@.contains(x as usize)) by {
                        if x == i {
                            assert(order@[was.len() as int] == i);
                        } else {
                            assert(flags@[x] == marks[x]);
                            if was.contains(x as usize) {
                                let t = choose|t: int| 0 <= t < was.len() && was[t] == x as usize;
                                assert(order@[t] == x as usize);
                            }
                            if order@.contains(x as usize) {
                                let t = choose|t: int| 0 <= t < order.len() && order@[t] == x as usize;
                                assert(t < was.len());
                                assert(was[t] == x as usize);
                            }
                        }
                    }
                    lemma_places(order@, n as int);
                }
            }
            i += 1;
        }
        if order.len() == before {
            going = false;
        }
    }
    let settled = order.len();
    let ghost first = order@;
    let mut i: usize = 0;
    proof {
        assert(order@.take(settled as int) =~= first);
        assert forall|j: int| 0 <= j < n && !first.contains(j as usize) implies !ready(
            all,
            first,
            j,
        ) by {
            assert(!flags@[j]);
        }
    }
    while i < n
        invariant
            i <= n,
            n == commits.len(),
            all == commits_view(commits@),
            placed_so_far(all, order@, flags@),
            settled <= order.len(),
            first.len() == settled,
            order@.take(settled as int) == first,
            forall|k: int| 0 <= k < settled ==> ready(all, first.take(k), #[trigger] first[k] as int),
            forall|j: int| 0 <= j < n && !first.contains(j as usize) ==> !ready(all, first, j),
            forall|k: int| settled <= k < order.len() ==> !first.contains(#[trigger] order@[k]),
            forall|j: int| 0 <= j < i ==> #[trigger] flags@[j],
        decreases n - i,
    {
        if !flags[i] {
            let ghost was = order@;
            let ghost marks = flags@;
            order.push(i);
            flags.set(i, true);
            proof {
                assert(order@.take(was.len() as int) =~= was);
                assert(order@.take(settled as int) =~= first) by {
                    assert(was.take(settled as int) == first);
                }
                assert(!was.contains(i));
                assert(!first.contains(i)) by {
                    if first.contains(i) {
                        let t = choose|t: int| 0 <= t < first.len() && first[t] == i;
                        assert(was[t] == first[t]);
                    }
                }
                assert forall|a: int, b: int|
                    0 <= a < order.len() && 0 <= b < order.len() && a != b implies order@[a]
                    != order@[b] by {
                    if a < was.len() && b < was.len() {
                        assert(order@[a] == was[a] && order@[b] == was[b]);
                    } else if a < was.len() {
                        assert(was.contains(order@[a])) by {
                            assert(was[a] == order@[a]);
                        }
                    } else {
                        assert(was.contains(order@[b])) by {
                            assert(was[b] == order@[b]);
                        }
                    }
                }
                assert forall|x: int| 0 <= x < flags.len() implies (#[trigger] flags@[x]
                    <==> order@.contains(x as usize)) by {
                    if x == i {
                        assert(order@[was.len() as int] == i);
                    } else {
                        assert(flags@[x] == marks[x]);
                        if was.contains(x as usize) {
                            let t = choose|t: int| 0 <= t < was.len() && was[t] == x as usize;
                            assert(order@[t] == x as usize);
                        }
                        if order@.contains(x as usize) {
                            let t = choose|t: int| 0 <= t < order.len() && order@[t] == x as usize;
                            assert(t < was.len());
                            assert(was[t] == x as usize);
                        }
                    }
                }
                assert forall|k: int| settled <= k < order.len() implies !first.contains(
                    #[trigger] order@[k],
                ) by {
                    if k < was.len() {
                        assert(order@[k] == was[k]);
                    }
                }
            }
        }
        i += 1;
    }
    proof {
        assert forall|x: usize| x < n implies #[trigger] order@.contains(x) by {
            assert(flags@[x as int]);
        }
        lemma_places(order@, n as int);
        assert forall|k: int| 0 <= k < settled implies ready(
            all,
            order@.take(k),
            #[trigger] order@[k] as int,
        ) by {
            assert(order@.take(k) =~= first.take(k));
            assert(order@[k] == first[k]);
        }
        assert forall|k: int| settled <= k < order.len() implies !ready(
            all,
            order@.take(settled as int),
            #[trigger] order@[k] as int,
        ) by {
            assert(!first.contains(order@[k]));
        }
    }
    (order, settled)
}

/// Every commit of `h` is one of `cs`.
pub open spec fn within(h: Seq<CommitView>, cs: Seq<CommitView>) -> bool {
    forall|j: int| 0 <= j < h.len() ==> cs.contains(#[trigger] h[j])
}

/// Whether every one of the commits is as an index holds it: acceptable,
/// and with its files in the order of their paths.
pub open spec fn all_in_order(cs: Seq<CommitView>) -> bool {
    forall|i: int|
        0 <= i < cs.len() ==> acceptable((#[trigger] cs[i]).hash, cs[i].message, cs[i].timestamp)
            && crate::entries::sorted_by_path(cs[i].files)
}

/// Putting commits that are as an index holds them into a history made of
/// some of them adds nothing but them, and leaves out none that was offered.
pub proof fn lemma_imported_members(h: Seq<CommitView>, cs: Seq<CommitView>, order: Seq<usize>)
    requires
        newest_first(h),
        unique_hashes(h),
        within(h, cs),
        unique_hashes(cs),
        all_in_order(cs),
        forall|k: int| 0 <= k < order.len() ==> (#[trigger] order[k]) < cs.len(),
    ensures
        within(imported(h, cs, order), cs),
        forall|k: int|
            0 <= k < order.len() ==> imported(h, cs, order).contains(cs[(#[trigger] order[k]) as int]),
        forall|j: int| 0 <= j < h.len() ==> imported(h, cs, order).contains(#[trigger] h[j]),
    decreases order.len(),
{
    if order.len() > 0 {
        let at = order[0] as int;
        let c = cs[at];
        let rest = order.skip(1);
        crate::entries::lemma_normalized_of_sorted(c.files);
        assert(as_recorded(c) == c);
        let next = offered(h, c);
        lemma_recorded(h, c);
        crate::database::lemma_commit_index(h, c.hash);
        crate::database::lemma_rank(h, c.timestamp, c.hash);
        if has_commit(h, c.hash) {
            let idx = crate::database::commit_index(h, c.hash);
            assert(cs.contains(h[idx]));
            let m = choose|m: int| 0 <= m < cs.len() && cs[m] == h[idx];
            if m < at {
                assert(cs[m].hash != cs[at].hash);
            } else if at < m {
                assert(cs[at].hash != cs[m].hash);
            }
            assert(h[idx] == c);
            assert(next.contains(c));
        } else {
            let k = crate::database::rank(h, c.timestamp, c.hash);
            assert(next[k] == c);
            assert(next.contains(c));
        }
        assert(within(next, cs)) by {
            assert forall|j: int| 0 <= j < next.len() implies cs.contains(#[trigger] next[j]) by {
                if !has_commit(h, c.hash) {
                    let k = crate::database::rank(h, c.timestamp, c.hash);
                    if j < k {
                        assert(next[j] == h[j]);
                    } else if j == k {
                        assert(cs[at] == c);
                    } else {
                        assert(next[j] == h[j - 1]);
                    }
                }
            }
        }
        assert forall|j: int| 0 <= j < h.len() implies next.contains(#[trigger] h[j]) by {
            if !has_commit(h, c.hash) {
                let k = crate::database::rank(h, c.timestamp, c.hash);
                if j < k {
                    assert(next[j] == h[j]);
                } else {
                    assert(next[j + 1] == h[j]);
                }
            }
        }
        assert forall|k: int| 0 <= k < rest.len() implies (#[trigger] rest[k]) < cs.len() by {
            assert(rest[k] == order[k + 1]);
        }
        lemma_imported_members(next, cs, rest);
        let end = imported(h, cs, order);
        assert(end == imported(next, cs, rest));
        assert forall|k: int| 0 <= k < order.len() implies end.contains(
            cs[(#[trigger] order[k]) as int],
        ) by {
            if k > 0 {
                assert(rest[k - 1] == order[k]);
            } else {
                let w = choose|w: int| 0 <= w < next.len() && next[w] == c;
                assert(end.contains(next[w]));
            }
        }
        assert forall|j: int| 0 <= j < h.len() implies end.contains(#[trigger] h[j]) by {
            let w = choose|w: int| 0 <= w < next.len() && next[w] == h[j];
            assert(end.contains(next[w]));
        }
    }
}

/// A history put together from the whole history of a peer is that history,
/// record for record: where the commits are as an index holds them, stand
/// newest first and have each its own digest, and every one of them is put
/// in, the outcome is the commits themselves, in whatever order they were
/// put in.
pub proof fn lemma_imported_whole(cs: Seq<CommitView>, order: Seq<usize>)
    requires
        cs.len() <= usize::MAX,
        newest_first(cs),
        unique_hashes(cs),
        all_in_order(cs),
        forall|k: int| 0 <= k < order.len() ==> (#[trigger] order[k]) < cs.len(),
        forall|i: usize| i < cs.len() ==> #[trigger] order.contains(i),
    ensures
        imported(Seq::<CommitView>::empty(), cs, order) == cs,
{
    let none = Seq::<CommitView>::empty();
    let end = imported(none, cs, order);
    lemma_imported_members(none, cs, order);
    lemma_imported(none, cs, order);
    assert forall|i: int| 0 <= i < cs.len() implies end.contains(#[trigger] cs[i]) by {
        assert(order.contains(i as usize));
        let k = choose|k: int| 0 <= k < order.len() && order[k] == i as usize;
        assert(end.contains(cs[order[k] as int]));
    }
    crate::database::lemma_same_history(cs, end);
}

/// An answer as a mathematical value.
pub open spec fn answer_view(answer: Option<Vec<u8>>) -> Option<Seq<u8>> {
    match answer {
        Some(bytes) => Some(bytes@),
        None => None,
    }
}

/// The index of the first tip among the commits.
pub fn find_tip(commits: &Vec<Commit>) -> (r: Option<usize>)
    ensures
        match r {
            Some(i) => i == first_tip(commits_view(commits@), 0) && i < commits.len(),
            None => first_tip(commits_view(commits@), 0) == commits.len(),
        },
{
    let ghost all = commits_view(commits@);
    let mut i: usize = 0;
    while i < commits.len()
        invariant
            i <= commits.len(),
            all == commits_view(commits@),
            first_tip(all, 0) == first_tip(all, i as int),
        decreases commits.len() - i,
    {
        let mut tip = true;
        let mut j: usize = 0;
        while j < commits.len()
            invariant
                j <= commits.len(),
                i < commits.len(),
                all == commits_view(commits@),
                tip == (forall|k: int|
                    0 <= k < j ==> !(#[trigger] all[k]).parents.contains(all[i as int].hash)),
            decreases commits.len() - j,
        {
            let parents = &commits[j].parents;
            assert(strings_view(parents@).take(parents.len() as int) =~= strings_view(parents@));
            assert(all[j as int].parents == strings_view(parents@));
            assert(all[i as int].hash == commits@[i as int].hash@);
            if contains_text(parents, parents.len(), commits[i].hash.as_str()) {
                tip = false;
            }
            j += 1;
        }
        if tip {
            return Some(i);
        }
        i += 1;
    }
    None
}

impl SyncSession {
    /// Takes in the answer to the request that was sent last: the blob, or
    /// nothing where the peer does not have it.
    pub fn on_response(&mut self, answer: Option<Vec<u8>>)
        requires
            old(self).wf(),
        ensures
            final(self).wf(),
            final(self)@ == sync_after(old(self)@, answer_view(answer)),
            final(self).received() == old(self).received(),
            final(self).moves_head() == old(self).moves_head(),
            final(self).target().index() == old(self).target().index(),
            final(self).target().head_text() == old(self).target().head_text(),
            final(self).target().path() == old(self).target().path(),
    {
        let ghost before = self@;
        let ghost given: Option<Seq<u8>> = answer_view(answer);
        proof {
            lemma_sync_after(before, given);
        }
        if self.file_pos >= self.files.len() {
            return ;
        }
        let want = if self.in_chunks {
            self.chunks[self.chunk_pos].clone()
        } else {
            self.files[self.file_pos].clone()
        };
        let mut as_asked = false;
        match answer {
            Some(bytes) => {
                let digest = self.repo.receive_blob(bytes.as_slice());
                as_asked = str_eq(digest.as_str(), want.as_str());
            },
            None => {},
        }
        assert(as_asked == came_as_asked(given, want@));
        assert(self.repo.store()@ == store_after(before.store, given));
        let mut listed: Vec<String> = Vec::new();
        assert(strings_view(listed@) =~= Seq::<Seq<char>>::empty());
        if as_asked && !self.in_chunks {
            match self.repo.storage().open_chunk(want.as_str()) {
                Some(kept) => {
                    if looks_like_manifest(kept.as_slice()) {
                        match FileManifest::from_bytes(kept.as_slice()) {
                            Some(manifest) => {
                                listed = manifest.chunks;
                            },
                            None => {},
                        }
                    }
                },
                None => {},
            }
            assert(strings_view(listed@) == chunks_listed(self.repo.store()@, want@));
        }
        if !self.in_chunks {
            if !as_asked {
                let ghost f = strings_view(self.failed@);
                self.failed.push(want);
                assert(strings_view(self.failed@) =~= f.push(before.files[before.file_pos]));
                self.file_pos = self.file_pos + 1;
            } else if listed.len() > 0 {
                self.in_chunks = true;
                self.chunks = listed;
                self.chunk_pos = 0;
                self.file_ok = true;
            } else {
                let ghost k = strings_view(self.ok@);
                self.ok.push(want);
                assert(strings_view(self.ok@) =~= k.push(before.files[before.file_pos]));
                self.file_pos = self.file_pos + 1;
            }
        } else {
            let good = self.file_ok && as_asked;
            self.file_ok = good;
            if self.chunks.len() - self.chunk_pos > 1 {
                self.chunk_pos = self.chunk_pos + 1;
            } else {
                self.in_chunks = false;
                let file = self.files[self.file_pos].clone();
                if good {
                    let ghost k = strings_view(self.ok@);
                    self.ok.push(file);
                    assert(strings_view(self.ok@) =~= k.push(before.files[before.file_pos]));
                } else {
                    let ghost f = strings_view(self.failed@);
                    self.failed.push(file);
                    assert(strings_view(self.failed@) =~= f.push(before.files[before.file_pos]));
                }
                self.file_pos = self.file_pos + 1;
            }
        }
        proof {
            assert(self@ == sync_after(before, given));
            assert(self.received() == old(self).received());
            let all = all_digests(old(self).received());
            assert forall|k: int| 0 <= k < all.len() implies self@.store.contains_key(
                #[trigger] all[k],
            ) || self@.files.contains(all[k]) by {
                assert(old(self)@.store.contains_key(all[k]) || old(self)@.files.contains(all[k]));
                if before.store.contains_key(all[k]) {
                    assert(self@.store.contains_key(all[k]));
                } else {
                    assert(before.files.contains(all[k]));
                }
            }
        }
    }

    /// Ends the session: puts the received commits into the index, parents
    /// first, moves HEAD to the first tip where that was asked for, and
    /// gives the repository back with a report.
    ///
    /// The object store has whole every file that the report counts as
    /// come: its blob and, where that is a manifest, every chunk that it
    /// lists. Where every file has been dealt with and none has failed, it
    /// has whole every file that was asked for. Where moreover no commit
    /// was refused, every received commit is in the index and every file of
    /// every received commit is in the object store.
    pub fn finish(self) -> (r: (FaiProtocol, SyncReport))
        requires
            self.wf(),
        ensures
            r.0.wf(),
            r.0.store() == self.target().store(),
            r.0.path() == self.target().path(),
            parents_first(self.received(), r.1.order@, r.1.settled as int),
            r.0.index()@ == (crate::database::IndexView {
                commits: imported(self.target().index()@.commits, self.received(), r.1.order@),
                ..self.target().index()@
            }),
            r.0.head_text() == head_after(
                self.target().head_text(),
                self.received(),
                self.moves_head(),
            ),
            r.1.commits == self.received().len(),
            strings_view(r.1.refused_commits@) == refused(self.received(), r.1.order@),
            strings_view(r.1.files@) == self@.ok,
            strings_view(r.1.failed_files@) == self@.failed,
            whole(r.0.store()@, strings_view(r.1.files@)),
            sync_wants(self@) is None && r.1.failed_files.len() == 0 ==> whole(
                r.0.store()@,
                self@.files,
            ),
            sync_wants(self@) is None && r.1.failed_files.len() == 0 && r.1.refused_commits.len()
                == 0 ==> cloned(r.0, self.received()),
    {
        let SyncSession { repo, commits, files, file_pos, in_chunks, chunks, chunk_pos, file_ok, ok, failed, move_head } =
            self;
        let mut repo = repo;
        let ghost received = commits_view(commits@);
        let ghost history = repo.index()@.commits;
        let ghost start = repo;
        let (order, settled) = plan_order(&commits);
        let mut refused_commits: Vec<String> = Vec::new();
        let mut k: usize = 0;
        proof {
            assert(order@.skip(0) =~= order@);
            assert(strings_view(refused_commits@) + refused(received, order@) =~= refused(
                received,
                order@,
            ));
        }
        while k < order.len()
            invariant
                k <= order.len(),
                received == commits_view(commits@),
                parents_first(received, order@, settled as int),
                repo.wf(),
                repo.store() == start.store(),
                repo.path() == start.path(),
                repo.head_text() == start.head_text(),
                repo.index()@ == (crate::database::IndexView {
                    commits: repo.index()@.commits,
                    ..start.index()@
                }),
                imported(repo.index()@.commits, received, order@.skip(k as int)) == imported(
                    history,
                    received,
                    order@,
                ),
                strings_view(refused_commits@) + refused(received, order@.skip(k as int))
                    == refused(received, order@),
            decreases order.len() - k,
        {
            let ghost rest = order@.skip(k as int);
            let ghost done = strings_view(refused_commits@);
            let at = order[k];
            assert(rest[0] == at);
            assert(rest.skip(1) =~= order@.skip(k + 1));
            assert(received[at as int] == commits@[at as int]@);
            match repo.receive_commit(&commits[at]) {
                Ok(_) => {},
                Err(_) => {
                    refused_commits.push(commits[at].hash.clone());
                    assert(strings_view(refused_commits@) =~= done.push(received[at as int].hash));
                    assert(done.push(received[at as int].hash) + refused(
                        received,
                        order@.skip(k + 1),
                    ) =~= done + (seq![received[at as int].hash] + refused(
                        received,
                        order@.skip(k + 1),
                    )));
                },
            }
            k += 1;
        }
        proof {
            assert(order@.skip(order.len() as int) =~= Seq::<usize>::empty());
            assert(strings_view(refused_commits@) + Seq::<Seq<char>>::empty() =~= strings_view(
                refused_commits@,
            ));
            lemma_imported(history, received, order@);
        }
        if move_head {
            match find_tip(&commits) {
                Some(t) => {
                    repo.update_head(commits[t].hash.as_str());
                },
                None => {},
            }
        }
        let report = SyncReport {
            commits: commits.len(),
            order,
            settled,
            refused_commits,
            files: ok,
            failed_files: failed,
        };
        proof {
            if sync_wants(self@) is None {
                assert(self@.files.take(self@.file_pos) =~= self@.files);
            }
            if sync_wants(self@) is None && report.failed_files.len() == 0
                && report.refused_commits.len() == 0 {
                let all = all_digests(received);
                assert forall|k: int| 0 <= k < all.len() implies repo.store()@.contains_key(
                    #[trigger] all[k],
                ) by {
                    if !self@.store.contains_key(all[k]) {
                        assert(self@.files.contains(all[k]));
                        let w = choose|w: int| 0 <= w < self@.files.len() && self@.files[w] == all[k];
                        assert(serves_whole(self@.store, self@.files[w]));
                    }
                }
                assert forall|i: int| 0 <= i < received.len() implies has_commit(
                    repo.index()@.commits,
                    (#[trigger] received[i]).hash,
                ) by {
                    assert(report.order@.contains(i as usize));
                    let t = choose|t: int| 0 <= t < report.order@.len() && report.order@[t] == i as usize;
                    assert(received[report.order@[t] as int] == received[i]);
                }
            }
        }
        (repo, report)
    }
}

/// The repository holds the commits whole: every one of them is in its
/// index, and every file of every one of them is in its object store.
pub open spec fn cloned(repo: FaiProtocol, commits: Seq<CommitView>) -> bool {
    &&& forall|i: int|
        0 <= i < commits.len() ==> has_commit(repo.index()@.commits, (#[trigger] commits[i]).hash)
    &&& forall|k: int|
        0 <= k < all_digests(commits).len() ==> repo.store()@.contains_key(
            #[trigger] all_digests(commits)[k],
        )
}

/// Of a repository that holds commits whole, the object store has every
/// file of every one of the commits.
pub proof fn lemma_cloned_has_every_file(repo: FaiProtocol, commits: Seq<CommitView>, i: int, j: int)
    requires
        cloned(repo, commits),
        0 <= i < commits.len(),
        0 <= j < commits[i].files.len(),
    ensures
        has_commit(repo.index()@.commits, commits[i].hash),
        repo.store()@.contains_key(commits[i].files[j].1),
{
    lemma_all_digests(commits, i, j);
    let all = all_digests(commits);
    let k = choose|k: int| 0 <= k < all.len() && all[k] == commits[i].files[j].1;
    assert(repo.store()@.contains_key(all[k]));
}

fn run_transfer(peer: &StorageManager, session: SyncSession) -> (done: SyncSession)
    requires
        peer.wf(),
        session.wf(),
    ensures
        done.wf(),
        done@ == transferred(peer@, session@),
        sync_wants(done@) is None,
        done.received() == session.received(),
        done.moves_head() == session.moves_head(),
        done.target().index() == session.target().index(),
        done.target().head_text() == session.target().head_text(),
        done.target().path() == session.target().path(),
{
    let mut session = session;
    let ghost start = session;
    loop
        invariant
            peer.wf(),
            session.wf(),
            transferred(peer@, session@) == transferred(peer@, start@),
            session.received() == start.received(),
            session.moves_head() == start.moves_head(),
            session.target().index() == start.target().index(),
            session.target().head_text() == start.target().head_text(),
            session.target().path() == start.target().path(),
        ensures
            sync_wants(session@) is None,
        decreases files_left(session@), blob_left(session@), chunks_left(session@),
    {
        let request = match session.next_request() {
            Some(request) => request,
            None => {
                break ;
            },
        };
        let answer = answer_chunk_request(peer, &request);
        session.on_response(answer.data);
    }
    session
}

/// Clones the repository of a peer that is at hand into a fresh repository
/// kept at `path`: asks the peer for all its commits and for every file of
/// them, puts the commits into the index and moves HEAD to the tip.
///
/// A peer without commits cannot be cloned. No commit of a peer is refused,
/// and the history of the clone is that of the peer, record for record.
/// Where the peer can give out every file of its commits whole, no file
/// fails; and where no file has failed, every commit of the peer is in the
/// index of the clone, and the object store of the clone has every file of
/// every such commit whole: its blob and, where that is a manifest, every
/// chunk that it lists.
pub fn clone_from(peer: &NetworkManager, path: &str) -> (r: Result<(FaiProtocol, SyncReport), FaiError>)
    requires
        peer.wf(),
    ensures
        match r {
            Ok((repo, report)) => {
                &&& repo.wf()
                &&& repo.path() == path@
                &&& peer@.index.commits.len() > 0
                &&& parents_first(peer@.index.commits, report.order@, report.settled as int)
                &&& repo.index()@.commits == peer@.index.commits
                &&& report.commits == peer@.index.commits.len()
                &&& report.refused_commits.len() == 0
                &&& ({
                    let end = transferred(
                        peer@.store,
                        begun(Map::<Seq<char>, Seq<u8>>::empty(), peer@.index.commits),
                    );
                    &&& repo.store()@ == end.store
                    &&& strings_view(report.files@) == end.ok
                    &&& strings_view(report.failed_files@) == end.failed
                })
                &&& repo.head_text() == head_after(
                    crate::repository::initial_head(),
                    peer@.index.commits,
                    true,
                )
                &&& (forall|k: int|
                    0 <= k < all_digests(peer@.index.commits).len() ==> serves_whole(
                        peer@.store,
                        #[trigger] all_digests(peer@.index.commits)[k],
                    )) ==> report.failed_files.len() == 0
                &&& whole(repo.store()@, strings_view(report.files@))
                &&& report.failed_files.len() == 0 ==> cloned(repo, peer@.index.commits) && whole(
                    repo.store()@,
                    all_digests(peer@.index.commits),
                )
            },
            Err(e) => e == FaiError::NotFound && peer@.index.commits.len() == 0,
        },
{
    let repo = FaiProtocol::new_at(path);
    let response = answer_commit_request(peer.database(), &CommitRequest { commit_hash: None });
    assert(repo.index()@.commits =~= Seq::<CommitView>::empty());
    let session = match SyncSession::start_clone(repo, response.commits) {
        Ok(session) => session,
        Err(e) => {
            return Err(e);
        },
    };
    let ghost commits = peer@.index.commits;
    let ghost first = session@;
    let done = run_transfer(peer.storage(), session);
    let (repo, report) = done.finish();
    proof {
        peer.lemma_wf();
        lemma_none_refused(commits, report.order@);
        lemma_imported_whole(commits, report.order@);
        lemma_transferred_whole(peer@.store, first);
        let all = all_digests(commits);
        if report.failed_files.len() == 0 {
            lemma_needed(Map::<Seq<char>, Seq<u8>>::empty(), all);
            assert forall|k: int| 0 <= k < all.len() implies serves_whole(
                repo.store()@,
                #[trigger] all[k],
            ) by {
                assert(first.files.contains(all[k]));
                let w = choose|w: int| 0 <= w < first.files.len() && first.files[w] == all[k];
                assert(serves_whole(repo.store()@, first.files[w]));
            }
        }
        if forall|k: int| 0 <= k < all.len() ==> serves_whole(peer@.store, #[trigger] all[k]) {
            lemma_needed_within(Map::<Seq<char>, Seq<u8>>::empty(), all);
            assert forall|i: int| 0 <= i < first.files.len() implies serves_whole(
                peer@.store,
                #[trigger] first.files[i],
            ) by {
                let w = choose|w: int| 0 <= w < all.len() && all[w] == first.files[i];
                assert(serves_whole(peer@.store, all[w]));
            }
            lemma_transfer_completes(peer@.store, first);
        }
    }
    Ok((repo, report))
}

/// The digest of the commit that is asked for, if one is.
pub open spec fn wanted_view(commit_hash: Option<&str>) -> Option<Seq<char>> {
    match commit_hash {
        Some(hash) => Some(hash@),
        None => None,
    }
}

/// Pulls from a peer that is at hand into `repo`: asks the peer for the
/// commit `commit_hash`, or for all its commits where none is named, and
/// for every file of them that the repository does not have, and puts the
/// commits into the index. HEAD stays where it is.
///
/// No commit of a peer is refused. Where the peer can give out every file
/// of the commits whole, and holds the same blob as the repository under
/// every digest that both have, no file fails. The object store has whole
/// every file that the report counts as come; and where no file has failed,
/// every one of the commits is in the index, every file of every one of
/// them is in the object store, and each of them that was not there before
/// is there whole.
pub fn pull_from(peer: &NetworkManager, repo: FaiProtocol, commit_hash: Option<&str>) -> (r: (
    FaiProtocol,
    SyncReport,
))
    requires
        peer.wf(),
        repo.wf(),
    ensures
        r.0.wf(),
        r.0.path() == repo.path(),
        r.0.head_text() == repo.head_text(),
        ({
            let commits = commits_answer(peer@.index.commits, wanted_view(commit_hash));
            &&& parents_first(commits, r.1.order@, r.1.settled as int)
            &&& r.0.index()@ == (crate::database::IndexView {
                commits: imported(repo.index()@.commits, commits, r.1.order@),
                ..repo.index()@
            })
            &&& r.1.commits == commits.len()
            &&& r.1.refused_commits.len() == 0
            &&& ({
                let end = transferred(peer@.store, begun(repo.store()@, commits));
                &&& r.0.store()@ == end.store
                &&& strings_view(r.1.files@) == end.ok
                &&& strings_view(r.1.failed_files@) == end.failed
            })
            &&& agree(repo.store()@, peer@.store) && (forall|k: int|
                0 <= k < all_digests(commits).len() ==> serves_whole(
                    peer@.store,
                    #[trigger] all_digests(commits)[k],
                )) ==> r.1.failed_files.len() == 0
            &&& whole(r.0.store()@, strings_view(r.1.files@))
            &&& r.1.failed_files.len() == 0 ==> cloned(r.0, commits) && whole(
                r.0.store()@,
                needed(repo.store()@, all_digests(commits)),
            )
        }),
{
    let request = CommitRequest {
        commit_hash: match commit_hash {
            Some(hash) => Some(hash.to_owned()),
            None => None,
        },
    };
    let response = answer_commit_request(peer.database(), &request);
    let ghost commits = commits_view(response.commits@);
    assert(commits == commits_answer(peer@.index.commits, wanted_view(commit_hash)));
    let session = SyncSession::start_pull(repo, response.commits);
    let ghost first = session@;
    let done = run_transfer(peer.storage(), session);
    let (repo2, report) = done.finish();
    proof {
        peer.lemma_wf();
        match commit_hash {
            Some(hash) => {
                crate::database::lemma_commit_index(peer@.index.commits, hash@);
            },
            None => {},
        }
        lemma_none_refused(commits, report.order@);
        lemma_transferred_whole(peer@.store, first);
        let all = all_digests(commits);
        if agree(repo.store()@, peer@.store) && forall|k: int|
            0 <= k < all.len() ==> serves_whole(peer@.store, #[trigger] all[k]) {
            lemma_needed_within(repo.store()@, all);
            assert forall|i: int| 0 <= i < first.files.len() implies serves_whole(
                peer@.store,
                #[trigger] first.files[i],
            ) by {
                let w = choose|w: int| 0 <= w < all.len() && all[w] == first.files[i];
                assert(serves_whole(peer@.store, all[w]));
            }
            lemma_transfer_completes(peer@.store, first);
        }
        let end = transferred(peer@.store, begun(repo.store()@, commits));
        assert(first == begun(repo.store()@, commits));
        assert(repo2.store()@ == end.store);
        assert(strings_view(report.files@) == end.ok);
        assert(strings_view(report.failed_files@) == end.failed);
        assert(report.refused_commits.len() == 0);
        assert(report.failed_files.len() == 0 ==> cloned(repo2, commits));
        assert(parents_first(commits, report.order@, report.settled as int));
    }
    (repo2, report)
}

} // verus!
