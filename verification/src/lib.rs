//! Content-addressed version control for large binary artifacts.
//!
//! The crate keeps an object store of immutable blobs with transparent
//! chunking, a metadata index of commits and staged files, the repository
//! operations on top of both, and the decisions of the peer-to-peer sync
//! protocol. Everything here is pure state and computation, stated and proved
//! with Verus; reading files, talking to a database and driving the network
//! are left to the program that uses the crate.
//!
//! - [`digest`]: BLAKE3 digests in hexadecimal.
//! - [`storage`]: the object store, with chunking and manifests.
//! - [`manifest`] and [`scan`]: the text of a manifest, written and read.
//! - [`database`] and [`entries`]: the metadata index.
//! - [`repository`]: HEAD, the digest of a commit, the comparison of commits.
//! - [`FaiProtocol`]: the repository itself.
//! - [`network`]: the state of a node and what it does on each event.
//! - [`sync`]: fetch, clone and pull as sessions of requests and answers.
//! - [`services`]: branches, the command line, the security stub.
//!
//! What is taken on trust is the BLAKE3 hash itself, the check that bytes are
//! UTF-8, and the source of random bytes. Everything else is proved.

pub mod database;
pub mod digest;
pub mod entries;
pub mod error;
pub mod manifest;
pub mod network;
pub mod repository;
pub mod scan;
pub mod services;
pub mod storage;
pub mod sync;
pub mod text;

use crate::database::{
    acceptable, branch_of_ref, commits_view, files_of, has_commit, is_blank_text, lemma_recorded,
    recorded, CommitView, IndexView,
};
use crate::entries::{files_view, lemma_normalized_of_sorted, upsert, FileView};
use crate::manifest::strings_view;
use crate::repository::{
    commit_digest, diff_files, hash_commit, head_commit, initial_head, is_diff_of, read_head,
    resolve_in, resolved, DiffResult,
};
use crate::storage::{lemma_store_idempotent, retrieved, store_digest, stored, Objects, StoreError};
use vstd::prelude::*;

pub use crate::database::{Commit, DatabaseManager};
pub use crate::error::FaiError;
pub use crate::storage::StorageManager;

verus! {

/// A commit as the log shows it.
#[derive(Debug, Clone)]
pub struct CommitInfo {
    /// The digest of the commit.
    pub hash: String,
    /// The message.
    pub message: String,
    /// When the commit was made, in milliseconds since the Unix epoch.
    pub timestamp: i64,
    /// The digests of the parents, first parent first.
    pub parents: Vec<String>,
    /// Whether the commit is a merge.
    pub is_merge: bool,
}

/// Whether an entry of the log shows the commit `c`.
pub open spec fn shows(info: CommitInfo, c: CommitView) -> bool {
    &&& info.hash@ == c.hash
    &&& info.message@ == c.message
    &&& info.timestamp == c.timestamp
    &&& strings_view(info.parents@) == c.parents
    &&& info.is_merge == c.is_merge
}

/// A repository: an object store, a metadata index, and HEAD.
pub struct FaiProtocol {
    storage: StorageManager,
    database: DatabaseManager,
    fai_path: String,
    head: String,
}

impl FaiProtocol {
    /// The object store of the repository.
    pub closed spec fn store(&self) -> StorageManager {
        self.storage
    }

    /// The metadata index of the repository.
    pub closed spec fn index(&self) -> DatabaseManager {
        self.database
    }

    /// The text of HEAD.
    pub closed spec fn head_text(&self) -> Seq<char> {
        self.head@
    }

    /// Where the repository is kept.
    pub closed spec fn path(&self) -> Seq<char> {
        self.fai_path@
    }

    /// The invariant of the repository: that of its store and of its index.
    pub open spec fn wf(&self) -> bool {
        self.store().wf() && self.index().wf()
    }

    /// The commit that HEAD names, if it names one.
    pub open spec fn head(&self) -> Option<Seq<char>> {
        head_commit(self.head_text())
    }

    /// Whether `other` differs from this repository in nothing but the
    /// staging area, the commits and HEAD.
    pub open spec fn same_but_history(&self, other: FaiProtocol) -> bool {
        &&& other.store() == self.store()
        &&& other.path() == self.path()
        &&& other.index()@.branches == self.index()@.branches
        &&& other.index()@.current_ref == self.index()@.current_ref
    }

    /// A fresh repository kept at `.fai`: nothing stored, nothing staged, no
    /// commit, and HEAD at the branch `main`.
    pub fn new() -> (repo: FaiProtocol)
        ensures
            repo.wf(),
            repo.path() == ".fai"@,
            repo.store()@ == Map::<Seq<char>, Seq<u8>>::empty(),
            repo.index()@.staging.len() == 0,
            repo.index()@.commits.len() == 0,
            repo.index()@.branches.len() == 0,
            repo.index()@.current_ref == crate::database::default_ref(),
            repo.head_text() == initial_head(),
    {
        FaiProtocol::new_at(".fai")
    }

    /// A fresh repository kept at `path`.
    pub fn new_at(path: &str) -> (repo: FaiProtocol)
        ensures
            repo.wf(),
            repo.path() == path@,
            repo.store()@ == Map::<Seq<char>, Seq<u8>>::empty(),
            repo.index()@.staging.len() == 0,
            repo.index()@.commits.len() == 0,
            repo.index()@.branches.len() == 0,
            repo.index()@.current_ref == crate::database::default_ref(),
            repo.head_text() == initial_head(),
    {
        FaiProtocol {
            storage: StorageManager::new(),
            database: DatabaseManager::new(),
            fai_path: path.to_owned(),
            head: "ref: refs/heads/main".to_owned(),
        }
    }

    /// The repository kept at `path` that is made of the given store, index
    /// and text of HEAD.
    pub fn from_parts(
        path: &str,
        storage: StorageManager,
        database: DatabaseManager,
        head: &str,
    ) -> (repo: FaiProtocol)
        requires
            storage.wf(),
            database.wf(),
        ensures
            repo.wf(),
            repo.path() == path@,
            repo.store() == storage,
            repo.index() == database,
            repo.head_text() == head@,
    {
        FaiProtocol { storage, database, fai_path: path.to_owned(), head: head.to_owned() }
    }

    /// Where the repository is kept.
    pub fn fai_path(&self) -> (path: &str)
        ensures
            path@ == self.path(),
    {
        self.fai_path.as_str()
    }

    /// The text of HEAD, as it is written to disk.
    pub fn head_file(&self) -> (text: &str)
        ensures
            text@ == self.head_text(),
    {
        self.head.as_str()
    }

    /// Stages the file at `file_path`, whose bytes are `content`: stores the
    /// bytes and records path, digest and size in the staging area. A file
    /// that is not there, `None`, is reported as `NotFound`.
    pub fn add_file(&mut self, file_path: &str, content: Option<&[u8]>) -> (r: Result<
        String,
        FaiError,
    >)
        requires
            old(self).wf(),
        ensures
            final(self).wf(),
            final(self).path() == old(self).path(),
            final(self).head_text() == old(self).head_text(),
            match content {
                Some(bytes) => r matches Ok(digest) && digest@ == store_digest(bytes@)
                    && final(self).store()@ == stored(old(self).store()@, bytes@)
                    && final(self).store()@.contains_key(digest@) && final(self).index()@
                    == (IndexView {
                    staging: upsert(
                        old(self).index()@.staging,
                        (file_path@, digest@, bytes@.len() as u64),
                    ),
                    ..old(self).index()@
                }),
                None => r == Err::<String, FaiError>(FaiError::NotFound) && final(self).store()
                    == old(self).store() && final(self).index() == old(self).index(),
            },
    {
        let bytes = match content {
            Some(bytes) => bytes,
            None => {
                return Err(FaiError::NotFound);
            },
        };
        let digest = self.storage.store(bytes);
        proof {
            lemma_store_idempotent(old(self).store()@, bytes@);
        }
        self.database.add_to_staging(file_path, digest.as_str(), bytes.len() as u64);
        Ok(digest)
    }

    /// The bytes that were stored under `hash`, with the failures of the
    /// object store told as the repository tells them.
    pub fn retrieve(&self, hash: &str) -> (r: Result<Vec<u8>, FaiError>)
        requires
            self.wf(),
        ensures
            match retrieved(self.store()@, hash@) {
                Ok(bytes) => r matches Ok(v) && v@ == bytes,
                Err(e) => r matches Err(e2) && e2 == classified(e),
            },
    {
        match self.storage.retrieve(hash) {
            Ok(bytes) => Ok(bytes),
            Err(e) => Err(classify(e)),
        }
    }

    /// The staged files, in the order of their paths.
    pub fn get_status(&self) -> (files: Vec<(String, String, u64)>)
        requires
            self.wf(),
        ensures
            files_view(files@) == self.index()@.staging,
    {
        self.database.get_staged_files()
    }

    /// The object store.
    pub fn storage(&self) -> (store: &StorageManager)
        ensures
            *store == self.store(),
    {
        &self.storage
    }

    /// The metadata index.
    pub fn database(&self) -> (index: &DatabaseManager)
        ensures
            *index == self.index(),
    {
        &self.database
    }

    /// Makes a commit of the staged files at the time `timestamp`, with the
    /// commit that HEAD names as its parent, and gives its digest. HEAD
    /// then names the new commit and the staging area is empty.
    ///
    /// With nothing staged the answer is `Empty`; with a blank message or a
    /// negative time it is `Invalid`; where the object store lacks the blob
    /// of a staged file it is `NotFound`. The repository is then as it was.
    pub fn commit(&mut self, message: &str, timestamp: i64) -> (r: Result<String, FaiError>)
        requires
            old(self).wf(),
        ensures
            final(self).wf(),
            old(self).same_but_history(*final(self)),
            match commit_refusal(
                old(self).store()@,
                old(self).index()@.staging,
                message@,
                timestamp,
            ) {
                Some(e) => {
                    &&& r matches Err(e2) && e2 == e
                    &&& final(self).index() == old(self).index()
                    &&& final(self).head_text() == old(self).head_text()
                },
                None => {
                    let staged = old(self).index()@.staging;
                    let parents = parents_of(old(self).head());
                    &&& r matches Ok(digest) && digest@ == commit_digest(
                        timestamp,
                        message@,
                        parents,
                        staged,
                    ) && final(self).head_text() == digest@ && final(self).head() == Some(
                        digest@,
                    ) && final(self).index()@.commits == recorded(
                        old(self).index()@.commits,
                        CommitView {
                            hash: digest@,
                            message: message@,
                            timestamp,
                            parents,
                            is_merge: false,
                            files: staged,
                        },
                    ) && has_commit(final(self).index()@.commits, digest@) && (!has_commit(
                        old(self).index()@.commits,
                        digest@,
                    ) ==> files_of(final(self).index()@.commits, digest@) == staged)
                    &&& final(self).index()@.staging == Seq::<FileView>::empty()
                },
            },
    {
        let staged = self.database.get_staged_files();
        if staged.len() == 0 {
            return Err(FaiError::Empty);
        }
        if timestamp < 0 || is_blank_text(message) {
            return Err(FaiError::Invalid);
        }
        if !self.has_all(&staged) {
            return Err(FaiError::NotFound);
        }
        let parents: Vec<String> = match read_head(self.head.as_str()) {
            Some(parent) => vec![parent],
            None => Vec::new(),
        };
        assert(strings_view(parents@) =~= parents_of(old(self).head()));
        let digest = hash_commit(timestamp, message, &parents, &staged);
        proof {
            crate::repository::lemma_head_of_digest(digest@);
            lemma_normalized_of_sorted(files_view(staged@));
            lemma_recorded(
                self.index()@.commits,
                CommitView {
                    hash: digest@,
                    message: message@,
                    timestamp,
                    parents: strings_view(parents@),
                    is_merge: false,
                    files: files_view(staged@),
                },
            );
        }
        match self.database.create_commit(
            digest.as_str(),
            message,
            timestamp,
            &parents,
            &staged,
            false,
        ) {
            Ok(_) => {},
            Err(e) => {
                return Err(e);
            },
        }
        self.head = digest.clone();
        self.database.clear_staging();
        Ok(digest)
    }

    fn has_all(&self, files: &Vec<(String, String, u64)>) -> (r: bool)
        requires
            self.wf(),
        ensures
            r == all_stored(self.store()@, files_view(files@)),
    {
        let mut i: usize = 0;
        while i < files.len()
            invariant
                i <= files.len(),
                self.wf(),
                forall|k: int|
                    0 <= k < i ==> self.store()@.contains_key((#[trigger] files_view(files@)[k]).1),
            decreases files.len() - i,
        {
            assert(files_view(files@)[i as int].1 == files@[i as int].1@);
            if !self.storage.has_object(files[i].1.as_str()) {
                return false;
            }
            i += 1;
        }
        true
    }

    /// Makes the newest commit anew at the time `timestamp`: with `message`,
    /// or with the message it had where none is given; with the staged
    /// files, or with the files it had where nothing is staged; and with
    /// the parents it had. The new commit is recorded beside the old one,
    /// the branch that is checked out is moved to it where the index knows
    /// that branch, HEAD names it, and the staging area is empty.
    ///
    /// Without a commit, and where no branch is checked out, the answer is
    /// `NotFound`; with a blank message or a negative time it is `Invalid`.
    /// The repository is then as it was.
    pub fn amend(&mut self, message: Option<&str>, timestamp: i64) -> (r: Result<String, FaiError>)
        requires
            old(self).wf(),
        ensures
            final(self).wf(),
            final(self).store() == old(self).store(),
            final(self).path() == old(self).path(),
            match amended(
                old(self).index()@,
                match message {
                    Some(m) => Some(m@),
                    None => None,
                },
                timestamp,
            ) {
                Ok(c) => r matches Ok(digest) && digest@ == c.hash && final(self).head_text()
                    == c.hash && final(self).index()@ == (IndexView {
                    staging: Seq::<FileView>::empty(),
                    commits: recorded(old(self).index()@.commits, c),
                    branches: moved(
                        old(self).index()@.branches,
                        branch_of_ref(old(self).index()@.current_ref)->0,
                        c.hash,
                    ),
                    ..old(self).index()@
                }),
                Err(e) => r matches Err(e2) && e2 == e && final(self).index() == old(self).index()
                    && final(self).head_text() == old(self).head_text(),
            },
    {
        let head = match self.database.get_head_commit() {
            Some(head) => head,
            None => {
                return Err(FaiError::NotFound);
            },
        };
        proof {
            crate::database::lemma_unique_lookup(self.index()@.commits, 0);
        }
        let last = match self.database.get_commit(head.as_str()) {
            Some(last) => last,
            None => {
                return Err(FaiError::NotFound);
            },
        };
        let branch = match self.database.get_current_branch() {
            Ok(branch) => branch,
            Err(e) => {
                return Err(e);
            },
        };
        let text: String = match message {
            Some(m) => m.to_owned(),
            None => last.message.clone(),
        };
        if timestamp < 0 || is_blank_text(text.as_str()) {
            return Err(FaiError::Invalid);
        }
        let staged = self.database.get_staged_files();
        let files = if staged.len() > 0 {
            staged
        } else {
            crate::entries::clone_entries(&last.files)
        };
        let digest = crate::repository::hash_amended(
            text.as_str(),
            branch.as_str(),
            &files,
            &last.parents,
        );
        proof {
            lemma_normalized_of_sorted(files_view(files@));
        }
        match self.database.create_commit(
            digest.as_str(),
            text.as_str(),
            timestamp,
            &last.parents,
            &files,
            last.is_merge,
        ) {
            Ok(_) => {},
            Err(e) => {
                return Err(e);
            },
        }
        match self.database.update_branch_head(branch.as_str(), digest.as_str()) {
            Ok(_) => {},
            Err(_) => {},
        }
        self.head = digest.clone();
        self.database.clear_staging();
        Ok(digest)
    }

    /// Takes in a blob that came from a peer: writes it under its own
    /// digest as it is, and gives the digest.
    pub fn receive_blob(&mut self, data: &[u8]) -> (digest: String)
        requires
            old(self).wf(),
        ensures
            final(self).wf(),
            digest@ == crate::digest::digest_of(data@),
            final(self).store()@ == crate::storage::put(old(self).store()@, data@),
            final(self).index() == old(self).index(),
            final(self).head_text() == old(self).head_text(),
            final(self).path() == old(self).path(),
    {
        self.storage.store_raw(data)
    }

    /// Takes in a commit that came from a peer: records it with its time,
    /// its parents and its files. A commit that is not acceptable is refused
    /// as `Invalid`, and the repository stays as it was.
    pub fn receive_commit(&mut self, commit: &Commit) -> (r: Result<(), FaiError>)
        requires
            old(self).wf(),
        ensures
            final(self).wf(),
            final(self).store() == old(self).store(),
            final(self).head_text() == old(self).head_text(),
            final(self).path() == old(self).path(),
            match r {
                Ok(_) => acceptable(commit@.hash, commit@.message, commit@.timestamp)
                    && final(self).index()@ == (IndexView {
                    commits: recorded(
                        old(self).index()@.commits,
                        CommitView { files: crate::entries::normalized(commit@.files), ..commit@ },
                    ),
                    ..old(self).index()@
                }),
                Err(e) => e == FaiError::Invalid && !acceptable(
                    commit@.hash,
                    commit@.message,
                    commit@.timestamp,
                ) && final(self).index()@ == old(self).index()@,
            },
    {
        self.database.create_commit(
            commit.hash.as_str(),
            commit.message.as_str(),
            commit.timestamp,
            &commit.parents,
            &commit.files,
            commit.is_merge,
        )
    }

    /// The history as the log shows it, newest first.
    pub fn get_log(&self) -> (log: Vec<CommitInfo>)
        requires
            self.wf(),
        ensures
            log.len() == self.index()@.commits.len(),
            forall|i: int| 0 <= i < log.len() ==> shows(#[trigger] log@[i], self.index()@.commits[i]),
    {
        let commits = self.database.get_commit_history(None);
        let mut log: Vec<CommitInfo> = Vec::new();
        let mut i: usize = 0;
        while i < commits.len()
            invariant
                i <= commits.len(),
                log.len() == i,
                commits_view(commits@) == self.index()@.commits,
                forall|k: int| 0 <= k < i ==> shows(#[trigger] log@[k], commits@[k]@),
            decreases commits.len() - i,
        {
            let c = &commits[i];
            log.push(
                CommitInfo {
                    hash: c.hash.clone(),
                    message: c.message.clone(),
                    timestamp: c.timestamp,
                    parents: crate::database::clone_strings(&c.parents),
                    is_merge: c.is_merge,
                },
            );
            i += 1;
        }
        assert forall|i: int| 0 <= i < log.len() implies shows(
            #[trigger] log@[i],
            self.index()@.commits[i],
        ) by {
            assert(commits_view(commits@)[i] == commits@[i]@);
        }
        log
    }

    /// The commit that HEAD names, if it names one.
    pub fn get_head_commit(&self) -> (r: Option<String>)
        ensures
            match self.head() {
                Some(hash) => r matches Some(found) && found@ == hash,
                None => r is None,
            },
    {
        read_head(self.head.as_str())
    }

    /// Lets HEAD name the commit `commit_hash`.
    pub fn update_head(&mut self, commit_hash: &str)
        ensures
            final(self).head_text() == commit_hash@,
            final(self).store() == old(self).store(),
            final(self).index() == old(self).index(),
            final(self).path() == old(self).path(),
    {
        self.head = commit_hash.to_owned();
    }

    /// All commits, newest first.
    pub fn get_all_commits(&self) -> (commits: Vec<Commit>)
        requires
            self.wf(),
        ensures
            commits_view(commits@) == self.index()@.commits,
    {
        self.database.get_all_commits()
    }

    /// The files of the commit `commit_hash`, in the order of their paths.
    pub fn get_commit_files(&self, commit_hash: &str) -> (files: Vec<(String, String, u64)>)
        requires
            self.wf(),
        ensures
            files_view(files@) == files_of(self.index()@.commits, commit_hash@),
    {
        self.database.get_commit_files(commit_hash)
    }

    /// The commit that `name` stands for: the one with that digest, or the
    /// only one whose digest begins with it.
    pub fn resolve(&self, name: &str) -> (r: Result<Commit, FaiError>)
        requires
            self.wf(),
        ensures
            match resolved(self.index()@.commits, name@) {
                Ok(c) => r matches Ok(found) && found@ == c,
                Err(e) => r matches Err(e2) && e2 == e,
            },
    {
        let commits = self.database.get_all_commits();
        resolve_in(&commits, name)
    }

    /// Compares the commits that `hash1` and `hash2` stand for, by the
    /// digests of their files.
    pub fn diff(&self, hash1: &str, hash2: &str) -> (r: Result<DiffResult, FaiError>)
        requires
            self.wf(),
        ensures
            match resolved(self.index()@.commits, hash1@) {
                Ok(a) => match resolved(self.index()@.commits, hash2@) {
                    Ok(b) => r matches Ok(d) && is_diff_of(d, self.store()@, a.files, b.files),
                    Err(e) => r matches Err(e2) && e2 == e,
                },
                Err(e) => r matches Err(e2) && e2 == e,
            },
    {
        let a = match self.resolve(hash1) {
            Ok(c) => c,
            Err(e) => {
                return Err(e);
            },
        };
        let b = match self.resolve(hash2) {
            Ok(c) => c,
            Err(e) => {
                return Err(e);
            },
        };
        Ok(diff_files(&self.storage, &a.files, &b.files))
    }
}

/// How a failure of the object store is told to the user: a digest that is
/// too short and a blob that cannot be read are `Invalid`, a blob that is
/// not there is `NotFound`.
pub open spec fn classified(e: StoreError) -> FaiError {
    match e {
        StoreError::InvalidDigest => FaiError::Invalid,
        StoreError::NotFound => FaiError::NotFound,
        StoreError::Corrupt => FaiError::Invalid,
    }
}

/// How a failure of the object store is told to the user.
pub fn classify(e: StoreError) -> (r: FaiError)
    ensures
        r == classified(e),
{
    match e {
        StoreError::InvalidDigest => FaiError::Invalid,
        StoreError::NotFound => FaiError::NotFound,
        StoreError::Corrupt => FaiError::Invalid,
    }
}

/// The branches with the head of the branch `name` moved to `head`, where
/// there is such a branch.
pub open spec fn moved(
    branches: Seq<(Seq<char>, Seq<char>)>,
    name: Seq<char>,
    head: Seq<char>,
) -> Seq<(Seq<char>, Seq<char>)> {
    if crate::database::has_branch(branches, name) {
        branches.update(crate::database::branch_index(branches, name), (name, head))
    } else {
        branches
    }
}

/// The commit that `amend` makes in an index, or why it makes none.
pub open spec fn amended(v: IndexView, message: Option<Seq<char>>, timestamp: i64) -> Result<
    CommitView,
    FaiError,
> {
    if v.commits.len() == 0 {
        Err(FaiError::NotFound)
    } else if branch_of_ref(v.current_ref) is None {
        Err(FaiError::NotFound)
    } else {
        let last = v.commits[0];
        let text = match message {
            Some(m) => m,
            None => last.message,
        };
        let files = if v.staging.len() > 0 {
            v.staging
        } else {
            last.files
        };
        if timestamp < 0 || crate::database::is_blank(text) {
            Err(FaiError::Invalid)
        } else {
            Ok(
                CommitView {
                    hash: crate::repository::amend_digest(
                        text,
                        branch_of_ref(v.current_ref)->0,
                        files,
                        last.parents,
                    ),
                    message: text,
                    timestamp,
                    parents: last.parents,
                    is_merge: last.is_merge,
                    files,
                },
            )
        }
    }
}

/// Whether the store has the blob of every one of the files.
pub open spec fn all_stored(m: Objects, files: Seq<FileView>) -> bool {
    forall|i: int| 0 <= i < files.len() ==> m.contains_key((#[trigger] files[i]).1)
}

/// Why a commit is refused, where it is: `Empty` with nothing staged, else
/// `Invalid` with a blank message or a negative time, else `NotFound` where
/// the store lacks the blob of a staged file.
pub open spec fn commit_refusal(
    m: Objects,
    staged: Seq<FileView>,
    message: Seq<char>,
    timestamp: i64,
) -> Option<FaiError> {
    if staged.len() == 0 {
        Some(FaiError::Empty)
    } else if timestamp < 0 || crate::database::is_blank(message) {
        Some(FaiError::Invalid)
    } else if !all_stored(m, staged) {
        Some(FaiError::NotFound)
    } else {
        None
    }
}

/// The parents of a new commit: the commit that HEAD names, if it names
/// one.
pub open spec fn parents_of(head: Option<Seq<char>>) -> Seq<Seq<char>> {
    match head {
        Some(parent) => seq![parent],
        None => Seq::<Seq<char>>::empty(),
    }
}

} // verus!
