//! The metadata index: the staging area, the commits with their parents and
//! files, and the branches.

use crate::entries::{
    clone_entries, files_view, lemma_normalized_sorted, lemma_path_lt_transitive,
    lemma_path_order, normalize, normalized, path_lt, sorted_by_path, upsert, upsert_entry,
    FileView,
};
use crate::error::FaiError;
use crate::manifest::strings_view;
use crate::text::{str_eq, str_lt};
use vstd::prelude::*;

verus! {

/// A commit: an immutable record of a message, a time, its parents and its
/// files, known by its digest.
#[derive(Debug, Clone)]
pub struct Commit {
    /// The digest of the commit.
    pub hash: String,
    /// The message.
    pub message: String,
    /// When the commit was made, in milliseconds since the Unix epoch.
    pub timestamp: i64,
    /// The digests of the parents, first parent first: none for a root
    /// commit, two or more for a merge.
    pub parents: Vec<String>,
    /// Whether the commit is a merge.
    pub is_merge: bool,
    /// The files of the commit, in the order of their paths.
    pub files: Vec<(String, String, u64)>,
}

/// A commit as a mathematical value.
pub struct CommitView {
    pub hash: Seq<char>,
    pub message: Seq<char>,
    pub timestamp: i64,
    pub parents: Seq<Seq<char>>,
    pub is_merge: bool,
    pub files: Seq<FileView>,
}

impl View for Commit {
    type V = CommitView;

    open spec fn view(&self) -> CommitView {
        CommitView {
            hash: self.hash@,
            message: self.message@,
            timestamp: self.timestamp,
            parents: strings_view(self.parents@),
            is_merge: self.is_merge,
            files: files_view(self.files@),
        }
    }
}

/// The commits that a list of records stands for.
pub open spec fn commits_view(v: Seq<Commit>) -> Seq<CommitView> {
    Seq::new(v.len(), |i: int| v[i]@)
}

/// The branches that a list of pairs stands for: name and head.
pub open spec fn branches_view(v: Seq<(String, String)>) -> Seq<(Seq<char>, Seq<char>)> {
    Seq::new(v.len(), |i: int| (v[i].0@, v[i].1@))
}

/// White space as Unicode defines it.
pub open spec fn is_space(c: char) -> bool {
    let n = c as u32;
    (0x09 <= n <= 0x0d) || n == 0x20 || n == 0x85 || n == 0xa0 || n == 0x1680 || (0x2000 <= n
        <= 0x200a) || n == 0x2028 || n == 0x2029 || n == 0x202f || n == 0x205f || n == 0x3000
}

/// A text of nothing but white space.
pub open spec fn is_blank(s: Seq<char>) -> bool {
    forall|i: int| 0 <= i < s.len() ==> is_space(#[trigger] s[i])
}

/// What the index asks of every commit: a hash that is not empty, a message
/// that is not blank, a time that is not negative.
pub open spec fn acceptable(hash: Seq<char>, message: Seq<char>, timestamp: i64) -> bool {
    hash.len() > 0 && !is_blank(message) && timestamp >= 0
}

/// Whether a commit made at `t1` under digest `h1` stands before one made at
/// `t2` under `h2` in the history: the later one first, and of two made at
/// the same time the one with the greater digest.
pub open spec fn stands_before(t1: i64, h1: Seq<char>, t2: i64, h2: Seq<char>) -> bool {
    t1 > t2 || (t1 == t2 && path_lt(h2, h1))
}

/// The commits stand newest first.
pub open spec fn newest_first(s: Seq<CommitView>) -> bool {
    forall|i: int, j: int|
        0 <= i < j < s.len() ==> stands_before(
            (#[trigger] s[i]).timestamp,
            s[i].hash,
            (#[trigger] s[j]).timestamp,
            s[j].hash,
        )
}

/// No digest comes twice.
pub open spec fn unique_hashes(s: Seq<CommitView>) -> bool {
    forall|i: int, j: int|
        0 <= i < j < s.len() ==> (#[trigger] s[i]).hash != (#[trigger] s[j]).hash
}

/// The index of the commit with digest `hash`, or the length of the list
/// where there is none.
pub open spec fn commit_index(s: Seq<CommitView>, hash: Seq<char>) -> int
    decreases s.len(),
{
    if s.len() == 0 || s[0].hash == hash {
        0
    } else {
        1 + commit_index(s.skip(1), hash)
    }
}

/// Whether the list holds a commit with digest `hash`.
pub open spec fn has_commit(s: Seq<CommitView>, hash: Seq<char>) -> bool {
    commit_index(s, hash) < s.len()
}

/// The commit with digest `hash`, where there is one.
pub open spec fn commit_of(s: Seq<CommitView>, hash: Seq<char>) -> Option<CommitView> {
    if has_commit(s, hash) {
        Some(s[commit_index(s, hash)])
    } else {
        None
    }
}

/// The files of the commit with digest `hash`; none where there is no such
/// commit.
pub open spec fn files_of(s: Seq<CommitView>, hash: Seq<char>) -> Seq<FileView> {
    match commit_of(s, hash) {
        Some(c) => c.files,
        None => Seq::<FileView>::empty(),
    }
}

/// The number of commits at the front that stand before a commit made at
/// `timestamp` under `hash`: its place in the history.
pub open spec fn rank(s: Seq<CommitView>, timestamp: i64, hash: Seq<char>) -> int
    decreases s.len(),
{
    if s.len() > 0 && stands_before(s[0].timestamp, s[0].hash, timestamp, hash) {
        1 + rank(s.skip(1), timestamp, hash)
    } else {
        0
    }
}

/// The history after `c` has been recorded: unchanged where its digest is
/// already there, else with `c` at its place.
pub open spec fn recorded(s: Seq<CommitView>, c: CommitView) -> Seq<CommitView> {
    if has_commit(s, c.hash) {
        s
    } else {
        s.insert(rank(s, c.timestamp, c.hash), c)
    }
}

/// The first `limit` commits of the history; all of them where there is no
/// limit or the limit is negative.
pub open spec fn limited(s: Seq<CommitView>, limit: Option<i32>) -> Seq<CommitView> {
    match limit {
        Some(n) => if 0 <= n < s.len() {
            s.take(n as int)
        } else {
            s
        },
        None => s,
    }
}

/// The index of the branch `name`, or the length of the list where there is
/// none.
pub open spec fn branch_index(s: Seq<(Seq<char>, Seq<char>)>, name: Seq<char>) -> int
    decreases s.len(),
{
    if s.len() == 0 || s[0].0 == name {
        0
    } else {
        1 + branch_index(s.skip(1), name)
    }
}

/// Whether there is a branch `name`.
pub open spec fn has_branch(s: Seq<(Seq<char>, Seq<char>)>, name: Seq<char>) -> bool {
    branch_index(s, name) < s.len()
}

/// The contents of the index.
pub struct IndexView {
    /// The staged files, in the order of their paths.
    pub staging: Seq<FileView>,
    /// The commits, newest first.
    pub commits: Seq<CommitView>,
    /// The branches with their heads, in the order in which they were made.
    pub branches: Seq<(Seq<char>, Seq<char>)>,
    /// The reference that is checked out, such as `refs/heads/main`.
    pub current_ref: Seq<char>,
}

/// No branch name comes twice.
pub open spec fn unique_branches(s: Seq<(Seq<char>, Seq<char>)>) -> bool {
    forall|i: int, j: int| 0 <= i < j < s.len() ==> (#[trigger] s[i]).0 != (#[trigger] s[j]).0
}

/// The index of a branch is a place of the list or its length; no branch
/// before it has the name, and the branch at it has.
pub proof fn lemma_branch_index(s: Seq<(Seq<char>, Seq<char>)>, name: Seq<char>)
    ensures
        0 <= branch_index(s, name) <= s.len(),
        forall|i: int| 0 <= i < branch_index(s, name) ==> (#[trigger] s[i]).0 != name,
        branch_index(s, name) < s.len() ==> s[branch_index(s, name)].0 == name,
    decreases s.len(),
{
    if s.len() > 0 && s[0].0 != name {
        let rest = s.skip(1);
        lemma_branch_index(rest, name);
        assert forall|i: int| 0 <= i < branch_index(s, name) implies (#[trigger] s[i]).0
            != name by {
            if i > 0 {
                assert(s[i] == rest[i - 1]);
            }
        }
        if branch_index(s, name) < s.len() {
            assert(s[branch_index(s, name)] == rest[branch_index(rest, name)]);
        }
    }
}

/// Making a branch under a new name, moving the head of a branch and
/// removing a branch leave every name once; a branch that was removed is
/// not there any more.
pub proof fn lemma_branches_stay_unique(
    s: Seq<(Seq<char>, Seq<char>)>,
    name: Seq<char>,
    head: Seq<char>,
)
    requires
        unique_branches(s),
    ensures
        !has_branch(s, name) ==> unique_branches(s.push((name, head))),
        has_branch(s, name) ==> unique_branches(s.update(branch_index(s, name), (name, head)))
            && unique_branches(s.remove(branch_index(s, name))) && !has_branch(
            s.remove(branch_index(s, name)),
            name,
        ),
{
    lemma_branch_index(s, name);
    let k = branch_index(s, name);
    if k < s.len() {
        let u = s.update(k, (name, head));
        let r = s.remove(k);
        assert forall|i: int, j: int| 0 <= i < j < u.len() implies (#[trigger] u[i]).0 != (
        #[trigger] u[j]).0 by {
            assert(u[i].0 == s[i].0 && u[j].0 == s[j].0);
        }
        assert forall|i: int, j: int| 0 <= i < j < r.len() implies (#[trigger] r[i]).0 != (
        #[trigger] r[j]).0 by {
            let i0 = if i < k {
                i
            } else {
                i + 1
            };
            let j0 = if j < k {
                j
            } else {
                j + 1
            };
            assert(r[i] == s[i0] && r[j] == s[j0]);
        }
        lemma_branch_index(r, name);
        if branch_index(r, name) < r.len() {
            let m = branch_index(r, name);
            let m0 = if m < k {
                m
            } else {
                m + 1
            };
            assert(r[m] == s[m0]);
            if m0 < k {
                assert(s[m0].0 != name);
            } else {
                assert(s[k].0 != s[m0].0);
            }
        }
    } else {
        let p = s.push((name, head));
        assert forall|i: int, j: int| 0 <= i < j < p.len() implies (#[trigger] p[i]).0 != (
        #[trigger] p[j]).0 by {
            if j < s.len() {
                assert(p[i] == s[i] && p[j] == s[j]);
            } else {
                assert(p[i] == s[i]);
            }
        }
    }
}

/// What holds of every index: the staging area is sorted by path, the
/// history stands newest first and holds each digest once, every commit is
/// acceptable and has its files sorted by path, and no branch name comes
/// twice.
pub open spec fn index_ok(v: IndexView) -> bool {
    &&& sorted_by_path(v.staging)
    &&& newest_first(v.commits)
    &&& unique_hashes(v.commits)
    &&& unique_branches(v.branches)
    &&& forall|i: int|
        0 <= i < v.commits.len() ==> acceptable(
            (#[trigger] v.commits[i]).hash,
            v.commits[i].message,
            v.commits[i].timestamp,
        ) && sorted_by_path(v.commits[i].files)
}

/// The index of a digest is a place of the list or its length; no commit
/// before it has the digest, and the commit at it has.
pub proof fn lemma_commit_index(s: Seq<CommitView>, hash: Seq<char>)
    ensures
        0 <= commit_index(s, hash) <= s.len(),
        forall|i: int| 0 <= i < commit_index(s, hash) ==> (#[trigger] s[i]).hash != hash,
        commit_index(s, hash) < s.len() ==> s[commit_index(s, hash)].hash == hash,
    decreases s.len(),
{
    if s.len() > 0 && s[0].hash != hash {
        let rest = s.skip(1);
        lemma_commit_index(rest, hash);
        assert forall|i: int| 0 <= i < commit_index(s, hash) implies (#[trigger] s[i]).hash
            != hash by {
            if i > 0 {
                assert(s[i] == rest[i - 1]);
            }
        }
        if commit_index(s, hash) < s.len() {
            assert(s[commit_index(s, hash)] == rest[commit_index(rest, hash)]);
        }
    }
}

/// In a history that stands newest first, the commits before the rank of a
/// commit stand before it, and those from the rank on do not.
pub proof fn lemma_rank(s: Seq<CommitView>, timestamp: i64, hash: Seq<char>)
    requires
        newest_first(s),
    ensures
        0 <= rank(s, timestamp, hash) <= s.len(),
        forall|i: int|
            0 <= i < rank(s, timestamp, hash) ==> stands_before(
                (#[trigger] s[i]).timestamp,
                s[i].hash,
                timestamp,
                hash,
            ),
        forall|i: int|
            rank(s, timestamp, hash) <= i < s.len() ==> !stands_before(
                (#[trigger] s[i]).timestamp,
                s[i].hash,
                timestamp,
                hash,
            ),
    decreases s.len(),
{
    if s.len() > 0 {
        let rest = s.skip(1);
        assert(newest_first(rest)) by {
            assert forall|i: int, j: int| 0 <= i < j < rest.len() implies stands_before(
                (#[trigger] rest[i]).timestamp,
                rest[i].hash,
                (#[trigger] rest[j]).timestamp,
                rest[j].hash,
            ) by {
                assert(rest[i] == s[i + 1] && rest[j] == s[j + 1]);
            }
        }
        if stands_before(s[0].timestamp, s[0].hash, timestamp, hash) {
            lemma_rank(rest, timestamp, hash);
            let k = rank(s, timestamp, hash);
            assert forall|i: int| 0 <= i < k implies stands_before(
                (#[trigger] s[i]).timestamp,
                s[i].hash,
                timestamp,
                hash,
            ) by {
                if i > 0 {
                    assert(s[i] == rest[i - 1]);
                }
            }
            assert forall|i: int| k <= i < s.len() implies !stands_before(
                (#[trigger] s[i]).timestamp,
                s[i].hash,
                timestamp,
                hash,
            ) by {
                assert(s[i] == rest[i - 1]);
            }
        } else {
            assert forall|i: int| 0 <= i < s.len() implies !stands_before(
                (#[trigger] s[i]).timestamp,
                s[i].hash,
                timestamp,
                hash,
            ) by {
                if i > 0 && stands_before(s[i].timestamp, s[i].hash, timestamp, hash) {
                    assert(stands_before(s[0].timestamp, s[0].hash, s[i].timestamp, s[i].hash));
                    if s[0].timestamp == timestamp {
                        lemma_path_lt_transitive(hash, s[i].hash, s[0].hash);
                    }
                }
            }
        }
    }
}

/// Recording a commit keeps the history newest first and its digests
/// unique; the commit is then in it, and every commit that was there is
/// still there, with the files it had.
pub proof fn lemma_recorded(s: Seq<CommitView>, c: CommitView)
    requires
        newest_first(s),
        unique_hashes(s),
    ensures
        newest_first(recorded(s, c)),
        unique_hashes(recorded(s, c)),
        has_commit(recorded(s, c), c.hash),
        !has_commit(s, c.hash) ==> commit_of(recorded(s, c), c.hash) == Some(c),
        forall|h: Seq<char>| #[trigger]
            has_commit(s, h) ==> commit_of(recorded(s, c), h) == commit_of(s, h),
        forall|h: Seq<char>|
            h != c.hash ==> #[trigger] has_commit(recorded(s, c), h) == has_commit(s, h),
{
    let r = recorded(s, c);
    lemma_commit_index(s, c.hash);
    if !has_commit(s, c.hash) {
        lemma_rank(s, c.timestamp, c.hash);
        let k = rank(s, c.timestamp, c.hash);
        assert(r[k] == c);
        assert forall|i: int| 0 <= i < r.len() && i != k implies (#[trigger] r[i]).hash
            != c.hash by {
            if i < k {
                assert(r[i] == s[i]);
            } else {
                assert(r[i] == s[i - 1]);
            }
        }
        assert forall|i: int, j: int| 0 <= i < j < r.len() implies stands_before(
            (#[trigger] r[i]).timestamp,
            r[i].hash,
            (#[trigger] r[j]).timestamp,
            r[j].hash,
        ) by {
            if j < k {
                assert(r[i] == s[i] && r[j] == s[j]);
            } else if j == k {
                assert(r[i] == s[i]);
            } else if i < k {
                assert(r[i] == s[i] && r[j] == s[j - 1]);
            } else if i == k {
                assert(r[j] == s[j - 1]);
                assert(s[j - 1].hash != c.hash);
                lemma_path_order(s[j - 1].hash, c.hash);
            } else {
                assert(r[i] == s[i - 1] && r[j] == s[j - 1]);
            }
        }
        assert forall|i: int, j: int| 0 <= i < j < r.len() implies (#[trigger] r[i]).hash != (
        #[trigger] r[j]).hash by {
            if i != k && j != k {
                let i0 = if i < k {
                    i
                } else {
                    i - 1
                };
                let j0 = if j < k {
                    j
                } else {
                    j - 1
                };
                assert(r[i] == s[i0] && r[j] == s[j0]);
            }
        }
        lemma_unique_lookup(r, k);
        assert forall|h: Seq<char>| #[trigger] has_commit(s, h) implies commit_of(r, h)
            == commit_of(s, h) by {
            lemma_commit_index(s, h);
            let i = commit_index(s, h);
            let i2 = if i < k {
                i
            } else {
                i + 1
            };
            assert(r[i2] == s[i]);
            lemma_unique_lookup(r, i2);
        }
        assert forall|h: Seq<char>| h != c.hash implies #[trigger] has_commit(r, h) == has_commit(
            s,
            h,
        ) by {
            lemma_commit_index(s, h);
            lemma_commit_index(r, h);
            if has_commit(r, h) {
                let i = commit_index(r, h);
                let i0 = if i < k {
                    i
                } else {
                    i - 1
                };
                assert(r[i] == s[i0]);
                lemma_found(s, i0);
            }
        }
    }
}

/// No commit stands before itself, and of two commits at most one stands
/// before the other.
pub proof fn lemma_stands_before_strict(t1: i64, h1: Seq<char>, t2: i64, h2: Seq<char>)
    ensures
        !stands_before(t1, h1, t1, h1),
        !(stands_before(t1, h1, t2, h2) && stands_before(t2, h2, t1, h1)),
{
    lemma_path_order(h1, h1);
    lemma_path_order(h1, h2);
}

/// Two histories that stand newest first and hold the same commits are the
/// same history.
pub proof fn lemma_same_history(a: Seq<CommitView>, r: Seq<CommitView>)
    requires
        newest_first(a),
        newest_first(r),
        forall|i: int| 0 <= i < a.len() ==> r.contains(#[trigger] a[i]),
        forall|j: int| 0 <= j < r.len() ==> a.contains(#[trigger] r[j]),
    ensures
        a == r,
    decreases a.len(),
{
    if a.len() == 0 {
        if r.len() > 0 {
            assert(a.contains(r[0]));
        }
        assert(a =~= r);
    } else {
        assert(r.contains(a[0]));
        let j = choose|j: int| 0 <= j < r.len() && r[j] == a[0];
        assert(a.contains(r[0]));
        let k = choose|k: int| 0 <= k < a.len() && a[k] == r[0];
        lemma_stands_before_strict(a[0].timestamp, a[0].hash, r[0].timestamp, r[0].hash);
        if j > 0 {
            assert(stands_before(r[0].timestamp, r[0].hash, r[j].timestamp, r[j].hash));
            if k > 0 {
                assert(stands_before(a[0].timestamp, a[0].hash, a[k].timestamp, a[k].hash));
            }
        }
        assert(a[0] == r[0]);
        let a2 = a.skip(1);
        let r2 = r.skip(1);
        assert(newest_first(a2)) by {
            assert forall|x: int, y: int| 0 <= x < y < a2.len() implies stands_before(
                (#[trigger] a2[x]).timestamp,
                a2[x].hash,
                (#[trigger] a2[y]).timestamp,
                a2[y].hash,
            ) by {
                assert(a2[x] == a[x + 1] && a2[y] == a[y + 1]);
            }
        }
        assert(newest_first(r2)) by {
            assert forall|x: int, y: int| 0 <= x < y < r2.len() implies stands_before(
                (#[trigger] r2[x]).timestamp,
                r2[x].hash,
                (#[trigger] r2[y]).timestamp,
                r2[y].hash,
            ) by {
                assert(r2[x] == r[x + 1] && r2[y] == r[y + 1]);
            }
        }
        assert forall|i: int| 0 <= i < a2.len() implies r2.contains(#[trigger] a2[i]) by {
            assert(a2[i] == a[i + 1]);
            assert(r.contains(a[i + 1]));
            let m = choose|m: int| 0 <= m < r.len() && r[m] == a[i + 1];
            assert(stands_before(a[0].timestamp, a[0].hash, a[i + 1].timestamp, a[i + 1].hash));
            lemma_stands_before_strict(a[0].timestamp, a[0].hash, a[0].timestamp, a[0].hash);
            assert(m > 0);
            assert(r2[m - 1] == r[m]);
        }
        assert forall|i: int| 0 <= i < r2.len() implies a2.contains(#[trigger] r2[i]) by {
            assert(r2[i] == r[i + 1]);
            assert(a.contains(r[i + 1]));
            let m = choose|m: int| 0 <= m < a.len() && a[m] == r[i + 1];
            assert(stands_before(r[0].timestamp, r[0].hash, r[i + 1].timestamp, r[i + 1].hash));
            lemma_stands_before_strict(r[0].timestamp, r[0].hash, r[0].timestamp, r[0].hash);
            assert(m > 0);
            assert(a2[m - 1] == a[m]);
        }
        lemma_same_history(a2, r2);
        assert(a =~= r) by {
            assert forall|i: int| 0 <= i < a.len() implies a[i] == r[i] by {
                if i > 0 {
                    assert(a[i] == a2[i - 1] && r[i] == r2[i - 1]);
                }
            }
            assert(a.len() == a2.len() + 1 && r.len() == r2.len() + 1);
        }
    }
}

/// The files of a commit are those it was recorded with, and stay so
/// whatever is recorded later: recording a commit under a new digest makes
/// its files those it came with, and leaves the files of every commit that
/// was there as they were.
pub proof fn lemma_commit_files_kept(s: Seq<CommitView>, c: CommitView)
    requires
        newest_first(s),
        unique_hashes(s),
    ensures
        !has_commit(s, c.hash) ==> files_of(recorded(s, c), c.hash) == c.files,
        forall|h: Seq<char>| #[trigger]
            has_commit(s, h) ==> files_of(recorded(s, c), h) == files_of(s, h),
{
    lemma_recorded(s, c);
}

/// A commit that stands in the list is found under its digest.
pub proof fn lemma_found(s: Seq<CommitView>, i: int)
    requires
        0 <= i < s.len(),
    ensures
        has_commit(s, s[i].hash),
{
    lemma_commit_index(s, s[i].hash);
}

/// In a list with unique digests, the commit at an index is the one found
/// under its digest.
pub proof fn lemma_unique_lookup(s: Seq<CommitView>, i: int)
    requires
        unique_hashes(s),
        0 <= i < s.len(),
    ensures
        commit_index(s, s[i].hash) == i,
        commit_of(s, s[i].hash) == Some(s[i]),
{
    lemma_commit_index(s, s[i].hash);
    let k = commit_index(s, s[i].hash);
    if k < i {
        assert(s[k].hash == s[i].hash);
    }
}

/// Copies a list of strings.
pub fn clone_strings(v: &Vec<String>) -> (r: Vec<String>)
    ensures
        strings_view(r@) == strings_view(v@),
{
    let mut out: Vec<String> = Vec::new();
    let mut i: usize = 0;
    while i < v.len()
        invariant
            i <= v.len(),
            out.len() == i,
            forall|k: int| 0 <= k < i ==> (#[trigger] out@[k])@ == v@[k]@,
        decreases v.len() - i,
    {
        out.push(v[i].clone());
        i += 1;
    }
    assert(strings_view(out@) =~= strings_view(v@));
    out
}

/// Copies a commit.
pub fn clone_commit(c: &Commit) -> (r: Commit)
    ensures
        r@ == c@,
{
    Commit {
        hash: c.hash.clone(),
        message: c.message.clone(),
        timestamp: c.timestamp,
        parents: clone_strings(&c.parents),
        is_merge: c.is_merge,
        files: clone_entries(&c.files),
    }
}

/// Whether a character is white space.
pub fn is_space_char(c: char) -> (r: bool)
    ensures
        r == is_space(c),
{
    let n = c as u32;
    (0x09 <= n && n <= 0x0d) || n == 0x20 || n == 0x85 || n == 0xa0 || n == 0x1680 || (0x2000 <= n
        && n <= 0x200a) || n == 0x2028 || n == 0x2029 || n == 0x202f || n == 0x205f || n
        == 0x3000
}

/// Whether a text holds nothing but white space.
pub fn is_blank_text(text: &str) -> (r: bool)
    ensures
        r == is_blank(text@),
{
    let n = text.unicode_len();
    let mut i: usize = 0;
    while i < n
        invariant
            i <= n,
            n == text@.len(),
            forall|k: int| 0 <= k < i ==> is_space(#[trigger] text@[k]),
        decreases n - i,
    {
        if !is_space_char(text.get_char(i)) {
            return false;
        }
        i += 1;
    }
    true
}

/// The metadata index.
pub struct DatabaseManager {
    staging: Vec<(String, String, u64)>,
    commits: Vec<Commit>,
    branches: Vec<(String, String)>,
    current_ref: String,
}

impl View for DatabaseManager {
    type V = IndexView;

    closed spec fn view(&self) -> IndexView {
        IndexView {
            staging: files_view(self.staging@),
            commits: commits_view(self.commits@),
            branches: branches_view(self.branches@),
            current_ref: self.current_ref@,
        }
    }
}

/// What every reference to a branch begins with.
pub open spec fn heads_prefix() -> Seq<char> {
    "refs/heads/"@
}

/// The name of the branch that a reference names: what follows
/// `refs/heads/`, where the reference begins with it.
pub open spec fn branch_of_ref(r: Seq<char>) -> Option<Seq<char>> {
    let p = heads_prefix().len() as int;
    if r.len() >= p && r.subrange(0, p) == heads_prefix() {
        Some(r.subrange(p, r.len() as int))
    } else {
        None
    }
}

/// The reference that a new index has checked out: the branch `main`.
pub open spec fn default_ref() -> Seq<char> {
    "refs/heads/main"@
}

impl DatabaseManager {
    /// The invariant of the index.
    pub open spec fn wf(&self) -> bool {
        index_ok(self@)
    }

    /// An empty index, with the branch `main` checked out.
    pub fn new() -> (db: DatabaseManager)
        ensures
            db.wf(),
            db@.staging.len() == 0,
            db@.commits.len() == 0,
            db@.branches.len() == 0,
            db@.current_ref == default_ref(),
    {
        DatabaseManager {
            staging: Vec::new(),
            commits: Vec::new(),
            branches: Vec::new(),
            current_ref: "refs/heads/main".to_owned(),
        }
    }

    /// Stages a file: puts `(path, hash, size)` in place of what was staged
    /// for `path`, if anything was.
    pub fn add_to_staging(&mut self, path: &str, hash: &str, size: u64)
        requires
            old(self).wf(),
        ensures
            final(self).wf(),
            final(self)@ == (IndexView {
                staging: upsert(old(self)@.staging, (path@, hash@, size)),
                ..old(self)@
            }),
    {
        upsert_entry(&mut self.staging, path, hash, size);
    }

    /// The staged files, in the order of their paths.
    pub fn get_staged_files(&self) -> (files: Vec<(String, String, u64)>)
        requires
            self.wf(),
        ensures
            files_view(files@) == self@.staging,
            sorted_by_path(files_view(files@)),
    {
        clone_entries(&self.staging)
    }

    /// Empties the staging area.
    pub fn clear_staging(&mut self)
        requires
            old(self).wf(),
        ensures
            final(self).wf(),
            final(self)@ == (IndexView { staging: Seq::<FileView>::empty(), ..old(self)@ }),
    {
        self.staging.clear();
        assert(files_view(self.staging@) =~= Seq::<FileView>::empty());
    }

    fn find_commit(&self, hash: &str) -> (r: Option<usize>)
        ensures
            match r {
                Some(i) => i == commit_index(self@.commits, hash@) && has_commit(
                    self@.commits,
                    hash@,
                ) && i < self.commits.len(),
                None => !has_commit(self@.commits, hash@),
            },
    {
        let ghost s = self@.commits;
        let mut i: usize = 0;
        assert(s.skip(0) =~= s);
        while i < self.commits.len()
            invariant
                i <= self.commits.len(),
                s == self@.commits,
                commit_index(s, hash@) == i + commit_index(s.skip(i as int), hash@),
            decreases self.commits.len() - i,
        {
            assert(s.skip(i as int)[0] == self.commits@[i as int]@);
            if str_eq(self.commits[i].hash.as_str(), hash) {
                return Some(i);
            }
            assert(s.skip(i as int).skip(1) =~= s.skip(i + 1));
            i += 1;
        }
        None
    }

    fn find_rank(&self, timestamp: i64, hash: &str) -> (k: usize)
        ensures
            k == rank(self@.commits, timestamp, hash@),
            k <= self.commits.len(),
    {
        let ghost s = self@.commits;
        let mut k: usize = 0;
        assert(s.skip(0) =~= s);
        while k < self.commits.len() && (self.commits[k].timestamp > timestamp || (
        self.commits[k].timestamp == timestamp && str_lt(hash, self.commits[k].hash.as_str())))
            invariant
                k <= self.commits.len(),
                s == self@.commits,
                rank(s, timestamp, hash@) == k + rank(s.skip(k as int), timestamp, hash@),
            decreases self.commits.len() - k,
        {
            assert(s.skip(k as int)[0] == self.commits@[k as int]@);
            assert(s.skip(k as int).skip(1) =~= s.skip(k + 1));
            k += 1;
        }
        proof {
            if k < self.commits.len() {
                assert(s.skip(k as int)[0] == self.commits@[k as int]@);
            }
        }
        k
    }

    /// Records a commit made at `timestamp`, with `files` brought into their
    /// normal form. A commit whose digest is already in the index is left as
    /// it is. An empty hash, a blank message or a negative time is refused,
    /// and the index stays as it was.
    pub fn create_commit(
        &mut self,
        hash: &str,
        message: &str,
        timestamp: i64,
        parents: &Vec<String>,
        files: &Vec<(String, String, u64)>,
        is_merge: bool,
    ) -> (r: Result<(), FaiError>)
        requires
            old(self).wf(),
        ensures
            final(self).wf(),
            match r {
                Ok(_) => acceptable(hash@, message@, timestamp) && final(self)@ == (IndexView {
                    commits: recorded(
                        old(self)@.commits,
                        CommitView {
                            hash: hash@,
                            message: message@,
                            timestamp,
                            parents: strings_view(parents@),
                            is_merge,
                            files: normalized(files_view(files@)),
                        },
                    ),
                    ..old(self)@
                }),
                Err(e) => e == FaiError::Invalid && !acceptable(hash@, message@, timestamp)
                    && final(self)@ == old(self)@,
            },
    {
        if hash.unicode_len() == 0 || is_blank_text(message) || timestamp < 0 {
            return Err(FaiError::Invalid);
        }
        if self.find_commit(hash).is_some() {
            return Ok(());
        }
        let commit = Commit {
            hash: hash.to_owned(),
            message: message.to_owned(),
            timestamp,
            parents: clone_strings(parents),
            is_merge,
            files: normalize(files),
        };
        let ghost c = commit@;
        let ghost before = self@.commits;
        let k = self.find_rank(timestamp, hash);
        self.commits.insert(k, commit);
        proof {
            assert(commits_view(self.commits@) =~= before.insert(k as int, c));
            lemma_recorded(before, c);
            let after = self@.commits;
            assert forall|i: int| 0 <= i < after.len() implies acceptable(
                (#[trigger] after[i]).hash,
                after[i].message,
                after[i].timestamp,
            ) && sorted_by_path(after[i].files) by {
                if i < k {
                    assert(after[i] == before[i]);
                } else if i > k {
                    assert(after[i] == before[i - 1]);
                }
            }
        }
        Ok(())
    }

    /// The commit with digest `hash`, where the index has it.
    pub fn get_commit(&self, hash: &str) -> (r: Option<Commit>)
        requires
            self.wf(),
        ensures
            match commit_of(self@.commits, hash@) {
                Some(c) => r matches Some(found) && found@ == c,
                None => r is None,
            },
    {
        match self.find_commit(hash) {
            Some(i) => Some(clone_commit(&self.commits[i])),
            None => None,
        }
    }

    /// The files of the commit with digest `hash`, in the order of their
    /// paths; none where the index has no such commit.
    pub fn get_commit_files(&self, hash: &str) -> (files: Vec<(String, String, u64)>)
        requires
            self.wf(),
        ensures
            files_view(files@) == files_of(self@.commits, hash@),
    {
        match self.find_commit(hash) {
            Some(i) => clone_entries(&self.commits[i].files),
            None => {
                let none: Vec<(String, String, u64)> = Vec::new();
                assert(files_view(none@) =~= Seq::<FileView>::empty());
                none
            },
        }
    }

    /// The digest of the newest commit, where there is a commit.
    pub fn get_head(&self) -> (r: Option<String>)
        requires
            self.wf(),
        ensures
            match r {
                Some(hash) => self@.commits.len() > 0 && hash@ == self@.commits[0].hash,
                None => self@.commits.len() == 0,
            },
    {
        if self.commits.len() == 0 {
            None
        } else {
            Some(self.commits[0].hash.clone())
        }
    }

    /// The history, newest first: its first `limit` commits, or all of them
    /// where there is no limit or the limit is negative.
    pub fn get_commit_history(&self, limit: Option<i32>) -> (history: Vec<Commit>)
        requires
            self.wf(),
        ensures
            commits_view(history@) == limited(self@.commits, limit),
    {
        let n: usize = match limit {
            Some(l) => if l >= 0 && (l as usize) < self.commits.len() {
                l as usize
            } else {
                self.commits.len()
            },
            None => self.commits.len(),
        };
        let mut out: Vec<Commit> = Vec::new();
        let mut i: usize = 0;
        while i < n
            invariant
                i <= n <= self.commits.len(),
                out.len() == i,
                forall|k: int| 0 <= k < i ==> (#[trigger] out@[k])@ == self.commits@[k]@,
            decreases n - i,
        {
            out.push(clone_commit(&self.commits[i]));
            i += 1;
        }
        assert(commits_view(out@) =~= limited(self@.commits, limit));
        out
    }

    /// All commits, newest first.
    pub fn get_all_commits(&self) -> (history: Vec<Commit>)
        requires
            self.wf(),
        ensures
            commits_view(history@) == self@.commits,
    {
        self.get_commit_history(None)
    }

    fn find_branch(&self, name: &str) -> (r: Option<usize>)
        ensures
            match r {
                Some(i) => i == branch_index(self@.branches, name@) && has_branch(
                    self@.branches,
                    name@,
                ) && i < self.branches.len(),
                None => !has_branch(self@.branches, name@),
            },
    {
        let ghost s = self@.branches;
        let mut i: usize = 0;
        assert(s.skip(0) =~= s);
        while i < self.branches.len()
            invariant
                i <= self.branches.len(),
                s == self@.branches,
                branch_index(s, name@) == i + branch_index(s.skip(i as int), name@),
            decreases self.branches.len() - i,
        {
            assert(s.skip(i as int)[0] == (self.branches@[i as int].0@, self.branches@[i as int].1@));
            if str_eq(self.branches[i].0.as_str(), name) {
                return Some(i);
            }
            assert(s.skip(i as int).skip(1) =~= s.skip(i + 1));
            i += 1;
        }
        None
    }

    /// Whether there is a branch `name`.
    pub fn branch_exists(&self, name: &str) -> (r: bool)
        requires
            self.wf(),
        ensures
            r == has_branch(self@.branches, name@),
    {
        self.find_branch(name).is_some()
    }

    /// Makes the branch `name` with its head at `hash`. A name that is
    /// taken is refused.
    pub fn create_branch(&mut self, name: &str, hash: &str) -> (r: Result<(), FaiError>)
        requires
            old(self).wf(),
        ensures
            final(self).wf(),
            match r {
                Ok(_) => !has_branch(old(self)@.branches, name@) && final(self)@ == (IndexView {
                    branches: old(self)@.branches.push((name@, hash@)),
                    ..old(self)@
                }),
                Err(e) => e == FaiError::Invalid && has_branch(old(self)@.branches, name@)
                    && final(self)@ == old(self)@,
            },
    {
        if self.find_branch(name).is_some() {
            return Err(FaiError::Invalid);
        }
        let ghost before = self@.branches;
        self.branches.push((name.to_owned(), hash.to_owned()));
        assert(branches_view(self.branches@) =~= before.push((name@, hash@)));
        proof {
            lemma_branches_stay_unique(before, name@, hash@);
        }
        Ok(())
    }

    /// Removes the branch `name`, after which there is no branch of that
    /// name. The branch that is checked out is not removed.
    pub fn delete_branch(&mut self, name: &str) -> (r: Result<(), FaiError>)
        requires
            old(self).wf(),
        ensures
            final(self).wf(),
            r is Ok ==> !has_branch(final(self)@.branches, name@),
            match r {
                Ok(_) => has_branch(old(self)@.branches, name@) && branch_of_ref(
                    old(self)@.current_ref,
                ) != Some(name@) && final(self)@ == (IndexView {
                    branches: old(self)@.branches.remove(branch_index(old(self)@.branches, name@)),
                    ..old(self)@
                }),
                Err(e) => final(self)@ == old(self)@ && if has_branch(old(self)@.branches, name@) {
                    e == FaiError::Invalid && branch_of_ref(old(self)@.current_ref) == Some(name@)
                } else {
                    e == FaiError::NotFound
                },
            },
    {
        let i = match self.find_branch(name) {
            Some(i) => i,
            None => {
                return Err(FaiError::NotFound);
            },
        };
        match self.get_current_branch() {
            Ok(current) => {
                if str_eq(current.as_str(), name) {
                    return Err(FaiError::Invalid);
                }
            },
            Err(_) => {},
        }
        let ghost before = self@.branches;
        self.branches.remove(i);
        assert(branches_view(self.branches@) =~= before.remove(i as int));
        proof {
            lemma_branches_stay_unique(before, name@, name@);
        }
        Ok(())
    }

    /// The branches with their heads, in the order in which they were made.
    pub fn list_branches(&self) -> (r: Vec<(String, String)>)
        requires
            self.wf(),
        ensures
            branches_view(r@) == self@.branches,
    {
        let mut out: Vec<(String, String)> = Vec::new();
        let mut i: usize = 0;
        while i < self.branches.len()
            invariant
                i <= self.branches.len(),
                out.len() == i,
                forall|k: int|
                    0 <= k < i ==> (#[trigger] out@[k]).0@ == self.branches@[k].0@ && out@[k].1@
                        == self.branches@[k].1@,
            decreases self.branches.len() - i,
        {
            out.push((self.branches[i].0.clone(), self.branches[i].1.clone()));
            i += 1;
        }
        assert(branches_view(out@) =~= self@.branches);
        out
    }

    /// Checks out the reference `ref_name`.
    pub fn set_current_ref(&mut self, ref_name: &str)
        requires
            old(self).wf(),
        ensures
            final(self).wf(),
            final(self)@ == (IndexView { current_ref: ref_name@, ..old(self)@ }),
    {
        self.current_ref = ref_name.to_owned();
    }

    /// The reference that is checked out.
    pub fn get_current_ref(&self) -> (r: String)
        ensures
            r@ == self@.current_ref,
    {
        self.current_ref.clone()
    }

    /// The name of the branch that is checked out. There is none where the
    /// reference that is checked out does not begin with `refs/heads/`.
    pub fn get_current_branch(&self) -> (r: Result<String, FaiError>)
        ensures
            match branch_of_ref(self@.current_ref) {
                Some(name) => r matches Ok(found) && found@ == name,
                None => r == Err::<String, FaiError>(FaiError::NotFound),
            },
    {
        let prefix = "refs/heads/";
        let whole = self.current_ref.as_str();
        let p = prefix.unicode_len();
        let n = whole.unicode_len();
        if n < p {
            return Err(FaiError::NotFound);
        }
        if !str_eq(whole.substring_char(0, p), prefix) {
            return Err(FaiError::NotFound);
        }
        Ok(whole.substring_char(p, n).to_owned())
    }

    /// The head of the branch `name`, where there is such a branch.
    pub fn get_branch_head(&self, name: &str) -> (r: Option<String>)
        requires
            self.wf(),
        ensures
            match r {
                Some(head) => has_branch(self@.branches, name@) && head@
                    == self@.branches[branch_index(self@.branches, name@)].1,
                None => !has_branch(self@.branches, name@),
            },
    {
        match self.find_branch(name) {
            Some(i) => Some(self.branches[i].1.clone()),
            None => None,
        }
    }

    /// Moves the head of the branch `name` to `hash`.
    pub fn update_branch_head(&mut self, name: &str, hash: &str) -> (r: Result<(), FaiError>)
        requires
            old(self).wf(),
        ensures
            final(self).wf(),
            match r {
                Ok(_) => has_branch(old(self)@.branches, name@) && final(self)@ == (IndexView {
                    branches: old(self)@.branches.update(
                        branch_index(old(self)@.branches, name@),
                        (name@, hash@),
                    ),
                    ..old(self)@
                }),
                Err(e) => e == FaiError::NotFound && !has_branch(old(self)@.branches, name@)
                    && final(self)@ == old(self)@,
            },
    {
        let i = match self.find_branch(name) {
            Some(i) => i,
            None => {
                return Err(FaiError::NotFound);
            },
        };
        let ghost before = self@.branches;
        self.branches.remove(i);
        self.branches.insert(i, (name.to_owned(), hash.to_owned()));
        assert(branches_view(self.branches@) =~= before.update(i as int, (name@, hash@)));
        proof {
            lemma_branches_stay_unique(before, name@, hash@);
        }
        Ok(())
    }

    /// The digest of the newest commit, where there is a commit.
    pub fn get_head_commit(&self) -> (r: Option<String>)
        requires
            self.wf(),
        ensures
            match r {
                Some(hash) => self@.commits.len() > 0 && hash@ == self@.commits[0].hash,
                None => self@.commits.len() == 0,
            },
    {
        self.get_head()
    }
}

} // verus!
