//! Branches: names for commits, one of which is checked out.

use crate::database::{
    branch_index, branch_of_ref, has_branch, heads_prefix, DatabaseManager, IndexView,
};
use crate::error::FaiError;
use crate::text::{str_eq, utf8};
use vstd::prelude::*;
use vstd::string::StringExecFns;

verus! {

/// The head that marks a branch without commits: forty zeros.
pub open spec fn empty_head() -> Seq<char> {
    "0000000000000000000000000000000000000000"@
}

/// A branch as it is listed.
#[derive(Debug, Clone)]
pub struct BranchInfo {
    /// The name of the branch.
    pub name: String,
    /// The digest of the commit at its head.
    pub head_commit: String,
    /// Whether the branch is checked out.
    pub is_current: bool,
    /// Whether the branch has no commits.
    pub is_empty: bool,
}

impl BranchInfo {
    /// The head for display: its first eight bytes, or all of it where it is
    /// shorter or cannot be cut there.
    pub fn short_hash(&self) -> (short: &str)
        ensures
            if utf8(self.head_commit@).len() >= 8 && vstd::utf8::is_char_boundary(
                utf8(self.head_commit@),
                8,
            ) {
                utf8(short@) == utf8(self.head_commit@).subrange(0, 8)
            } else {
                short@ == self.head_commit@
            },
    {
        let whole = self.head_commit.as_str();
        if whole.as_bytes().len() >= 8 && whole.is_char_boundary(8) {
            whole.split_at(8).0
        } else {
            whole
        }
    }

    /// The mark in front of a listed branch: a star for the one that is
    /// checked out.
    pub fn status_marker(&self) -> (marker: &'static str)
        ensures
            marker@ == (if self.is_current {
                "* "@
            } else {
                "  "@
            }),
    {
        if self.is_current {
            "* "
        } else {
            "  "
        }
    }

    /// The note behind a listed branch that has no commits.
    pub fn status_text(&self) -> (text: &'static str)
        ensures
            text@ == (if self.is_empty {
                "(no commits)"@
            } else {
                ""@
            }),
    {
        if self.is_empty {
            "(no commits)"
        } else {
            ""
        }
    }
}

/// The name that stands for the checked-out branch in a listing: that of
/// the branch which the reference names, and the word `detached` where it
/// names none.
pub open spec fn current_name(current_ref: Seq<char>) -> Seq<char> {
    match branch_of_ref(current_ref) {
        Some(name) => name,
        None => "detached"@,
    }
}

/// Whether a listed branch shows the branch `b` of an index in which the
/// reference `current_ref` is checked out: it is the current one just where
/// its name is the current name, and empty just where its head is forty
/// zeros.
pub open spec fn lists(info: BranchInfo, b: (Seq<char>, Seq<char>), current_ref: Seq<char>) -> bool {
    &&& info.name@ == b.0
    &&& info.head_commit@ == b.1
    &&& info.is_current == (b.0 == current_name(current_ref))
    &&& info.is_empty == (b.1 == empty_head())
}

/// The branches of a repository.
pub struct BranchService {
    /// The index that holds the branches.
    pub database: DatabaseManager,
}

impl BranchService {
    /// The service on the branches of `database`.
    pub fn new(database: DatabaseManager) -> (service: BranchService)
        ensures
            service.database == database,
    {
        BranchService { database }
    }

    /// Makes the branch `name` at the commit `commit_hash`, or at the newest
    /// commit where none is named. A name that is taken is refused as
    /// `Invalid`; without a commit to stand at, the answer is `NotFound`.
    pub fn create_branch(&mut self, name: &str, commit_hash: Option<&str>) -> (r: Result<
        (),
        FaiError,
    >)
        requires
            old(self).database.wf(),
        ensures
            final(self).database.wf(),
            ({
                let before = old(self).database@;
                let target = match commit_hash {
                    Some(hash) => Some(hash@),
                    None => if before.commits.len() > 0 {
                        Some(before.commits[0].hash)
                    } else {
                        None
                    },
                };
                match r {
                    Ok(_) => !has_branch(before.branches, name@) && target is Some && final(self).database@ == (IndexView {
                        branches: before.branches.push((name@, target->0)),
                        ..before
                    }),
                    Err(e) => final(self).database@ == before && if has_branch(
                        before.branches,
                        name@,
                    ) {
                        e == FaiError::Invalid
                    } else {
                        e == FaiError::NotFound && target is None
                    },
                }
            }),
    {
        if self.database.branch_exists(name) {
            return Err(FaiError::Invalid);
        }
        let target = match commit_hash {
            Some(hash) => hash.to_owned(),
            None => match self.database.get_head_commit() {
                Some(hash) => hash,
                None => {
                    return Err(FaiError::NotFound);
                },
            },
        };
        self.database.create_branch(name, target.as_str())
    }

    /// Removes the branch `name`. The branch that is checked out is not
    /// removed.
    pub fn delete_branch(&mut self, name: &str) -> (r: Result<(), FaiError>)
        requires
            old(self).database.wf(),
        ensures
            final(self).database.wf(),
            r is Ok ==> !has_branch(final(self).database@.branches, name@),
            ({
                let before = old(self).database@;
                match r {
                    Ok(_) => has_branch(before.branches, name@) && branch_of_ref(before.current_ref)
                        != Some(name@) && final(self).database@ == (IndexView {
                        branches: before.branches.remove(branch_index(before.branches, name@)),
                        ..before
                    }),
                    Err(e) => final(self).database@ == before && if has_branch(
                        before.branches,
                        name@,
                    ) {
                        e == FaiError::Invalid && branch_of_ref(before.current_ref) == Some(name@)
                    } else {
                        e == FaiError::NotFound
                    },
                }
            }),
    {
        self.database.delete_branch(name)
    }

    /// The branches as they are listed, in the order in which they were
    /// made. The current one is the branch whose name is that of the
    /// checked-out branch, or the word `detached` where no branch is checked
    /// out; so at most one branch is listed as current.
    pub fn list_branches(&self) -> (infos: Vec<BranchInfo>)
        requires
            self.database.wf(),
        ensures
            infos.len() == self.database@.branches.len(),
            forall|i: int|
                0 <= i < infos.len() ==> lists(
                    #[trigger] infos@[i],
                    self.database@.branches[i],
                    self.database@.current_ref,
                ),
            forall|i: int, j: int|
                0 <= i < j < infos.len() ==> !((#[trigger] infos@[i]).is_current && (
                #[trigger] infos@[j]).is_current),
    {
        let branches = self.database.list_branches();
        let current: String = match self.database.get_current_branch() {
            Ok(name) => name,
            Err(_) => "detached".to_owned(),
        };
        let mut infos: Vec<BranchInfo> = Vec::new();
        let mut i: usize = 0;
        while i < branches.len()
            invariant
                i <= branches.len(),
                infos.len() == i,
                crate::database::branches_view(branches@) == self.database@.branches,
                current@ == current_name(self.database@.current_ref),
                forall|k: int|
                    0 <= k < i ==> lists(
                        #[trigger] infos@[k],
                        self.database@.branches[k],
                        self.database@.current_ref,
                    ),
            decreases branches.len() - i,
        {
            assert(crate::database::branches_view(branches@)[i as int] == (
                branches@[i as int].0@,
                branches@[i as int].1@,
            ));
            let name = branches[i].0.clone();
            let head_commit = branches[i].1.clone();
            let is_current = str_eq(name.as_str(), current.as_str());
            let is_empty = str_eq(head_commit.as_str(), "0000000000000000000000000000000000000000");
            infos.push(BranchInfo { name, head_commit, is_current, is_empty });
            i += 1;
        }
        proof {
            let all = self.database@.branches;
            assert forall|i: int, j: int| 0 <= i < j < infos.len() implies !((
            #[trigger] infos@[i]).is_current && (#[trigger] infos@[j]).is_current) by {
                assert(lists(infos@[i], all[i], self.database@.current_ref));
                assert(lists(infos@[j], all[j], self.database@.current_ref));
                assert(all[i].0 != all[j].0);
            }
        }
        infos
    }

    /// Checks out the branch `name`.
    pub fn checkout_branch(&mut self, name: &str) -> (r: Result<(), FaiError>)
        requires
            old(self).database.wf(),
        ensures
            final(self).database.wf(),
            ({
                let before = old(self).database@;
                match r {
                    Ok(_) => has_branch(before.branches, name@) && final(self).database@
                        == (IndexView { current_ref: heads_prefix() + name@, ..before }),
                    Err(e) => e == FaiError::NotFound && !has_branch(before.branches, name@)
                        && final(self).database@ == before,
                }
            }),
    {
        if !self.database.branch_exists(name) {
            return Err(FaiError::NotFound);
        }
        let mut ref_name = "refs/heads/".to_owned();
        ref_name.append(name);
        self.database.set_current_ref(ref_name.as_str());
        Ok(())
    }

    /// The name of the branch that is checked out.
    pub fn get_current_branch(&self) -> (r: Result<String, FaiError>)
        ensures
            match branch_of_ref(self.database@.current_ref) {
                Some(name) => r matches Ok(found) && found@ == name,
                None => r == Err::<String, FaiError>(FaiError::NotFound),
            },
    {
        self.database.get_current_branch()
    }

    /// The head of the branch `name`, where there is such a branch.
    pub fn get_branch_head(&self, name: &str) -> (r: Option<String>)
        requires
            self.database.wf(),
        ensures
            match r {
                Some(head) => has_branch(self.database@.branches, name@) && head@
                    == self.database@.branches[branch_index(self.database@.branches, name@)].1,
                None => !has_branch(self.database@.branches, name@),
            },
    {
        self.database.get_branch_head(name)
    }

    /// Moves the head of the branch `name` to `commit_hash`.
    pub fn update_branch_head(&mut self, name: &str, commit_hash: &str) -> (r: Result<(), FaiError>)
        requires
            old(self).database.wf(),
        ensures
            final(self).database.wf(),
            ({
                let before = old(self).database@;
                match r {
                    Ok(_) => has_branch(before.branches, name@) && final(self).database@
                        == (IndexView {
                        branches: before.branches.update(
                            branch_index(before.branches, name@),
                            (name@, commit_hash@),
                        ),
                        ..before
                    }),
                    Err(e) => e == FaiError::NotFound && !has_branch(before.branches, name@)
                        && final(self).database@ == before,
                }
            }),
    {
        self.database.update_branch_head(name, commit_hash)
    }
}

} // verus!
