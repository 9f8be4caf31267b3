//! The decisions of the command line about branches.

use crate::database::{has_branch, IndexView};
use crate::error::FaiError;
use crate::services::branch_service::{BranchInfo, BranchService};
use vstd::prelude::*;
use vstd::string::StringExecFns;

verus! {

/// What a branch command did.
#[derive(Debug)]
pub enum BranchOutcome {
    /// The branches were listed.
    Listed(Vec<BranchInfo>),
    /// The branch of this name was removed.
    Deleted(String),
    /// The branch `name` was made at the commit `head`.
    Created { name: String, head: String },
    /// Nothing was asked for: the help is to be shown.
    Help,
}

/// The part of the command line that decides what a command does.
pub struct CliService {
    repo_path: String,
}

impl CliService {
    /// Where the repository is looked for.
    pub closed spec fn path(&self) -> Seq<char> {
        self.repo_path@
    }

    /// The service for the repository at `repo_path`.
    pub fn new(repo_path: &str) -> (service: CliService)
        ensures
            service.path() == repo_path@,
    {
        CliService { repo_path: repo_path.to_owned() }
    }

    /// Where the repository is looked for.
    pub fn repo_path(&self) -> (path: &str)
        ensures
            path@ == self.path(),
    {
        self.repo_path.as_str()
    }

    /// Whether a command may go on: it may not where the directory of the
    /// repository is not there, which is reported as `NotFound`.
    pub fn check_repo_initialized(&self, directory_is_there: bool) -> (r: Result<(), FaiError>)
        ensures
            r == (if directory_is_there {
                Ok::<(), FaiError>(())
            } else {
                Err::<(), FaiError>(FaiError::NotFound)
            }),
    {
        if directory_is_there {
            Ok(())
        } else {
            Err(FaiError::NotFound)
        }
    }

    /// Makes a new repository in the directory `.fai` under the path of the
    /// service. Where there is one already, the answer is `Invalid`.
    pub fn init_repo(&self, directory_is_there: bool) -> (r: Result<crate::FaiProtocol, FaiError>)
        ensures
            match r {
                Ok(repo) => !directory_is_there && repo.wf() && repo.path() == self.path()
                    + "/.fai"@ && repo.store()@ == Map::<Seq<char>, Seq<u8>>::empty()
                    && repo.index()@.commits.len() == 0 && repo.index()@.staging.len() == 0
                    && repo.head_text() == crate::repository::initial_head(),
                Err(e) => directory_is_there && e == FaiError::Invalid,
            },
    {
        if directory_is_there {
            return Err(FaiError::Invalid);
        }
        let mut path = self.repo_path.clone();
        path.append("/.fai");
        Ok(crate::FaiProtocol::new_at(path.as_str()))
    }

    /// Carries out a branch command on the branches of `service`: lists
    /// them where `list` is set; else removes the named branch where
    /// `delete` is set; else makes the named branch at the newest commit;
    /// and asks for the help where nothing is named.
    ///
    /// Without the directory of the repository the answer is `NotFound`. A
    /// removal without a name is `Invalid`. The rest fails as the branch
    /// service fails.
    pub fn handle_branch_command(
        &self,
        service: &mut BranchService,
        directory_is_there: bool,
        branch_name: Option<String>,
        delete: bool,
        list: bool,
    ) -> (r: Result<BranchOutcome, FaiError>)
        requires
            old(service).database.wf(),
        ensures
            final(service).database.wf(),
            ({
                let before = old(service).database@;
                let after = final(service).database@;
                if !directory_is_there {
                    r matches Err(e) && e == FaiError::NotFound && after == before
                } else if list {
                    r matches Ok(BranchOutcome::Listed(infos)) && after == before && infos.len()
                        == before.branches.len() && forall|i: int|
                        0 <= i < infos.len() ==> crate::services::branch_service::lists(
                            #[trigger] infos@[i],
                            before.branches[i],
                            before.current_ref,
                        )
                } else if delete {
                    match branch_name {
                        None => r matches Err(e) && e == FaiError::Invalid && after == before,
                        Some(wanted) => match r {
                            Ok(outcome) => outcome matches BranchOutcome::Deleted(name) && name@
                                == wanted@ && has_branch(before.branches, wanted@)
                                && crate::database::branch_of_ref(before.current_ref) != Some(
                                wanted@,
                            ) && after == (IndexView {
                                branches: before.branches.remove(
                                    crate::database::branch_index(before.branches, wanted@),
                                ),
                                ..before
                            }),
                            Err(e) => after == before && if has_branch(before.branches, wanted@) {
                                e == FaiError::Invalid && crate::database::branch_of_ref(
                                    before.current_ref,
                                ) == Some(wanted@)
                            } else {
                                e == FaiError::NotFound
                            },
                        },
                    }
                } else {
                    match branch_name {
                        None => r matches Ok(BranchOutcome::Help) && after == before,
                        Some(wanted) => match r {
                            Ok(outcome) => outcome matches BranchOutcome::Created { name, head }
                                && name@ == wanted@ && before.commits.len() > 0 && head@
                                == before.commits[0].hash && !has_branch(before.branches, wanted@)
                                && after == (IndexView {
                                branches: before.branches.push((wanted@, head@)),
                                ..before
                            }),
                            Err(e) => after == before && if before.commits.len() == 0 {
                                e == FaiError::NotFound
                            } else {
                                e == FaiError::Invalid && has_branch(before.branches, wanted@)
                            },
                        },
                    }
                }
            }),
    {
        match self.check_repo_initialized(directory_is_there) {
            Ok(_) => {},
            Err(e) => {
                return Err(e);
            },
        }
        if list {
            Ok(BranchOutcome::Listed(service.list_branches()))
        } else if delete {
            let name = match branch_name {
                Some(name) => name,
                None => {
                    return Err(FaiError::Invalid);
                },
            };
            match service.delete_branch(name.as_str()) {
                Ok(_) => Ok(BranchOutcome::Deleted(name)),
                Err(e) => Err(e),
            }
        } else {
            match branch_name {
                Some(name) => {
                    let head = match service.database.get_head_commit() {
                        Some(head) => head,
                        None => {
                            return Err(FaiError::NotFound);
                        },
                    };
                    match service.create_branch(name.as_str(), Some(head.as_str())) {
                        Ok(_) => Ok(BranchOutcome::Created { name, head }),
                        Err(e) => Err(e),
                    }
                },
                None => Ok(BranchOutcome::Help),
            }
        }
    }

    /// Makes the newest commit of `repo` anew, as `FaiProtocol::amend` does.
    /// Without the directory of the repository the answer is `NotFound`.
    pub fn handle_commit_amend(
        &self,
        repo: &mut crate::FaiProtocol,
        directory_is_there: bool,
        message: Option<&str>,
        timestamp: i64,
    ) -> (r: Result<String, FaiError>)
        requires
            old(repo).wf(),
        ensures
            final(repo).wf(),
            final(repo).store() == old(repo).store(),
            final(repo).path() == old(repo).path(),
            !directory_is_there ==> r == Err::<String, FaiError>(FaiError::NotFound) && final(repo).index() == old(repo).index() && final(repo).head_text() == old(repo).head_text(),
            directory_is_there ==> (match crate::amended(
                old(repo).index()@,
                match message {
                    Some(m) => Some(m@),
                    None => None,
                },
                timestamp,
            ) {
                Ok(c) => r matches Ok(digest) && digest@ == c.hash && final(repo).head_text()
                    == c.hash && final(repo).index()@ == (IndexView {
                    staging: Seq::<crate::entries::FileView>::empty(),
                    commits: crate::database::recorded(old(repo).index()@.commits, c),
                    branches: crate::moved(
                        old(repo).index()@.branches,
                        crate::database::branch_of_ref(old(repo).index()@.current_ref)->0,
                        c.hash,
                    ),
                    ..old(repo).index()@
                }),
                Err(e) => r matches Err(e2) && e2 == e && final(repo).index() == old(repo).index()
                    && final(repo).head_text() == old(repo).head_text(),
            }),
    {
        match self.check_repo_initialized(directory_is_there) {
            Ok(_) => {},
            Err(e) => {
                return Err(e);
            },
        }
        repo.amend(message, timestamp)
    }

    /// Checks out the branch `branch_name` of `service`.
    pub fn handle_checkout_command(
        &self,
        service: &mut BranchService,
        directory_is_there: bool,
        branch_name: &str,
    ) -> (r: Result<(), FaiError>)
        requires
            old(service).database.wf(),
        ensures
            final(service).database.wf(),
            match r {
                Ok(_) => directory_is_there && has_branch(
                    old(service).database@.branches,
                    branch_name@,
                ) && final(service).database@ == (IndexView {
                    current_ref: crate::database::heads_prefix() + branch_name@,
                    ..old(service).database@
                }),
                Err(e) => final(service).database@ == old(service).database@ && e
                    == FaiError::NotFound && (!directory_is_there || !has_branch(
                    old(service).database@.branches,
                    branch_name@,
                )),
            },
    {
        match self.check_repo_initialized(directory_is_there) {
            Ok(_) => {},
            Err(e) => {
                return Err(e);
            },
        }
        service.checkout_branch(branch_name)
    }
}

} // verus!
