//! `dlog commit`: after a `git commit`, seals staged decisions to the new commit.
//!
//! The commit is made first; only on success is its HEAD read and staging sealed to it, so
//! staging is never sealed to a commit that did not happen.
use crate::cli::CommitArgs;
use crate::commands::bind::{only_named, only_seals, targets, targets_are_sealed};
use crate::commands::{clean_sha, failure, AppError, AppErrorView};
use crate::log::{seal_in, Log};
use crate::model::{Binding, BindingView};
use crate::store::{sealable, seals, Store, StoreError};
use crate::text::{self, trimmed};
use vstd::prelude::*;

verus! {

/// The reply.
#[derive(Debug, PartialEq, Eq)]
pub struct CommitResult {
    pub sha: String,
    pub count: usize,
    pub sealed: Vec<String>,
}

/// Seals staged decisions to a commit.
pub fn seal_to_commit(store: &mut Store, sha: &str, only: Option<&[String]>) -> (r: Result<
    CommitResult,
    StoreError,
>)
    requires
        old(store).wf(),
    ensures
        final(store).wf(),
        r is Ok <==> (only.deep_view() matches Some(list) ==> sealable(old(store)@, list)),
        match r {
            Ok(reply) => {
                let ids = match only.deep_view() {
                    Some(list) => list,
                    None => old(store)@.staged_ids(),
                };
                let binding = BindingView::Commit { sha: sha@ };
                &&& reply.sha@ == sha@
                &&& reply.count == ids.len()
                &&& reply.sealed.deep_view() == ids
                &&& final(store).wrote(old(store), seals(ids, binding))
                &&& final(store)@ == (Log {
                    decisions: seal_in(old(store)@.decisions, ids, binding),
                    ..old(store)@
                })
            },
            Err(e) => e == StoreError::NothingChanged && final(store).untouched(old(store)),
        },
{
    let binding = Binding::Commit { sha: text::owned(sha) };
    match store.seal_staged(&binding, only) {
        Ok(sealed) => {
            assert(sealed.deep_view().len() == sealed@.len());
            Ok(CommitResult { sha: text::owned(sha), count: sealed.len(), sealed })
        },
        Err(e) => Err(e),
    }
}

/// What `git commit` came to.
#[derive(Debug, PartialEq, Eq)]
pub enum GitCommit {
    /// It could not be run, and why.
    Unavailable(String),
    /// It failed, with this on stderr.
    Failed(String),
    /// It succeeded; what `git rev-parse HEAD` printed afterwards, where it could be read.
    Done(Option<String>),
}

/// The failure of a commit that did not happen, if it did not.
pub open spec fn commit_failure(git: GitCommit) -> Option<AppErrorView> {
    match git {
        GitCommit::Unavailable(why) => Some(failure("git_unavailable"@, why@)),
        GitCommit::Failed(stderr) => Some(
            failure(
                "git_commit_failed"@,
                if trimmed(stderr@).len() == 0 {
                    "git commit failed"@
                } else {
                    trimmed(stderr@)
                },
            ),
        ),
        GitCommit::Done(head) => if head is Some && trimmed(head->0@).len() > 0 {
            None
        } else {
            Some(failure("git_no_head"@, "could not read HEAD after commit"@))
        },
    }
}

/// Reads the commit that git made, or reports why there is none.
pub fn committed_sha(git: &GitCommit) -> (r: Result<String, AppError>)
    ensures
        match commit_failure(*git) {
            Some(e) => r matches Err(f) && f@ == e,
            None => r matches Ok(sha) && sha@ == trimmed(git->Done_0->0@),
        },
{
    let head = match git {
        GitCommit::Unavailable(why) => {
            return Err(AppError::new("git_unavailable", why.as_str()));
        },
        GitCommit::Failed(stderr) => {
            let said = text::trim(stderr.as_str());
            if text::char_count(said.as_str()) == 0 {
                return Err(AppError::new("git_commit_failed", "git commit failed"));
            }
            return Err(AppError::new("git_commit_failed", said.as_str()));
        },
        GitCommit::Done(head) => head,
    };
    let sha = match head {
        Some(printed) => clean_sha(printed.as_str()),
        None => None,
    };
    match sha {
        Some(sha) => Ok(sha),
        None => Err(AppError::new("git_no_head", "could not read HEAD after commit")),
    }
}

/// Seals staging to the commit that git made, or reports why there is none.
pub fn run(store: &mut Store, args: &CommitArgs, git: &GitCommit) -> (r: Result<CommitResult, AppError>)
    requires
        old(store).wf(),
    ensures
        final(store).wf(),
        match commit_failure(*git) {
            Some(e) => (r matches Err(f) && f@ == e) && final(store).untouched(old(store)),
            None => {
                let sha = trimmed(git->Done_0->0@);
                let ids = targets(old(store)@, args.decisions.deep_view());
                let binding = BindingView::Commit { sha };
                if args.decisions@.len() == 0 || sealable(old(store)@, args.decisions.deep_view()) {
                    (r matches Ok(reply) && reply.sha@ == sha && reply.count == ids.len()
                        && reply.sealed.deep_view() == ids) && only_seals(
                        old(store)@,
                        final(store)@,
                        args.decisions.deep_view(),
                        BindingView::Commit { sha: trimmed(git->Done_0->0@) },
                    ) && final(store).wrote(old(store), seals(ids, binding))
                } else {
                    (r matches Err(f) && f@ == failure(
                        "store_error"@,
                        StoreError::NothingChanged.words(),
                    )) && final(store).untouched(old(store))
                }
            },
        },
{
    let sha = match committed_sha(git) {
        Ok(sha) => sha,
        Err(e) => {
            return Err(e);
        },
    };
    match seal_to_commit(store, sha.as_str(), only_named(&args.decisions)) {
        Ok(reply) => {
            proof {
                targets_are_sealed(
                    old(store)@,
                    args.decisions.deep_view(),
                    BindingView::Commit { sha: sha@ },
                );
            }
            Ok(reply)
        },
        Err(e) => Err(AppError::from_store(e)),
    }
}

// ---- Laws -------------------------------------------------------------------

/// Nothing is sealed unless git made a commit and its HEAD could be read; and then the
/// failure is what git said, or that there is no HEAD.
pub proof fn only_commits_seal(git: GitCommit)
    ensures
        commit_failure(git) is None <==> (git matches GitCommit::Done(Some(head)) && trimmed(head@).len() > 0),
        git matches GitCommit::Unavailable(why) ==> commit_failure(git) == Some(
            failure("git_unavailable"@, why@),
        ),
        git matches GitCommit::Failed(stderr) ==> (trimmed(stderr@).len() > 0 ==> commit_failure(git) == Some(
            failure("git_commit_failed"@, trimmed(stderr@)),
        )),
{
}

} // verus!
