//! `dlog status`: store-wide state.
//!
//! Reports the workspace that was resolved (which store is answering, and why that
//! directory is the root), the unsealed staging and the schema version. Unfinished tasks
//! that still hold staged decisions are named: which tasks, how much, how old.
use crate::commands::compact::{summarize, summary_of, SUMMARY_MAX};
use crate::commands::{RootSource, Workspace};
use crate::log::Log;
use crate::store::{oldest, Store, StoreStatus, StrandedTaskView, SCHEMA_VERSION};
use vstd::prelude::*;

verus! {

/// How many stranded tasks are named. The full count is reported beside them.
pub const STRANDED_LIMIT: usize = 20;

/// One stranded task, in compact form.
#[derive(Debug, PartialEq, Eq)]
pub struct StrandedOut {
    pub task: String,
    pub instruction_summary: Option<String>,
    pub staged_count: u64,
    /// Oldest unsealed decision under the task, epoch milliseconds.
    pub oldest_staged_ms: i64,
}

/// The value of a `StrandedOut`.
pub ghost struct StrandedOutView {
    pub task: Seq<char>,
    pub instruction_summary: Option<Seq<char>>,
    pub staged_count: u64,
    pub oldest_staged_ms: i64,
}

impl DeepView for StrandedOut {
    type V = StrandedOutView;

    open spec fn deep_view(&self) -> StrandedOutView {
        StrandedOutView {
            task: self.task@,
            instruction_summary: self.instruction_summary.deep_view(),
            staged_count: self.staged_count,
            oldest_staged_ms: self.oldest_staged_ms,
        }
    }
}

impl View for StrandedOut {
    type V = StrandedOutView;

    open spec fn view(&self) -> StrandedOutView {
        self.deep_view()
    }
}

impl Clone for StrandedOut {
    fn clone(&self) -> (r: Self)
        ensures
            r@ == self@,
    {
        StrandedOut {
            task: self.task.clone(),
            instruction_summary: self.instruction_summary.clone(),
            staged_count: self.staged_count,
            oldest_staged_ms: self.oldest_staged_ms,
        }
    }
}

/// The reply: the workspace, then the state of the store.
#[derive(Debug, PartialEq, Eq)]
pub struct StatusResult {
    pub root: String,
    pub db: String,
    /// How the root was found. Without this a split store is invisible.
    pub root_source: RootSource,
    pub store: StoreStatus,
    /// Unfinished tasks holding staged decisions, newest first.
    pub stranded_tasks: Vec<StrandedOut>,
}

/// A stranded task in compact form.
pub open spec fn stranded_out(t: StrandedTaskView) -> StrandedOutView {
    StrandedOutView {
        task: t.task,
        instruction_summary: match t.instruction {
            Some(s) => Some(summary_of(s, SUMMARY_MAX as nat)),
            None => None,
        },
        staged_count: t.staged_count,
        oldest_staged_ms: t.oldest_staged_ms,
    }
}

/// The stranded tasks that are named: the newest, up to the limit.
pub open spec fn named_stranded(log: Log) -> Seq<StrandedOutView> {
    let all = log.stranded();
    all.take(
        if STRANDED_LIMIT < all.len() {
            STRANDED_LIMIT as int
        } else {
            all.len() as int
        },
    ).map_values(|t: StrandedTaskView| stranded_out(t))
}

/// Names the stranded tasks.
pub fn stranded(store: &Store) -> (r: Vec<StrandedOut>)
    ensures
        r.deep_view() == named_stranded(store@),
{
    let rows = store.stranded_tasks(STRANDED_LIMIT);
    let ghost s = rows.deep_view();
    let mut out: Vec<StrandedOut> = Vec::new();
    for i in 0..rows.len()
        invariant
            s == rows.deep_view(),
            out.len() == i,
            forall|j: int| 0 <= j < i ==> (#[trigger] out[j]).deep_view() == stranded_out(s[j]),
    {
        let t = &rows[i];
        assert(s[i as int] == t@);
        out.push(
            StrandedOut {
                task: t.task.clone(),
                instruction_summary: match &t.instruction {
                    Some(text) => Some(summarize(text.as_str(), SUMMARY_MAX)),
                    None => None,
                },
                staged_count: t.staged_count,
                oldest_staged_ms: t.oldest_staged_ms,
            },
        );
    }
    assert(out.deep_view() =~= named_stranded(store@));
    out
}

/// Reports the state of the workspace and its store.
pub fn run(store: &Store, workspace: &Workspace) -> (r: StatusResult)
    ensures
        r.root@ == workspace.root@,
        r.db@ == workspace.db@,
        r.root_source == workspace.root_source,
        r.store.staging_count == store@.staging().len(),
        r.store.oldest_staged_ms == oldest(store@.staging()),
        r.store.stranded_task_count == store@.stranded().len(),
        r.store.schema_version == SCHEMA_VERSION,
        r.stranded_tasks.deep_view() == named_stranded(store@),
{
    StatusResult {
        root: workspace.root.clone(),
        db: workspace.db.clone(),
        root_source: workspace.root_source,
        store: store.status(),
        stranded_tasks: stranded(store),
    }
}

/// The newest stranded tasks are named, at most 20, each with its count and the time of its
/// oldest pending decision, and with the first line of its instruction.
pub proof fn newest_stranded_are_named(log: Log, i: int)
    requires
        0 <= i < log.stranded().len(),
    ensures
        named_stranded(log).len() == (if log.stranded().len() > 20 {
            20
        } else {
            log.stranded().len() as int
        }),
        i < 20 ==> named_stranded(log)[i].task == log.stranded()[i].task && named_stranded(log)[i].staged_count
            == log.stranded()[i].staged_count && named_stranded(log)[i].oldest_staged_ms
            == log.stranded()[i].oldest_staged_ms && named_stranded(log)[i].instruction_summary == (
        match log.stranded()[i].instruction {
            Some(s) => Some(summary_of(s, 140)),
            None => None,
        }),
{
}

} // verus!
