//! `dlog task`: the task hierarchy, and the seal that needs no commit.
//!
//! A subagent seals at the end of its own task, so that its decisions survive when only a
//! summary returns to the parent. Sealing everything staged would also bind the parent's
//! decisions in progress to no commit, irreversibly; finishing a task seals exactly that
//! task's share.
use crate::cli::{TaskArgs, TaskCommand};
use crate::commands::compact::{summarize, summary_of, SUMMARY_MAX};
use crate::commands::{failure, AppError, AppErrorView};
use crate::laws::seal_in_lookup;
use crate::log::{complete_in, resolves, same_keys_hold, seal_in, ChangeView, Log, TaskRecordView};
use crate::model::{Binding, BindingView, StoredDecisionView};
use crate::queries::{completing_stamps_once, pending_are_staged, same_words, some_decision};
use crate::store::{
    id_taken, one_change, sealable, seals, selection, wrote_then, Store, StoreError, TaskRowView,
};
use crate::table::{ascending, holds, lookup, lookup_at, lookup_sound, Keyed};
use crate::text;
use vstd::prelude::*;

verus! {

/// The reply to a start.
#[derive(Debug, PartialEq, Eq)]
pub struct StartResult {
    pub id: String,
    pub parent_task_id: Option<String>,
    pub instruction: Option<String>,
}

/// The value of a `StartResult`.
pub ghost struct StartResultView {
    pub id: Seq<char>,
    pub parent_task_id: Option<Seq<char>>,
    pub instruction: Option<Seq<char>>,
}

impl DeepView for StartResult {
    type V = StartResultView;

    open spec fn deep_view(&self) -> StartResultView {
        StartResultView {
            id: self.id@,
            parent_task_id: self.parent_task_id.deep_view(),
            instruction: self.instruction.deep_view(),
        }
    }
}

impl View for StartResult {
    type V = StartResultView;

    open spec fn view(&self) -> StartResultView {
        self.deep_view()
    }
}

impl Clone for StartResult {
    fn clone(&self) -> (r: Self)
        ensures
            r@ == self@,
    {
        StartResult {
            id: self.id.clone(),
            parent_task_id: self.parent_task_id.clone(),
            instruction: self.instruction.clone(),
        }
    }
}

/// One task of a list.
#[derive(Debug, PartialEq, Eq)]
pub struct TaskOut {
    pub id: String,
    pub parent_task_id: Option<String>,
    pub instruction_summary: Option<String>,
    /// Decisions recorded under the task that are still unsealed.
    pub staged_count: u64,
    pub completed_at_ms: Option<i64>,
    pub created_at_ms: i64,
}

/// The value of a `TaskOut`.
pub ghost struct TaskOutView {
    pub id: Seq<char>,
    pub parent_task_id: Option<Seq<char>>,
    pub instruction_summary: Option<Seq<char>>,
    pub staged_count: u64,
    pub completed_at_ms: Option<i64>,
    pub created_at_ms: i64,
}

impl DeepView for TaskOut {
    type V = TaskOutView;

    open spec fn deep_view(&self) -> TaskOutView {
        TaskOutView {
            id: self.id@,
            parent_task_id: self.parent_task_id.deep_view(),
            instruction_summary: self.instruction_summary.deep_view(),
            staged_count: self.staged_count,
            completed_at_ms: self.completed_at_ms,
            created_at_ms: self.created_at_ms,
        }
    }
}

impl View for TaskOut {
    type V = TaskOutView;

    open spec fn view(&self) -> TaskOutView {
        self.deep_view()
    }
}

impl Clone for TaskOut {
    fn clone(&self) -> (r: Self)
        ensures
            r@ == self@,
    {
        TaskOut {
            id: self.id.clone(),
            parent_task_id: self.parent_task_id.clone(),
            instruction_summary: self.instruction_summary.clone(),
            staged_count: self.staged_count,
            completed_at_ms: self.completed_at_ms,
            created_at_ms: self.created_at_ms,
        }
    }
}

/// The reply to a finish. Like that of a bind, so that the two seals can be read alike.
#[derive(Debug, PartialEq, Eq)]
pub struct DoneResult {
    pub task: String,
    pub count: usize,
    pub sealed: Vec<String>,
    pub binding: Binding,
}

/// The reply.
#[derive(Debug, PartialEq, Eq)]
pub enum TaskReply {
    Started(StartResult),
    Listed(Vec<TaskOut>),
    Finished(DoneResult),
}

/// The failure for an unknown task.
pub open spec fn unknown_task(id: Seq<char>) -> AppErrorView {
    failure("unknown_task"@, "no task `"@ + id + "` in the store"@)
}

/// Refuses an unknown task id. Sealing nothing because of a typo would look like a task
/// that simply had nothing staged.
pub fn require_task(store: &Store, id: &str) -> (r: Result<(), AppError>)
    ensures
        match r {
            Ok(()) => holds(store@.tasks, id@),
            Err(e) => !holds(store@.tasks, id@) && e@ == unknown_task(id@),
        },
{
    if store.task_exists(id) {
        return Ok(());
    }
    let message = text::cat3("no task `", id, "` in the store");
    Err(AppError::new("unknown_task", message.as_str()))
}

/// Starts a task.
pub fn start(store: &mut Store, parent: Option<&str>, instruction: Option<&str>) -> (r: Result<
    StartResult,
    AppError,
>)
    requires
        old(store).wf(),
    ensures
        final(store).wf(),
        r matches Ok(reply) ==> resolves(old(store)@.tasks, parent.deep_view())
            && reply.parent_task_id.deep_view() == parent.deep_view() && reply.instruction.deep_view()
            == instruction.deep_view() && final(store).added_task(
            old(store),
            reply.id@,
            parent.deep_view(),
            instruction.deep_view(),
        ),
        r matches Err(e) ==> final(store).untouched(old(store)) && (if resolves(
            old(store)@.tasks,
            parent.deep_view(),
        ) {
            e@ == failure("store_error"@, StoreError::DuplicateTask.words()) && id_taken(
                old(store)@.tasks,
            )
        } else {
            e@ == unknown_task(parent.deep_view()->0)
        }),
{
    if let Some(above) = parent {
        if let Err(e) = require_task(store, above) {
            return Err(e);
        }
    }
    let made = store.insert_task(parent, instruction);
    match made {
        Ok(id) => {
            Ok(
                StartResult {
                    id,
                    parent_task_id: text::owned_opt(&parent),
                    instruction: text::owned_opt(&instruction),
                },
            )
        },
        Err(e) => Err(AppError::from_store(e)),
    }
}

/// The log once a task is finished: its pending decisions are sealed with no commit, and
/// the task is marked done unless it already was.
pub open spec fn finished(log: Log, task: Seq<char>, ms: i64) -> Log {
    Log {
        decisions: seal_in(log.decisions, log.staged_ids_of(task), BindingView::NoCommit),
        tasks: complete_in(log.tasks, task, ms),
        ..log
    }
}

/// What finishing a task writes: a seal for each of its pending decisions, then its
/// completion, unless it already was complete.
pub open spec fn finish_changes(log: Log, task: Seq<char>, ms: i64) -> Seq<ChangeView> {
    seals(log.staged_ids_of(task), BindingView::NoCommit) + (match lookup(log.tasks, task) {
        Some(t) if t.completed_at_ms is None => seq![
            ChangeView::CompleteTask { id: task, completed_at_ms: ms },
        ],
        _ => Seq::empty(),
    })
}

/// `after` is `before` once a task is finished, at some time: its decisions are sealed and
/// it is complete, and that is what was written, and all that was.
pub open spec fn finishes(before: &Store, after: &Store, task: Seq<char>) -> bool {
    exists|ms: i64|
        ms >= 0 && after@ == #[trigger] finished(before@, task, ms) && after.wrote(
            before,
            finish_changes(before@, task, ms),
        )
}

/// The pending decisions of a task can be sealed together.
proof fn own_decisions_sealable(log: Log, task: Seq<char>)
    requires
        log.ordered(),
    ensures
        sealable(log, log.staged_ids_of(task)),
        forall|id: Seq<char>| #[trigger]
            log.staged_ids_of(task).contains(id) <==> log.is_staged(id) && lookup(log.decisions, id)->0.task_id
                == Some(task),
{
    let p = |d: StoredDecisionView| d.staged && d.task_id == Some(task);
    let ids = log.staged_ids_of(task);
    selection(log.decisions, p);
    assert forall|i: int| 0 <= i < ids.len() implies log.is_staged(#[trigger] ids[i]) by {
        assert(ids.contains(ids[i]));
    }
}

/// Finishing a task leaves every decision of another task, and of none, as it is.
pub proof fn done_leaves_other_tasks(log: Log, task: Seq<char>, ms: i64, id: Seq<char>)
    requires
        log.ordered(),
        lookup(log.decisions, id) matches Some(d) && d.task_id != Some(task),
    ensures
        lookup(finished(log, task, ms).decisions, id) == lookup(log.decisions, id),
{
    own_decisions_sealable(log, task);
    seal_in_lookup(log.decisions, log.staged_ids_of(task), BindingView::NoCommit, id);
}

/// Finishing a task leaves it no pending decision.
pub proof fn done_strands_nothing(log: Log, task: Seq<char>, ms: i64, id: Seq<char>)
    requires
        log.ordered(),
        lookup(log.decisions, id) matches Some(d) && d.task_id == Some(task),
    ensures
        finished(log, task, ms).is_sealed(id),
{
    own_decisions_sealable(log, task);
    seal_in_lookup(log.decisions, log.staged_ids_of(task), BindingView::NoCommit, id);
    lookup_sound(log.decisions, id);
}

/// Finishes a task now.
pub fn done(store: &mut Store, task_id: &str) -> (r: Result<DoneResult, AppError>)
    requires
        old(store).wf(),
    ensures
        final(store).wf(),
        if holds(old(store)@.tasks, task_id@) {
            let ids = old(store)@.staged_ids_of(task_id@);
            (r matches Ok(reply) && reply.task@ == task_id@ && reply.sealed.deep_view() == ids
                && reply.count == ids.len() && reply.binding@ == BindingView::NoCommit) && finishes(
                old(store),
                final(store),
                task_id@,
            )
        } else {
            (r matches Err(e) && e@ == unknown_task(task_id@)) && final(store).untouched(old(store))
        },
{
    let ghost before = store@;
    if let Err(e) = require_task(store, task_id) {
        return Err(e);
    }
    let ids = store.staged_decision_ids_for_task(task_id);
    proof {
        own_decisions_sealable(before, task_id@);
        lookup_sound(before.tasks, task_id@);
    }
    let list = ids.as_slice();
    assert(list.deep_view() =~= ids.deep_view());
    // The ids are named even when there are none: otherwise everything staged would be
    // sealed, which is precisely what this must not do.
    let sealed = match store.seal_staged(&Binding::NoCommit, Some(list)) {
        Ok(sealed) => sealed,
        Err(e) => {
            return Err(AppError::from_store(e));
        },
    };
    let ghost middle = store@;
    let ghost between = *store;
    let ghost sealing = seals(before.staged_ids_of(task_id@), BindingView::NoCommit);
    assert(middle.tasks == before.tasks);
    let completed = store.complete_task(task_id);
    match completed {
        Ok(ms) => {
            proof {
                let t = lookup(before.tasks, task_id@)->0;
                match t.completed_at_ms {
                    Some(_) => {
                        already_done(before.tasks, task_id@, 0);
                        assert(store@ =~= finished(before, task_id@, 0));
                        assert(finish_changes(before, task_id@, 0) =~= sealing);
                    },
                    None => {
                        one_change(
                            middle,
                            ChangeView::CompleteTask { id: task_id@, completed_at_ms: ms },
                        );
                        assert(store@ =~= finished(before, task_id@, ms));
                        wrote_then(
                            old(store),
                            &between,
                            store,
                            sealing,
                            seq![ChangeView::CompleteTask { id: task_id@, completed_at_ms: ms }],
                        );
                        assert(finish_changes(before, task_id@, ms) =~= sealing + seq![
                            ChangeView::CompleteTask { id: task_id@, completed_at_ms: ms },
                        ]);
                    },
                }
            }
            assert(sealed.deep_view().len() == sealed@.len());
            Ok(
                DoneResult {
                    task: text::owned(task_id),
                    count: sealed.len(),
                    sealed,
                    binding: Binding::NoCommit,
                },
            )
        },
        Err(e) => Err(AppError::from_store(e)),
    }
}

/// A finished task is not marked again.
proof fn already_done(tasks: Seq<TaskRecordView>, id: Seq<char>, ms: i64)
    requires
        ascending(tasks),
        lookup(tasks, id) matches Some(t) && t.completed_at_ms is Some,
    ensures
        complete_in(tasks, id, ms) == tasks,
{
    lookup_sound(tasks, id);
    let k = tasks.index_of(lookup(tasks, id)->0);
    assert forall|i: int| 0 <= i < tasks.len() implies complete_in(tasks, id, ms)[i] == #[trigger] tasks[i] by {
        if tasks[i].id == id {
            crate::table::keys_unique(tasks, i, k);
        }
    }
    assert(complete_in(tasks, id, ms) =~= tasks);
}

/// A task as a list shows it.
pub open spec fn listed_task(t: TaskRowView) -> TaskOutView {
    TaskOutView {
        id: t.id,
        parent_task_id: t.parent_task_id,
        instruction_summary: match t.instruction {
            Some(s) => Some(summary_of(s, SUMMARY_MAX as nat)),
            None => None,
        },
        staged_count: t.staged_count,
        completed_at_ms: t.completed_at_ms,
        created_at_ms: t.created_at_ms,
    }
}

/// The tasks of a list, newest first: the open ones or all, under one parent or any.
pub open spec fn task_list(log: Log, all: bool, parent: Option<Seq<char>>) -> Seq<TaskOutView> {
    log.tasks.filter(
        |t: TaskRecordView|
            (all || t.completed_at_ms is None) && (parent is None || t.parent_task_id == parent),
    ).map_values(|t: TaskRecordView| log.task_row(t)).reverse().map_values(
        |t: TaskRowView| listed_task(t),
    )
}

/// A finished task is complete, and no longer listed among the open ones.
pub proof fn done_leaves_the_open_list(log: Log, task: Seq<char>, ms: i64, parent: Option<Seq<char>>)
    requires
        log.ordered(),
        holds(log.tasks, task),
    ensures
        lookup(finished(log, task, ms).tasks, task) matches Some(t) && t.completed_at_ms is Some,
        forall|i: int|
            0 <= i < task_list(finished(log, task, ms), false, parent).len() ==> (#[trigger] task_list(
                finished(log, task, ms),
                false,
                parent,
            )[i]).id != task,
{
    let next = finished(log, task, ms);
    let all = false;
    let p = |t: TaskRecordView|
        (all || t.completed_at_ms is None) && (parent is None || t.parent_task_id == parent);
    assert forall|i: int| 0 <= i < log.tasks.len() implies #[trigger] log.tasks[i].key()
        == next.tasks[i].key() by {}
    same_keys_hold(log.tasks, next.tasks);
    selection(next.tasks, p);
    let open = next.tasks.filter(p);
    let rows = task_list(next, all, parent);
    assert forall|i: int| 0 <= i < rows.len() implies (#[trigger] rows[i]).id != task by {
        let k = open.len() - 1 - i;
        assert(rows[i].id == open[k].id);
        assert(open.contains(open[k]));
        let j = next.tasks.index_of(open[k]);
        assert(next.tasks[j] == open[k]);
    }
    lookup_sound(log.tasks, task);
    let j = log.tasks.index_of(lookup(log.tasks, task)->0);
    assert(next.tasks[j].id == task && next.tasks[j].completed_at_ms is Some);
    lookup_at(next.tasks, j);
}

/// Lists tasks.
pub fn list(store: &Store, all: bool, parent: Option<&str>) -> (r: Vec<TaskOut>)
    ensures
        r.deep_view() == task_list(store@, all, parent.deep_view()),
{
    let rows = store.list_tasks(all, parent);
    let ghost s = rows.deep_view();
    let mut out: Vec<TaskOut> = Vec::new();
    for i in 0..rows.len()
        invariant
            s == rows.deep_view(),
            out.len() == i,
            forall|j: int| 0 <= j < i ==> (#[trigger] out[j]).deep_view() == listed_task(s[j]),
    {
        let t = &rows[i];
        assert(s[i as int] == t@);
        out.push(
            TaskOut {
                id: t.id.clone(),
                parent_task_id: t.parent_task_id.clone(),
                instruction_summary: match &t.instruction {
                    Some(text) => Some(summarize(text.as_str(), SUMMARY_MAX)),
                    None => None,
                },
                staged_count: t.staged_count,
                completed_at_ms: t.completed_at_ms,
                created_at_ms: t.created_at_ms,
            },
        );
    }
    let ghost p = parent.deep_view();
    assert(s == store@.tasks.filter(
        |t: TaskRecordView|
            (all || t.completed_at_ms is None) && (p is None || t.parent_task_id == p),
    ).map_values(|t: TaskRecordView| store@.task_row(t)).reverse());
    assert(out.deep_view() =~= task_list(store@, all, p));
    out
}

/// An optional string, borrowed.
fn borrowed(s: &Option<String>) -> (r: Option<&str>)
    ensures
        r.deep_view() == s.deep_view(),
{
    match s {
        Some(text) => Some(text.as_str()),
        None => None,
    }
}

/// Starts, lists or finishes.
pub fn run(store: &mut Store, args: &TaskArgs) -> (r: Result<TaskReply, AppError>)
    requires
        old(store).wf(),
    ensures
        final(store).wf(),
        match args.command {
            TaskCommand::Start { parent, instruction } => match r {
                Ok(TaskReply::Started(reply)) => resolves(old(store)@.tasks, parent.deep_view())
                    && reply.parent_task_id.deep_view() == parent.deep_view()
                    && reply.instruction.deep_view() == instruction.deep_view() && final(store).added_task(
                    old(store),
                    reply.id@,
                    parent.deep_view(),
                    instruction.deep_view(),
                ),
                Ok(_) => false,
                Err(e) => final(store).untouched(old(store)) && (if resolves(
                    old(store)@.tasks,
                    parent.deep_view(),
                ) {
                    e@ == failure("store_error"@, StoreError::DuplicateTask.words()) && id_taken(
                old(store)@.tasks,
            )
                } else {
                    e@ == unknown_task(parent.deep_view()->0)
                }),
            },
            TaskCommand::List { all, parent } => (r matches Ok(TaskReply::Listed(rows))
                && rows.deep_view() == task_list(old(store)@, all, parent.deep_view()))
                && final(store).untouched(old(store)),
            TaskCommand::Done { id } => if holds(old(store)@.tasks, id@) {
                (r matches Ok(TaskReply::Finished(reply)) && reply.task@ == id@
                    && reply.sealed.deep_view() == old(store)@.staged_ids_of(id@) && reply.count
                    == reply.sealed@.len() && reply.binding@ == BindingView::NoCommit) && finishes(
                    old(store),
                    final(store),
                    id@,
                )
            } else {
                (r matches Err(e) && e@ == unknown_task(id@)) && final(store).untouched(old(store))
            },
        },
{
    match &args.command {
        TaskCommand::Start { parent, instruction } => {
            match start(store, borrowed(parent), borrowed(instruction)) {
                Ok(reply) => Ok(TaskReply::Started(reply)),
                Err(e) => Err(e),
            }
        },
        TaskCommand::List { all, parent } => Ok(
            TaskReply::Listed(list(store, *all, borrowed(parent))),
        ),
        TaskCommand::Done { id } => match done(store, id.as_str()) {
            Ok(reply) => {
                assert(reply.sealed.deep_view().len() == reply.sealed@.len());
                Ok(TaskReply::Finished(reply))
            },
            Err(e) => Err(e),
        },
    }
}

/// One decision once a task is finished: a pending one of the task is sealed with no
/// commit, and every other is as it was; no word of any has changed.
pub proof fn done_seals_its_own(log: Log, task: Seq<char>, ms: i64, d: StoredDecisionView)
    requires
        log.ordered(),
        log.decisions.contains(d),
    ensures
        lookup(finished(log, task, ms).decisions, d.id) matches Some(e) && same_words(e, d) && if d.staged
            && d.task_id == Some(task) {
            !e.staged && e.binding == Some(BindingView::NoCommit)
        } else {
            e.staged == d.staged && e.binding == d.binding
        },
        finished(log, task, ms).invariants == log.invariants,
        holds(finished(log, task, ms).decisions, d.id),
{
    let ids = log.staged_ids_of(task);
    seal_in_lookup(log.decisions, ids, BindingView::NoCommit, d.id);
    lookup_at(log.decisions, log.decisions.index_of(d));
    pending_are_staged(log, task, d.id);
    let p = |x: StoredDecisionView| x.staged && x.task_id == Some(task);
    if d.staged && d.task_id == Some(task) {
        assert(log.decisions.contains(d) && p(d));
    } else if ids.contains(d.id) {
        let other = choose|x: StoredDecisionView| #[trigger] log.decisions.contains(x) && x.id == d.id && p(x);
        lookup_at(log.decisions, log.decisions.index_of(other));
    }
    lookup_sound(log.decisions, d.id);
}

/// Finishing a task stamps that task, unless it has a stamp, and no other.
pub proof fn done_stamps_its_own(log: Log, task: Seq<char>, ms: i64, t: TaskRecordView)
    requires
        log.ordered(),
        log.tasks.contains(t),
    ensures
        lookup(finished(log, task, ms).tasks, t.id) matches Some(u) && u.parent_task_id == t.parent_task_id
            && u.instruction == t.instruction && u.created_at_ms == t.created_at_ms && u.completed_at_ms == (
        if t.id == task && t.completed_at_ms is None {
            Some(ms)
        } else {
            t.completed_at_ms
        }),
{
    let next = finished(log, task, ms);
    let i = log.tasks.index_of(t);
    assert forall|k: int| 0 <= k < log.tasks.len() implies #[trigger] log.tasks[k].key()
        == next.tasks[k].key() by {
        completing_stamps_once(log.tasks, task, ms, k);
    }
    same_keys_hold(log.tasks, next.tasks);
    completing_stamps_once(log.tasks, task, ms, i);
    lookup_at(next.tasks, i);
}

/// Finishing a task writes a seal with no commit for each of its pending decisions and for
/// nothing else, and then its completion where it was open.
pub proof fn done_writes(log: Log, task: Seq<char>, ms: i64, id: Seq<char>, binding: BindingView)
    requires
        log.ordered(),
        holds(log.tasks, task),
    ensures
        finish_changes(log, task, ms).contains(ChangeView::Seal { id, binding }) <==> binding
            == BindingView::NoCommit && some_decision(
            log,
            id,
            |d: StoredDecisionView| d.staged && d.task_id == Some(task),
        ),
        (lookup(log.tasks, task)->0).completed_at_ms is None <==> finish_changes(log, task, ms).contains(
            ChangeView::CompleteTask { id: task, completed_at_ms: ms },
        ),
        forall|c: ChangeView| #[trigger]
            finish_changes(log, task, ms).contains(c) ==> c is Seal || c == (ChangeView::CompleteTask {
                id: task,
                completed_at_ms: ms,
            }),
{
    lookup_sound(log.tasks, task);
    pending_are_staged(log, task, id);
    let ids = log.staged_ids_of(task);
    let sealing = seals(ids, BindingView::NoCommit);
    let all = finish_changes(log, task, ms);
    let stamp = ChangeView::CompleteTask { id: task, completed_at_ms: ms };
    assert forall|c: ChangeView| #[trigger] all.contains(c) implies c is Seal || c == stamp by {
        let k = all.index_of(c);
        if k < sealing.len() {
            assert(all[k] == sealing[k]);
        }
    }
    if all.contains(ChangeView::Seal { id, binding }) {
        let k = all.index_of(ChangeView::Seal { id, binding });
        assert(k < sealing.len());
        assert(all[k] == sealing[k]);
        assert(ids[k] == id);
        assert(ids.contains(id));
    }
    if ids.contains(id) && binding == BindingView::NoCommit {
        let k = ids.index_of(id);
        assert(all[k] == sealing[k]);
    }
    if (lookup(log.tasks, task)->0).completed_at_ms is None {
        assert(all[sealing.len() as int] == stamp);
    } else if all.contains(stamp) {
        let k = all.index_of(stamp);
        assert(all[k] == sealing[k]);
    }
}

/// A task is listed where the log has it, it is open or all are asked for, and it stands
/// under the parent that was named, where one was; newest first, and with what was stored
/// of it.
pub proof fn task_list_is_exact(log: Log, all: bool, parent: Option<Seq<char>>, task: Seq<char>)
    requires
        log.ordered(),
    ensures
        (exists|i: int|
            0 <= i < task_list(log, all, parent).len() && (#[trigger] task_list(log, all, parent)[i]).id == task)
            <==> exists|t: TaskRecordView| #[trigger]
            log.tasks.contains(t) && t.id == task && (all || t.completed_at_ms is None) && (parent is None
                || t.parent_task_id == parent),
        forall|i: int|
            0 <= i < task_list(log, all, parent).len() ==> tells_task(
                log,
                #[trigger] task_list(log, all, parent)[i],
            ),
        forall|i: int, j: int|
            #![trigger task_list(log, all, parent)[i], task_list(log, all, parent)[j]]
            0 <= i < j < task_list(log, all, parent).len() ==> text::lex_lt(
                task_list(log, all, parent)[j].id,
                task_list(log, all, parent)[i].id,
            ),
{
    let p = |t: TaskRecordView|
        (all || t.completed_at_ms is None) && (parent is None || t.parent_task_id == parent);
    selection(log.tasks, p);
    let kept = log.tasks.filter(p);
    let rows = task_list(log, all, parent);
    let n = kept.len() as int;
    assert(rows.len() == n);
    assert forall|i: int| 0 <= i < n implies tells_task(log, #[trigger] rows[i]) && rows[i].id == kept[n - 1
        - i].id by {
        let t = kept[n - 1 - i];
        assert(kept.contains(t));
        assert(rows[i] == listed_task(log.task_row(t)));
        assert(log.tasks.contains(t));
    }
    assert forall|i: int, j: int|
        #![trigger rows[i], rows[j]]
        0 <= i < j < n implies text::lex_lt(rows[j].id, rows[i].id) by {
        assert(text::lex_lt(kept[n - 1 - j].key(), kept[n - 1 - i].key()));
    }
    if exists|i: int| 0 <= i < rows.len() && (#[trigger] rows[i]).id == task {
        let i = choose|i: int| 0 <= i < rows.len() && (#[trigger] rows[i]).id == task;
        let t = kept[n - 1 - i];
        assert(kept.contains(t));
        assert(log.tasks.contains(t) && p(t));
    }
    if exists|t: TaskRecordView| #[trigger]
        log.tasks.contains(t) && t.id == task && (all || t.completed_at_ms is None) && (parent is None
            || t.parent_task_id == parent) {
        let t = choose|t: TaskRecordView| #[trigger]
            log.tasks.contains(t) && t.id == task && (all || t.completed_at_ms is None) && (parent is None
                || t.parent_task_id == parent);
        assert(p(t));
        assert(kept.contains(t));
        assert(rows[n - 1 - kept.index_of(t)].id == task);
    }
}

/// A row of a list tells of a task what the log has, with the first line of its
/// instruction, and how many of its decisions are pending.
pub open spec fn tells_task(log: Log, row: TaskOutView) -> bool {
    exists|t: TaskRecordView| #[trigger]
        log.tasks.contains(t) && t.id == row.id && t.parent_task_id == row.parent_task_id
            && t.completed_at_ms == row.completed_at_ms && t.created_at_ms == row.created_at_ms
            && row.staged_count == log.staged_of(t.id).len() as u64 && row.instruction_summary == (
        match t.instruction {
            Some(s) => Some(summary_of(s, 140)),
            None => None,
        })
}

} // verus!
