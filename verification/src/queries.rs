//! What the queries of a log answer and what its writes do, said row by row.
use crate::laws::seal_in_lookup;
use crate::log::{
    additions_insert, admits, bound_iff_sealed, complete_in, fresh_of, is_first, landed, merge_adds_first,
    merge_holds, merge_inserts_fresh, resolves, seal_in, staged_from, ChangeView, InvariantRecordView, Log, TaskRecordView,
};
use crate::model::{BindingView, NewDecisionView, StoredDecisionView};
use crate::store::{
    files_under, new_invariant, new_task, oldest_is_least, paired, pairs_under, sealable, selection,
    SinceBoundView,
};
use crate::table::{
    ascending, holds, ids_where, insert_row_lookup, keys_unique, lookup, lookup_at, lookup_sound, Keyed,
};
use crate::text::lex_lt;
use vstd::prelude::*;

verus! {

/// The log has a decision `id` that meets `p`.
pub open spec fn some_decision(log: Log, id: Seq<char>, p: spec_fn(StoredDecisionView) -> bool) -> bool {
    exists|d: StoredDecisionView| #[trigger] log.decisions.contains(d) && d.id == id && p(d)
}

/// Each id once, an earlier one before a later one.
pub open spec fn oldest_first(ids: Seq<Seq<char>>) -> bool {
    forall|i: int, j: int| 0 <= i < j < ids.len() ==> lex_lt(#[trigger] ids[i], #[trigger] ids[j])
}

proof fn ids_are_exact(log: Log, q: spec_fn(StoredDecisionView) -> bool, id: Seq<char>)
    requires
        log.ordered(),
    ensures
        ids_where(log.decisions, q).contains(id) <==> some_decision(log, id, q),
        oldest_first(ids_where(log.decisions, q)),
{
    selection(log.decisions, q);
    let s = log.decisions.filter(q);
    let ids = ids_where(log.decisions, q);
    if ids.contains(id) {
        let d = s[ids.index_of(id)];
        assert(s.contains(d));
        assert(log.decisions.contains(d) && d.id == id && q(d));
    }
    if some_decision(log, id, q) {
        let d = choose|d: StoredDecisionView| #[trigger] log.decisions.contains(d) && d.id == id && q(d);
        assert(s.contains(d));
        assert(ids[s.index_of(d)] == id);
    }
    assert forall|i: int, j: int| 0 <= i < j < ids.len() implies lex_lt(
        #[trigger] ids[i],
        #[trigger] ids[j],
    ) by {
        assert(ids[i] == s[i].key() && ids[j] == s[j].key());
    }
}

proof fn same_decisions(
    log: Log,
    id: Seq<char>,
    p: spec_fn(StoredDecisionView) -> bool,
    q: spec_fn(StoredDecisionView) -> bool,
)
    requires
        forall|d: StoredDecisionView| #[trigger] p(d) == q(d),
    ensures
        some_decision(log, id, p) == some_decision(log, id, q),
{
    if some_decision(log, id, p) {
        let d = choose|d: StoredDecisionView| #[trigger] log.decisions.contains(d) && d.id == id && p(d);
        assert(log.decisions.contains(d) && q(d));
    }
    if some_decision(log, id, q) {
        let d = choose|d: StoredDecisionView| #[trigger] log.decisions.contains(d) && d.id == id && q(d);
        assert(log.decisions.contains(d) && p(d));
    }
}

// ---- Decisions --------------------------------------------------------------

/// Pending are the staged decisions, and those of a task are the staged ones that name it;
/// each once, oldest first.
pub proof fn pending_are_staged(log: Log, task: Seq<char>, id: Seq<char>)
    requires
        log.ordered(),
    ensures
        log.staged_ids().contains(id) <==> some_decision(log, id, |d: StoredDecisionView| d.staged),
        oldest_first(log.staged_ids()),
        log.staged_ids_of(task).contains(id) <==> some_decision(
            log,
            id,
            |d: StoredDecisionView| d.staged && d.task_id == Some(task),
        ),
        oldest_first(log.staged_ids_of(task)),
{
    ids_are_exact(log, |d: StoredDecisionView| d.staged, id);
    ids_are_exact(log, |d: StoredDecisionView| d.staged && d.task_id == Some(task), id);
}

/// The sealed decisions from a bound on: all that are not staged; those with the bound's
/// id or a later one; or those recorded at the bound's time or later. Oldest first.
pub proof fn sealed_from_a_bound(log: Log, from: Seq<char>, ms: i64, id: Seq<char>)
    requires
        log.ordered(),
    ensures
        log.sealed_ids(None).contains(id) <==> some_decision(log, id, |d: StoredDecisionView| !d.staged),
        log.sealed_ids(Some(SinceBoundView::Id(from))).contains(id) <==> some_decision(
            log,
            id,
            |d: StoredDecisionView| !d.staged && (d.id == from || lex_lt(from, d.id)),
        ),
        log.sealed_ids(Some(SinceBoundView::Ms(ms))).contains(id) <==> some_decision(
            log,
            id,
            |d: StoredDecisionView| !d.staged && d.created_at_ms >= ms,
        ),
        oldest_first(log.sealed_ids(None)),
        oldest_first(log.sealed_ids(Some(SinceBoundView::Id(from)))),
        oldest_first(log.sealed_ids(Some(SinceBoundView::Ms(ms)))),
{
    bound_selects(log, None, |d: StoredDecisionView| !d.staged, id);
    bound_selects(
        log,
        Some(SinceBoundView::Id(from)),
        |d: StoredDecisionView| !d.staged && (d.id == from || lex_lt(from, d.id)),
        id,
    );
    bound_selects(
        log,
        Some(SinceBoundView::Ms(ms)),
        |d: StoredDecisionView| !d.staged && d.created_at_ms >= ms,
        id,
    );
}

proof fn bound_selects(
    log: Log,
    since: Option<SinceBoundView>,
    p: spec_fn(StoredDecisionView) -> bool,
    id: Seq<char>,
)
    requires
        log.ordered(),
        forall|d: StoredDecisionView| #[trigger]
            p(d) == (!d.staged && crate::store::since_admits(since, d)),
    ensures
        log.sealed_ids(since).contains(id) <==> some_decision(log, id, p),
        oldest_first(log.sealed_ids(since)),
{
    let q = |d: StoredDecisionView| !d.staged && crate::store::since_admits(since, d);
    ids_are_exact(log, q, id);
    same_decisions(log, id, p, q);
}

/// A decision is superseded where another names it so.
pub proof fn superseded_by_name(log: Log, id: Seq<char>)
    ensures
        log.is_superseded(id) <==> exists|d: StoredDecisionView| #[trigger]
            log.decisions.contains(d) && d.supersedes == Some(id),
{
    if log.is_superseded(id) {
        let i = choose|i: int|
            0 <= i < log.decisions.len() && (#[trigger] log.decisions[i]).supersedes == Some(id);
        assert(log.decisions.contains(log.decisions[i]));
    }
    if exists|d: StoredDecisionView| #[trigger] log.decisions.contains(d) && d.supersedes == Some(id) {
        let d = choose|d: StoredDecisionView| #[trigger]
            log.decisions.contains(d) && d.supersedes == Some(id);
        assert(log.decisions[log.decisions.index_of(d)].supersedes == Some(id));
    }
}

/// Two decisions say the same: everything but their lifecycle.
pub open spec fn same_words(a: StoredDecisionView, b: StoredDecisionView) -> bool {
    &&& a.id == b.id
    &&& a.task_id == b.task_id
    &&& a.agent == b.agent
    &&& a.conversation_id == b.conversation_id
    &&& a.rationale == b.rationale
    &&& a.rejected == b.rejected
    &&& a.caused_by == b.caused_by
    &&& a.supersedes == b.supersedes
    &&& a.anchors == b.anchors
    &&& a.created_at_ms == b.created_at_ms
}

/// Sealing binds the staged decisions that are named, and nothing else; no word of any
/// decision changes.
pub proof fn sealing_binds(s: Seq<StoredDecisionView>, ids: Seq<Seq<char>>, binding: BindingView, i: int)
    requires
        0 <= i < s.len(),
    ensures
        seal_in(s, ids, binding).len() == s.len(),
        same_words(seal_in(s, ids, binding)[i], s[i]),
        s[i].staged && ids.contains(s[i].id) ==> !seal_in(s, ids, binding)[i].staged && seal_in(
            s,
            ids,
            binding,
        )[i].binding == Some(binding),
        !s[i].staged || !ids.contains(s[i].id) ==> seal_in(s, ids, binding)[i] == s[i],
{
}

/// A staged decision has the words it was recorded with, and no binding yet.
pub proof fn staging_keeps_words(n: NewDecisionView, id: Seq<char>, ms: i64)
    ensures
        ({
            let d = staged_from(n, id, ms);
            &&& d.id == id
            &&& d.created_at_ms == ms
            &&& d.staged
            &&& d.binding is None
            &&& d.task_id == n.task_id
            &&& d.agent == n.agent
            &&& d.conversation_id == n.conversation_id
            &&& d.rationale == n.rationale
            &&& d.rejected == n.rejected
            &&& d.caused_by == n.caused_by
            &&& d.supersedes == n.supersedes
            &&& d.anchors == n.anchors
        }),
{
}

// ---- Files ------------------------------------------------------------------

/// A file lies at a path or under it: it is the path, or starts with the path and a `/`;
/// everything lies under `.`.
pub open spec fn lies_under(file: Seq<char>, path: Seq<char>) -> bool {
    ||| path == seq!['.']
    ||| file == path
    ||| exists|rest: Seq<char>| file == #[trigger] (path + seq!['/'] + rest)
}

/// A path covers what lies at it or under it.
pub proof fn covers_is_under(path: Seq<char>, file: Seq<char>)
    ensures
        crate::store::covers(path, file) == lies_under(file, path),
{
    reveal_strlit(".");
    reveal_strlit("/");
    assert("."@ =~= seq!['.']);
    assert("/"@ =~= seq!['/']);
    let lead = path + seq!['/'];
    if crate::text::has_prefix(file, lead) {
        assert(file =~= path + seq!['/'] + file.skip(lead.len() as int));
    }
    if exists|rest: Seq<char>| file == #[trigger] (path + seq!['/'] + rest) {
        let rest = choose|rest: Seq<char>| file == #[trigger] (path + seq!['/'] + rest);
        assert(file.take(lead.len() as int) =~= lead);
    }
}

proof fn files_are_named(anchors: Seq<crate::model::AnchorView>, path: Seq<char>, file: Seq<char>)
    ensures
        files_under(anchors, path).contains(file) <==> lies_under(file, path) && exists|
            a: crate::model::AnchorView,
        | #[trigger]
            anchors.contains(a) && a.file == file,
        files_under(anchors, path).no_duplicates(),
    decreases anchors.len(),
{
    let all = files_under(anchors, path);
    if anchors.len() > 0 {
        let front = anchors.drop_last();
        let last = anchors.last();
        files_are_named(front, path, file);
        covers_is_under(path, last.file);
        let some = files_under(front, path);
        assert(anchors[anchors.len() - 1] == last && anchors.contains(last));
        assert(all == some || all == some.push(last.file));
        if all.contains(file) {
            if some.contains(file) {
                let a = choose|a: crate::model::AnchorView| #[trigger] front.contains(a) && a.file == file;
                assert(anchors[front.index_of(a)] == a && anchors.contains(a));
            } else {
                let k = all.index_of(file);
                assert(k < some.len() ==> some[k] == file);
                assert(file == last.file);
            }
        }
        if lies_under(file, path) && exists|a: crate::model::AnchorView| #[trigger]
            anchors.contains(a) && a.file == file {
            let a = choose|a: crate::model::AnchorView| #[trigger] anchors.contains(a) && a.file == file;
            let k = anchors.index_of(a);
            if k < front.len() {
                assert(front[k] == a && front.contains(a));
            }
            if some.contains(file) {
                assert(all[some.index_of(file)] == file);
            } else {
                assert(file == last.file);
                assert(all[some.len() as int] == file);
            }
        }
        if all != some {
            assert forall|i: int, j: int| 0 <= i < all.len() && 0 <= j < all.len() && i != j implies all[i]
                != all[j] by {
                if i < some.len() && j < some.len() {
                    assert(some[i] != some[j]);
                } else if i < some.len() {
                    assert(some.contains(some[i]));
                } else {
                    assert(some.contains(some[j]));
                }
            }
        }
    } else {
        assert(all =~= Seq::empty());
    }
}

/// A file and a decision are paired under a path where the decision has an anchor on the
/// file and the file lies there; each pair once.
pub proof fn pairs_are_anchored(decisions: Seq<StoredDecisionView>, path: Seq<char>, pair: (Seq<char>, Seq<char>))
    requires
        ascending(decisions),
    ensures
        pairs_under(decisions, path).contains(pair) <==> lies_under(pair.0, path) && exists|
            d: StoredDecisionView,
            a: crate::model::AnchorView,
        |
            #![trigger decisions.contains(d), d.anchors.contains(a)]
            decisions.contains(d) && d.id == pair.1 && d.anchors.contains(a) && a.file == pair.0,
        pairs_under(decisions, path).no_duplicates(),
        forall|i: int, j: int|
            0 <= i < j < pairs_under(decisions, path).len() ==> !lex_lt(
                (#[trigger] pairs_under(decisions, path)[i]).1,
                (#[trigger] pairs_under(decisions, path)[j]).1,
            ),
    decreases decisions.len(),
{
    let all = pairs_under(decisions, path);
    if decisions.len() > 0 {
        let front = decisions.drop_last();
        let last = decisions.last();
        assert(ascending(front)) by {
            assert forall|i: int, j: int| 0 <= i < j < front.len() implies lex_lt(
                #[trigger] front[i].key(),
                #[trigger] front[j].key(),
            ) by {
                assert(lex_lt(decisions[i].key(), decisions[j].key()));
            }
        }
        pairs_are_anchored(front, path, pair);
        let files = files_under(last.anchors, path);
        let head = paired(files, last.id);
        let tail = pairs_under(front, path);
        assert(all == head + tail);
        files_are_named(last.anchors, path, pair.0);
        assert(decisions[decisions.len() - 1] == last);
        if all.contains(pair) {
            let k = all.index_of(pair);
            if k < head.len() {
                assert(head[k] == pair && files[k] == pair.0);
                assert(files.contains(pair.0));
                let a = choose|a: crate::model::AnchorView| #[trigger]
                    last.anchors.contains(a) && a.file == pair.0;
                assert(decisions.contains(last) && last.anchors.contains(a));
            } else {
                assert(tail[k - head.len()] == pair);
                assert(tail.contains(pair));
                let (d, a) = choose|d: StoredDecisionView, a: crate::model::AnchorView|
                    #![trigger front.contains(d), d.anchors.contains(a)]
                    front.contains(d) && d.id == pair.1 && d.anchors.contains(a) && a.file == pair.0;
                assert(decisions[front.index_of(d)] == d);
                assert(decisions.contains(d) && d.anchors.contains(a));
            }
        }
        if lies_under(pair.0, path) && exists|d: StoredDecisionView, a: crate::model::AnchorView|
            #![trigger decisions.contains(d), d.anchors.contains(a)]
            decisions.contains(d) && d.id == pair.1 && d.anchors.contains(a) && a.file == pair.0 {
            let (d, a) = choose|d: StoredDecisionView, a: crate::model::AnchorView|
                #![trigger decisions.contains(d), d.anchors.contains(a)]
                decisions.contains(d) && d.id == pair.1 && d.anchors.contains(a) && a.file == pair.0;
            let k = decisions.index_of(d);
            if k < front.len() {
                assert(front[k] == d && front.contains(d) && d.anchors.contains(a));
                assert(tail.contains(pair));
                assert(all[head.len() + tail.index_of(pair)] == pair);
            } else {
                assert(files.contains(pair.0));
                let m = files.index_of(pair.0);
                assert(all[m] == (files[m], last.id));
                assert(all.contains(pair));
            }
        }
        assert forall|k: int| 0 <= k < tail.len() implies exists|n: int|
            0 <= n < front.len() && (#[trigger] front[n]).id == (#[trigger] tail[k]).1 by {
            assert(tail.contains(tail[k]));
            pairs_are_anchored(front, path, tail[k]);
            let (d, a) = choose|d: StoredDecisionView, a: crate::model::AnchorView|
                #![trigger front.contains(d), d.anchors.contains(a)]
                front.contains(d) && d.id == tail[k].1 && d.anchors.contains(a) && a.file == tail[k].0;
            assert(front[front.index_of(d)].id == tail[k].1);
        }
        assert forall|k: int| 0 <= k < tail.len() implies lex_lt((#[trigger] tail[k]).1, last.id) by {
            let n = choose|n: int| 0 <= n < front.len() && (#[trigger] front[n]).id == tail[k].1;
            assert(lex_lt(decisions[n].key(), decisions[decisions.len() - 1].key()));
        }
        crate::text::lex_lt_irreflexive(last.id);
        assert forall|i: int, j: int| 0 <= i < j < all.len() implies !lex_lt(
            (#[trigger] all[i]).1,
            (#[trigger] all[j]).1,
        ) && all[i] != all[j] by {
            if j < head.len() {
                assert(all[i].1 == last.id && all[j].1 == last.id);
                assert(files[i] != files[j]);
            } else if i < head.len() {
                assert(all[i].1 == last.id);
                assert(lex_lt(tail[j - head.len()].1, last.id));
                crate::text::lex_lt_asymmetric(tail[j - head.len()].1, last.id);
            } else {
                assert(all[i] == tail[i - head.len()] && all[j] == tail[j - head.len()]);
            }
        }
    }
}

// ---- Tasks ------------------------------------------------------------------

/// A new task is open, under the parent and with the instruction that were named.
pub proof fn new_tasks_are_open(
    id: Seq<char>,
    ms: i64,
    parent: Option<Seq<char>>,
    instruction: Option<Seq<char>>,
)
    ensures
        new_task(id, ms, parent, instruction).id == id,
        new_task(id, ms, parent, instruction).parent_task_id == parent,
        new_task(id, ms, parent, instruction).instruction == instruction,
        new_task(id, ms, parent, instruction).created_at_ms == ms,
        new_task(id, ms, parent, instruction).completed_at_ms is None,
{
}

/// Completing a task stamps that task alone, and only where it has no stamp.
pub proof fn completing_stamps_once(s: Seq<TaskRecordView>, id: Seq<char>, ms: i64, i: int)
    requires
        0 <= i < s.len(),
    ensures
        ({
            let after = complete_in(s, id, ms);
            &&& after.len() == s.len()
            &&& after[i].id == s[i].id
            &&& after[i].parent_task_id == s[i].parent_task_id
            &&& after[i].instruction == s[i].instruction
            &&& after[i].created_at_ms == s[i].created_at_ms
            &&& after[i].completed_at_ms == (if s[i].id == id && s[i].completed_at_ms is None {
                Some(ms)
            } else {
                s[i].completed_at_ms
            })
        }),
{
}

/// What a task has pending: the staged decisions that name it, each once.
pub proof fn task_has_pending(log: Log, task: Seq<char>, d: StoredDecisionView)
    requires
        log.ordered(),
    ensures
        log.staged_of(task).contains(d) <==> log.decisions.contains(d) && d.staged && d.task_id == Some(task),
        log.staged_of(task).no_duplicates(),
        log.staging().contains(d) <==> log.decisions.contains(d) && d.staged,
        log.staging().no_duplicates(),
{
    let p = |d: StoredDecisionView| d.staged && d.task_id == Some(task);
    selection(log.decisions, p);
    ascending_is_distinct(log.staged_of(task));
    let q = |d: StoredDecisionView| d.staged;
    selection(log.decisions, q);
    ascending_is_distinct(log.staging());
}

proof fn ascending_is_distinct<V: Keyed>(s: Seq<V>)
    requires
        ascending(s),
    ensures
        s.no_duplicates(),
{
    assert forall|i: int, j: int| 0 <= i < s.len() && 0 <= j < s.len() && i != j implies s[i] != s[j] by {
        if s[i] == s[j] {
            keys_unique(s, i, j);
        }
    }
}

/// A task in the list: what was stored of it, and how many of its decisions are pending.
pub proof fn task_row_is_stored(log: Log, t: TaskRecordView)
    ensures
        log.task_row(t).id == t.id,
        log.task_row(t).parent_task_id == t.parent_task_id,
        log.task_row(t).instruction == t.instruction,
        log.task_row(t).completed_at_ms == t.completed_at_ms,
        log.task_row(t).created_at_ms == t.created_at_ms,
        log.task_row(t).staged_count == log.staged_of(t.id).len() as u64,
{
}

/// Stranded is a task of the log that is not complete and has pending decisions. It is
/// shown with its instruction, how many there are, and when the oldest was recorded; newest
/// task first.
pub proof fn stranded_are_open_with_pending(log: Log, task: Seq<char>)
    requires
        log.ordered(),
    ensures
        (exists|i: int| 0 <= i < log.stranded().len() && (#[trigger] log.stranded()[i]).task == task) <==> exists|
            t: TaskRecordView,
            d: StoredDecisionView,
        |
            #![trigger log.tasks.contains(t), log.decisions.contains(d)]
            log.tasks.contains(t) && t.id == task && t.completed_at_ms is None && log.decisions.contains(d)
                && d.staged && d.task_id == Some(task),
        forall|i: int|
            0 <= i < log.stranded().len() ==> shows_stranded(log, #[trigger] log.stranded()[i]),
        forall|i: int, j: int|
            0 <= i < j < log.stranded().len() ==> lex_lt(
                (#[trigger] log.stranded()[j]).task,
                (#[trigger] log.stranded()[i]).task,
            ),
{
    let p = |t: TaskRecordView| log.is_stranded(t);
    selection(log.tasks, p);
    let kept = log.tasks.filter(p);
    let rows = log.stranded();
    let n = kept.len() as int;
    assert(rows.len() == n);
    assert forall|i: int| 0 <= i < n implies shows_stranded(log, #[trigger] rows[i]) && kept[n - 1 - i].id
        == rows[i].task && log.tasks.contains(kept[n - 1 - i]) && log.is_stranded(kept[n - 1 - i]) by {
        let t = kept[n - 1 - i];
        assert(kept.contains(t));
        assert(rows[i] == log.stranded_row(t));
        let pending = log.staged_of(t.id);
        oldest_is_least(pending);
        let m = choose|m: int| 0 <= m < pending.len() && (#[trigger] pending[m]).created_at_ms
            == rows[i].oldest_staged_ms;
        assert(pending.contains(pending[m]));
        assert forall|d: StoredDecisionView| #[trigger] pending.contains(d) implies rows[i].oldest_staged_ms
            <= d.created_at_ms by {
            assert(pending[pending.index_of(d)] == d);
        }
        assert(log.tasks.contains(t));
    }
    assert forall|i: int, j: int| 0 <= i < j < n implies lex_lt(
        (#[trigger] rows[j]).task,
        (#[trigger] rows[i]).task,
    ) by {
        assert(lex_lt(kept[n - 1 - j].key(), kept[n - 1 - i].key()));
    }
    if exists|i: int| 0 <= i < rows.len() && (#[trigger] rows[i]).task == task {
        let i = choose|i: int| 0 <= i < rows.len() && (#[trigger] rows[i]).task == task;
        let t = kept[n - 1 - i];
        let d = log.staged_of(task)[0];
        task_has_pending(log, task, d);
        assert(log.staged_of(task).contains(d));
        assert(log.tasks.contains(t) && log.decisions.contains(d));
    }
    if exists|t: TaskRecordView, d: StoredDecisionView|
        #![trigger log.tasks.contains(t), log.decisions.contains(d)]
        log.tasks.contains(t) && t.id == task && t.completed_at_ms is None && log.decisions.contains(d)
            && d.staged && d.task_id == Some(task) {
        let (t, d) = choose|t: TaskRecordView, d: StoredDecisionView|
            #![trigger log.tasks.contains(t), log.decisions.contains(d)]
            log.tasks.contains(t) && t.id == task && t.completed_at_ms is None && log.decisions.contains(d)
                && d.staged && d.task_id == Some(task);
        task_has_pending(log, task, d);
        assert(log.staged_of(task).contains(d));
        assert(log.staged_of(task).index_of(d) < log.staged_of(task).len());
        assert(p(t));
        assert(kept.contains(t));
        let k = kept.index_of(t);
        assert(rows[n - 1 - k].task == task);
    }
}

/// A row about a stranded task says what the log has: its instruction, the number of its
/// pending decisions, and the time of the oldest of them.
pub open spec fn shows_stranded(log: Log, row: crate::store::StrandedTaskView) -> bool {
    &&& exists|t: TaskRecordView| #[trigger]
        log.tasks.contains(t) && t.id == row.task && t.instruction == row.instruction
    &&& row.staged_count == log.staged_of(row.task).len() as u64
    &&& exists|d: StoredDecisionView| #[trigger]
        log.staged_of(row.task).contains(d) && d.created_at_ms == row.oldest_staged_ms
    &&& forall|d: StoredDecisionView| #[trigger]
        log.staged_of(row.task).contains(d) ==> row.oldest_staged_ms <= d.created_at_ms
}

// ---- Invariants -------------------------------------------------------------

/// A new invariant is in effect, and says what was declared.
pub proof fn new_invariants_are_live(
    id: Seq<char>,
    ms: i64,
    declared_by: Seq<char>,
    statement: Seq<char>,
    scope: Option<Seq<char>>,
)
    ensures
        new_invariant(id, ms, declared_by, statement, scope).id == id,
        new_invariant(id, ms, declared_by, statement, scope).declared_by == declared_by,
        new_invariant(id, ms, declared_by, statement, scope).statement == statement,
        new_invariant(id, ms, declared_by, statement, scope).scope == scope,
        new_invariant(id, ms, declared_by, statement, scope).created_at_ms == ms,
        !new_invariant(id, ms, declared_by, statement, scope).retired,
{
}

/// In effect are the invariants that are not retired; a decision's are those that it
/// declared, retired ones too. Each once, oldest first.
pub proof fn invariants_are_listed(log: Log, decision: Seq<char>, v: InvariantRecordView)
    requires
        log.ordered(),
    ensures
        log.live().contains(v) <==> log.invariants.contains(v) && !v.retired,
        ascending(log.live()),
        log.declared(decision).contains(v) <==> log.invariants.contains(v) && v.declared_by == decision,
        ascending(log.declared(decision)),
{
    selection(log.invariants, |v: InvariantRecordView| !v.retired);
    selection(log.invariants, |v: InvariantRecordView| v.declared_by == decision);
}

/// A query shows an invariant as it was declared.
pub proof fn invariant_row_is_stored(v: InvariantRecordView)
    ensures
        crate::store::invariant_row(v).id == v.id,
        crate::store::invariant_row(v).statement == v.statement,
        crate::store::invariant_row(v).scope == v.scope,
        crate::store::invariant_row(v).declared_by == v.declared_by,
{
}

// ---- Import -----------------------------------------------------------------

/// An import stores each record that is new, as it is and sealed: of records with the same
/// id the first.
pub proof fn import_stores_records(
    log: Log,
    tasks: Seq<TaskRecordView>,
    decisions: Seq<StoredDecisionView>,
    invariants: Seq<InvariantRecordView>,
    k: int,
)
    requires
        log.ordered(),
    ensures
        ({
            let next = log.imported(tasks, decisions, invariants);
            &&& 0 <= k < tasks.len() && is_first(tasks, k) && !holds(log.tasks, tasks[k].id)
                ==> next.tasks.contains(tasks[k])
            &&& 0 <= k < invariants.len() && is_first(invariants, k) && !holds(
                log.invariants,
                invariants[k].id,
            ) ==> next.invariants.contains(invariants[k])
            &&& 0 <= k < decisions.len() && is_first(decisions, k) && !holds(log.decisions, decisions[k].id)
                ==> exists|d: StoredDecisionView| #[trigger]
                next.decisions.contains(d) && same_words(d, decisions[k]) && !d.staged && d.binding
                    == decisions[k].binding
        }),
{
    let landing = decisions.map_values(|d: StoredDecisionView| landed(d));
    let next = log.imported(tasks, decisions, invariants);
    if 0 <= k < tasks.len() && is_first(tasks, k) && !holds(log.tasks, tasks[k].id) {
        first_is_merged(log.tasks, tasks, k);
    }
    if 0 <= k < invariants.len() && is_first(invariants, k) && !holds(log.invariants, invariants[k].id) {
        first_is_merged(log.invariants, invariants, k);
    }
    if 0 <= k < decisions.len() && is_first(decisions, k) && !holds(log.decisions, decisions[k].id) {
        assert forall|j: int| 0 <= j < k implies #[trigger] landing[j].key() != landing[k].key() by {
            assert(decisions[j].key() != decisions[k].key());
        }
        first_is_merged(log.decisions, landing, k);
        assert(next.decisions.contains(landing[k]) && same_words(landing[k], decisions[k]));
    }
}

proof fn first_is_merged<V: Keyed>(s: Seq<V>, add: Seq<V>, k: int)
    requires
        ascending(s),
        0 <= k < add.len(),
        is_first(add, k),
        !holds(s, add[k].key()),
    ensures
        crate::log::merge(s, add).contains(add[k]),
{
    merge_holds(s, add);
    let m = crate::log::merge(s, add);
    assert(holds(add, add[k].key()));
    assert(holds(m, add[k].key()));
    let i = choose|i: int| 0 <= i < m.len() && #[trigger] m[i].key() == add[k].key();
    assert(m.contains(m[i]));
    if s.contains(m[i]) {
        assert(holds(s, s[s.index_of(m[i])].key()));
    } else {
        merge_adds_first(s, add, m[i]);
        let j = choose|j: int| 0 <= j < add.len() && add[j] == m[i] && #[trigger] is_first(add, j);
        if j < k {
            assert(add[j].key() != add[k].key());
        } else if k < j {
            assert(add[k].key() != add[j].key());
        }
    }
}

/// After an import there is what was there, and what the records say; nothing else.
pub proof fn import_adds_nothing_else(
    log: Log,
    tasks: Seq<TaskRecordView>,
    decisions: Seq<StoredDecisionView>,
    invariants: Seq<InvariantRecordView>,
)
    requires
        log.ordered(),
    ensures
        ({
            let next = log.imported(tasks, decisions, invariants);
            &&& forall|t: TaskRecordView| #[trigger]
                next.tasks.contains(t) ==> log.tasks.contains(t) || tasks.contains(t)
            &&& forall|v: InvariantRecordView| #[trigger]
                next.invariants.contains(v) ==> log.invariants.contains(v) || invariants.contains(v)
            &&& forall|d: StoredDecisionView| #[trigger]
                next.decisions.contains(d) ==> log.decisions.contains(d) || comes_from(decisions, d)
            &&& forall|t: TaskRecordView| log.tasks.contains(t) ==> #[trigger] next.tasks.contains(t)
            &&& forall|v: InvariantRecordView|
                log.invariants.contains(v) ==> #[trigger] next.invariants.contains(v)
            &&& forall|d: StoredDecisionView|
                log.decisions.contains(d) ==> #[trigger] next.decisions.contains(d)
        }),
{
    let landing = decisions.map_values(|d: StoredDecisionView| landed(d));
    let next = log.imported(tasks, decisions, invariants);
    merge_holds(log.tasks, tasks);
    merge_holds(log.decisions, landing);
    merge_holds(log.invariants, invariants);
    assert forall|d: StoredDecisionView| #[trigger]
        next.decisions.contains(d) implies log.decisions.contains(d) || comes_from(decisions, d) by {
        if !log.decisions.contains(d) {
            let k = landing.index_of(d);
            assert(landing[k] == landed(decisions[k]));
            assert(decisions.contains(decisions[k]));
        }
    }
}

/// A decision is one of the records, sealed.
pub open spec fn comes_from(records: Seq<StoredDecisionView>, d: StoredDecisionView) -> bool {
    exists|r: StoredDecisionView| #[trigger]
        records.contains(r) && same_words(d, r) && !d.staged && d.binding == r.binding
}

// ---- Selecting --------------------------------------------------------------

/// Selecting keeps what passes and its order.
pub proof fn selecting_keeps_order<A>(s: Seq<A>, p: spec_fn(A) -> bool, r: spec_fn(A, A) -> bool)
    requires
        forall|i: int, j: int| 0 <= i < j < s.len() ==> r(#[trigger] s[i], #[trigger] s[j]),
    ensures
        forall|x: A| #[trigger] s.filter(p).contains(x) <==> s.contains(x) && p(x),
        forall|i: int, j: int|
            0 <= i < j < s.filter(p).len() ==> r(#[trigger] s.filter(p)[i], #[trigger] s.filter(p)[j]),
    decreases s.len(),
{
    reveal(Seq::filter);
    let f = s.filter(p);
    if s.len() > 0 {
        let front = s.drop_last();
        let g = front.filter(p);
        assert forall|i: int, j: int| 0 <= i < j < front.len() implies r(#[trigger] front[i], #[trigger] front[j]) by {
            assert(r(s[i], s[j]));
        }
        selecting_keeps_order(front, p, r);
        assert(s[s.len() - 1] == s.last());
        assert forall|x: A| #[trigger] f.contains(x) <==> s.contains(x) && p(x) by {
            if g.contains(x) {
                assert(f[g.index_of(x)] == x);
                assert(s[front.index_of(x)] == x);
            }
            if f.contains(x) && !g.contains(x) {
                let k = f.index_of(x);
                assert(k < g.len() ==> g[k] == x);
            }
            if s.contains(x) && p(x) {
                let k = choose|k: int| 0 <= k < s.len() && s[k] == x;
                assert(s[k] == x);
                if k < front.len() {
                    assert(front[k] == s[k]);
                    assert(front.contains(x));
                    assert(g.contains(x));
                } else {
                    assert(f[g.len() as int] == x);
                }
            }
        }
        assert forall|i: int, j: int| 0 <= i < j < f.len() implies r(#[trigger] f[i], #[trigger] f[j]) by {
            if j < g.len() {
                assert(f[i] == g[i] && f[j] == g[j]);
            } else {
                assert(f[i] == g[i]);
                assert(g.contains(g[i]));
                let k = front.index_of(g[i]);
                assert(r(s[k], s[s.len() - 1]));
            }
        }
    }
}

// ---- Writes -----------------------------------------------------------------

/// What each write does: a row that is added is found, a seal binds the pending decision
/// that it names, a completion stamps the task that it names; every other row is as it was.
pub proof fn writes_do_one_thing(log: Log, change: ChangeView, id: Seq<char>)
    requires
        log.ordered(),
        admits(log, change),
    ensures
        ({
            let next = log.after(change);
            &&& !(change is AddTask) && !(change is CompleteTask) ==> next.tasks == log.tasks
            &&& !(change is AddDecision) && !(change is Seal) ==> next.decisions == log.decisions
            &&& !(change is AddInvariant) ==> next.invariants == log.invariants
            &&& change matches ChangeView::AddTask(t) ==> lookup(next.tasks, id) == (if id == t.id {
                Some(t)
            } else {
                lookup(log.tasks, id)
            })
            &&& change matches ChangeView::AddDecision(d) ==> lookup(next.decisions, id) == (if id == d.id {
                Some(d)
            } else {
                lookup(log.decisions, id)
            })
            &&& change matches ChangeView::AddInvariant(v) ==> lookup(next.invariants, id) == (if id == v.id {
                Some(v)
            } else {
                lookup(log.invariants, id)
            })
            &&& change matches ChangeView::Seal { id: named, binding } ==> match lookup(log.decisions, id) {
                None => lookup(next.decisions, id) is None,
                Some(d) => lookup(next.decisions, id) matches Some(e) && same_words(e, d) && if id == named
                    && d.staged {
                    !e.staged && e.binding == Some(binding)
                } else {
                    e.staged == d.staged && e.binding == d.binding
                },
            }
        }),
{
    match change {
        ChangeView::AddTask(t) => insert_row_lookup(log.tasks, t, id),
        ChangeView::AddDecision(d) => insert_row_lookup(log.decisions, d, id),
        ChangeView::AddInvariant(v) => insert_row_lookup(log.invariants, v, id),
        ChangeView::Seal { id: named, binding } => {
            seal_in_lookup(log.decisions, seq![named], binding, id);
            assert(seq![named].contains(id) <==> id == named) by {
                assert(seq![named][0] == named);
            }
        },
        _ => {},
    }
}

/// The log is whole where every reference names a row: the task above a task, the task of a
/// decision, what a decision supersedes, and what declared an invariant.
pub proof fn whole_means_resolved(log: Log)
    ensures
        log.closed_under_references() <==> {
            &&& forall|t: TaskRecordView| #[trigger]
                log.tasks.contains(t) ==> (t.parent_task_id matches Some(id) ==> holds(log.tasks, id))
            &&& forall|d: StoredDecisionView| #[trigger]
                log.decisions.contains(d) ==> (d.task_id matches Some(id) ==> holds(log.tasks, id)) && (
                d.supersedes matches Some(id) ==> holds(log.decisions, id))
            &&& forall|v: InvariantRecordView| #[trigger]
                log.invariants.contains(v) ==> holds(log.decisions, v.declared_by)
        },
{
    if log.closed_under_references() {
        assert forall|t: TaskRecordView| #[trigger] log.tasks.contains(t) implies (t.parent_task_id matches Some(
            id,
        ) ==> holds(log.tasks, id)) by {
            assert(resolves(log.tasks, log.tasks[log.tasks.index_of(t)].parent_task_id));
        }
        assert forall|d: StoredDecisionView| #[trigger] log.decisions.contains(d) implies (d.task_id matches Some(
            id,
        ) ==> holds(log.tasks, id)) && (d.supersedes matches Some(id) ==> holds(log.decisions, id)) by {
            let k = log.decisions.index_of(d);
            assert(resolves(log.tasks, log.decisions[k].task_id));
        }
        assert forall|v: InvariantRecordView| #[trigger] log.invariants.contains(v) implies holds(
            log.decisions,
            v.declared_by,
        ) by {
            assert(holds(log.decisions, log.invariants[log.invariants.index_of(v)].declared_by));
        }
    }
    if forall|t: TaskRecordView| #[trigger]
        log.tasks.contains(t) ==> (t.parent_task_id matches Some(id) ==> holds(log.tasks, id)) {
        assert forall|i: int| 0 <= i < log.tasks.len() implies resolves(
            log.tasks,
            #[trigger] log.tasks[i].parent_task_id,
        ) by {
            assert(log.tasks.contains(log.tasks[i]));
        }
    }
    if forall|d: StoredDecisionView| #[trigger]
        log.decisions.contains(d) ==> (d.task_id matches Some(id) ==> holds(log.tasks, id)) && (
        d.supersedes matches Some(id) ==> holds(log.decisions, id)) {
        assert forall|i: int| 0 <= i < log.decisions.len() implies resolves(
            log.tasks,
            (#[trigger] log.decisions[i]).task_id,
        ) && resolves(log.decisions, log.decisions[i].supersedes) by {
            assert(log.decisions.contains(log.decisions[i]));
        }
    }
    if forall|v: InvariantRecordView| #[trigger]
        log.invariants.contains(v) ==> holds(log.decisions, v.declared_by) {
        assert forall|i: int| 0 <= i < log.invariants.len() implies holds(
            log.decisions,
            #[trigger] log.invariants[i].declared_by,
        ) by {
            assert(log.invariants.contains(log.invariants[i]));
        }
    }
}

/// A log that is in order binds its sealed decisions and those alone, and an id stands for
/// one row at most.
pub proof fn sealed_are_bound(log: Log, d: StoredDecisionView, e: StoredDecisionView)
    requires
        log.wf(),
        log.decisions.contains(d) && log.decisions.contains(e),
    ensures
        d.staged <==> d.binding is None,
        d.id == e.id ==> d == e,
{
    let i = log.decisions.index_of(d);
    let j = log.decisions.index_of(e);
    assert(bound_iff_sealed(log.decisions[i]));
    if d.id == e.id {
        keys_unique(log.decisions, i, j);
    }
}

/// A row is found by its id, and nothing is found where no row has it.
pub proof fn rows_are_found<V: Keyed>(s: Seq<V>, id: Seq<char>, v: V)
    requires
        ascending(s),
    ensures
        lookup(s, id) == Some(v) <==> s.contains(v) && v.key() == id,
        lookup(s, id) is None <==> forall|w: V| #[trigger] s.contains(w) ==> w.key() != id,
        holds(s, id) <==> lookup(s, id) is Some,
{
    lookup_sound(s, id);
    if s.contains(v) && v.key() == id {
        lookup_at(s, s.index_of(v));
    }
    if lookup(s, id) is None {
        assert forall|w: V| #[trigger] s.contains(w) implies w.key() != id by {
            if w.key() == id {
                lookup_at(s, s.index_of(w));
            }
        }
    }
}

/// The schema version that a store's ledger records is the number written there.
pub proof fn versions_read_back(n: i64)
    ensures
        crate::store::recorded_version(Some(crate::text::decimal_int(n as int))) == n,
        crate::store::recorded_version(None) == 0,
{
    crate::text::i64_reads_back(n);
}

/// An import counts what it added, and writes what makes the log that it leaves.
pub proof fn import_counts_what_it_adds(
    log: Log,
    tasks: Seq<TaskRecordView>,
    decisions: Seq<StoredDecisionView>,
    invariants: Seq<InvariantRecordView>,
)
    requires
        log.ordered(),
    ensures
        ({
            let next = log.imported(tasks, decisions, invariants);
            let counts = log.import_counts(tasks, decisions, invariants);
            &&& next.tasks.len() == log.tasks.len() + counts.0
            &&& next.decisions.len() == log.decisions.len() + counts.1
            &&& next.invariants.len() == log.invariants.len() + counts.2
            &&& log.after_all(log.import_changes(tasks, decisions, invariants)) == next
        }),
{
    let landing = decisions.map_values(|d: StoredDecisionView| landed(d));
    merge_holds(log.tasks, tasks);
    merge_holds(log.decisions, landing);
    merge_holds(log.invariants, invariants);
    merge_inserts_fresh(log.tasks, tasks);
    merge_inserts_fresh(log.decisions, landing);
    merge_inserts_fresh(log.invariants, invariants);
    additions_insert(
        log,
        fresh_of(log.tasks, tasks),
        fresh_of(log.decisions, landing),
        fresh_of(log.invariants, invariants),
    );
}

/// Decisions can be sealed together where each is pending and none is named twice.
pub proof fn only_pending_can_be_sealed(log: Log, ids: Seq<Seq<char>>)
    requires
        log.ordered(),
    ensures
        sealable(log, ids) <==> (forall|i: int, j: int|
            0 <= i < j < ids.len() ==> #[trigger] ids[i] != #[trigger] ids[j]) && forall|i: int|
            0 <= i < ids.len() ==> some_decision(log, #[trigger] ids[i], |d: StoredDecisionView| d.staged),
{
    let p = |d: StoredDecisionView| d.staged;
    assert forall|id: Seq<char>| #[trigger] log.is_staged(id) <==> some_decision(log, id, p) by {
        lookup_sound(log.decisions, id);
        if log.is_staged(id) {
            let d = lookup(log.decisions, id)->0;
            assert(log.decisions.contains(d) && d.id == id && p(d));
        }
        if some_decision(log, id, p) {
            let d = choose|d: StoredDecisionView| #[trigger] log.decisions.contains(d) && d.id == id && p(d);
            lookup_at(log.decisions, log.decisions.index_of(d));
        }
    }
    if sealable(log, ids) {
        assert forall|i: int| 0 <= i < ids.len() implies some_decision(log, #[trigger] ids[i], p) by {
            assert(log.is_staged(ids[i]));
        }
    }
    if (forall|i: int, j: int| 0 <= i < j < ids.len() ==> #[trigger] ids[i] != #[trigger] ids[j]) && forall|i: int|
        0 <= i < ids.len() ==> some_decision(log, #[trigger] ids[i], p) {
        assert forall|i: int| 0 <= i < ids.len() implies log.is_staged(#[trigger] ids[i]) by {
            assert(some_decision(log, ids[i], p));
        }
        assert forall|i: int, j: int| 0 <= i < ids.len() && 0 <= j < ids.len() && i != j implies ids[i]
            != ids[j] by {
            if i < j {
                assert(ids[i] != ids[j]);
            } else {
                assert(ids[j] != ids[i]);
            }
        }
    }
}

} // verus!
