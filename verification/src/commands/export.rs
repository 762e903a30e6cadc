//! `dlog export`: gathers sealed decisions for sharing.
//!
//! Sharing a decision log needs no merge algorithm: sealed rows are immutable and ids are
//! globally unique, so combining two stores is inserting the rows that one of them has not
//! seen. What it does need is a referentially whole file.
//!
//! Staged decisions are never written. There is no flag for it: staging is one agent's
//! live work area.
use crate::cli::ExportArgs;
use crate::commands::share::{
    debug_text, parse_since, since_of, Header, HeaderView, Record, RecordView, FORMAT_VERSION,
};
use crate::commands::{failure, AppError};
use crate::ids::now_ms;
use crate::laws::{merge_contains, same_rows, unique_keys};
use crate::log::{
    bound_iff_sealed, landed, merge, merge_holds, resolves, InvariantRecord, InvariantRecordView, Log,
    TaskRecord, TaskRecordView,
};
use crate::model::{StoredDecision, StoredDecisionView};
use crate::store::{filter_ascending, selection, SinceBound, SinceBoundView, Store, SCHEMA_VERSION};
use crate::table::{
    ascending, gather, holds, keys_unique, known, lookup, lookup_at, lookup_sound, position, Keyed,
    Row,
};
use crate::text;
use vstd::prelude::*;

verus! {

// ---- Closing over references ------------------------------------------------

/// The row of `a` is kept, and refers to `b`.
pub open spec fn is_link<V: Keyed>(
    rows: Seq<V>,
    keep: spec_fn(V) -> bool,
    next: spec_fn(V) -> Option<Seq<char>>,
    a: Seq<char>,
    b: Seq<char>,
) -> bool {
    lookup(rows, a) matches Some(v) && keep(v) && next(v) == Some(b)
}

/// A chain of rows: it starts at one of `start`, and each row but the last is kept
/// and refers to the next.
pub open spec fn is_chain<V: Keyed>(
    rows: Seq<V>,
    start: Seq<Seq<char>>,
    keep: spec_fn(V) -> bool,
    next: spec_fn(V) -> Option<Seq<char>>,
    chain: Seq<Seq<char>>,
) -> bool {
    &&& chain.len() > 0
    &&& start.contains(chain[0])
    &&& forall|i: int, j: int|
        0 <= i && j == i + 1 && j < chain.len() ==> #[trigger] is_link(
            rows,
            keep,
            next,
            chain[i],
            chain[j],
        )
}

/// Some chain leads to `id`.
#[verifier::opaque]
pub open spec fn reached<V: Keyed>(
    rows: Seq<V>,
    start: Seq<Seq<char>>,
    keep: spec_fn(V) -> bool,
    next: spec_fn(V) -> Option<Seq<char>>,
    id: Seq<char>,
) -> bool {
    exists|chain: Seq<Seq<char>>| #[trigger]
        is_chain(rows, start, keep, next, chain) && chain.last() == id
}

/// The kept rows that chains lead to, ascending.
pub open spec fn closure<V: Keyed>(
    rows: Seq<V>,
    start: Seq<Seq<char>>,
    keep: spec_fn(V) -> bool,
    next: spec_fn(V) -> Option<Seq<char>>,
) -> Seq<V> {
    rows.filter(|v: V| keep(v) && reached(rows, start, keep, next, v.key()))
}

proof fn start_is_reached<V: Keyed>(
    rows: Seq<V>,
    start: Seq<Seq<char>>,
    keep: spec_fn(V) -> bool,
    next: spec_fn(V) -> Option<Seq<char>>,
    id: Seq<char>,
)
    requires
        start.contains(id),
    ensures
        reached(rows, start, keep, next, id),
{
    reveal(reached);
    let chain = seq![id];
    assert(is_chain(rows, start, keep, next, chain));
    assert(chain.last() == id);
}

proof fn next_is_reached<V: Keyed>(
    rows: Seq<V>,
    start: Seq<Seq<char>>,
    keep: spec_fn(V) -> bool,
    next: spec_fn(V) -> Option<Seq<char>>,
    i: int,
    id: Seq<char>,
)
    requires
        ascending(rows),
        0 <= i < rows.len(),
        keep(rows[i]),
        reached(rows, start, keep, next, rows[i].key()),
        next(rows[i]) == Some(id),
    ensures
        reached(rows, start, keep, next, id),
{
    reveal(reached);
    let front = choose|chain: Seq<Seq<char>>| #[trigger]
        is_chain(rows, start, keep, next, chain) && chain.last() == rows[i].key();
    let chain = front.push(id);
    lookup_at(rows, i);
    assert forall|k: int, m: int| 0 <= k && m == k + 1 && m < chain.len() implies #[trigger] is_link(
        rows,
        keep,
        next,
        chain[k],
        chain[m],
    ) by {
        assert(chain[k] == front[k]);
        if m < front.len() {
            assert(is_link(rows, keep, next, front[k], front[m]));
        }
    }
    assert(is_chain(rows, start, keep, next, chain));
    assert(chain.last() == id);
}

/// The row of `id` is marked, not kept, or not there.
#[verifier::opaque]
spec fn settled<V: Keyed>(
    rows: Seq<V>,
    keep: spec_fn(V) -> bool,
    marks: Seq<bool>,
    id: Seq<char>,
) -> bool {
    forall|i: int| 0 <= i < rows.len() && #[trigger] rows[i].key() == id && keep(rows[i]) ==> marks[i]
}

/// A marked row, or one that is not kept, settles its id.
proof fn row_settles<V: Keyed>(
    rows: Seq<V>,
    keep: spec_fn(V) -> bool,
    marks: Seq<bool>,
    i: int,
)
    requires
        ascending(rows),
        0 <= i < rows.len(),
        marks[i] || !keep(rows[i]),
    ensures
        settled(rows, keep, marks, rows[i].key()),
{
    reveal(settled);
    assert forall|j: int|
        0 <= j < rows.len() && #[trigger] rows[j].key() == rows[i].key() && keep(rows[j]) implies marks[j] by {
        keys_unique(rows, i, j);
    }
}

/// An id that no row has is settled.
proof fn absence_settles<V: Keyed>(rows: Seq<V>, keep: spec_fn(V) -> bool, marks: Seq<bool>, id: Seq<char>)
    requires
        !holds(rows, id),
    ensures
        settled(rows, keep, marks, id),
{
    reveal(settled);
}

/// More marks settle no less.
proof fn marks_settle<V: Keyed>(
    rows: Seq<V>,
    keep: spec_fn(V) -> bool,
    marks: Seq<bool>,
    more: Seq<bool>,
    id: Seq<char>,
)
    requires
        marks.len() == rows.len(),
        more.len() == rows.len(),
        forall|j: int| 0 <= j < marks.len() && marks[j] ==> more[j],
        settled(rows, keep, marks, id),
    ensures
        settled(rows, keep, more, id),
{
    reveal(settled);
}

/// Once every start and every next one is settled, so is everything on a chain.
proof fn chains_are_settled<V: Keyed>(
    rows: Seq<V>,
    start: Seq<Seq<char>>,
    keep: spec_fn(V) -> bool,
    next: spec_fn(V) -> Option<Seq<char>>,
    marks: Seq<bool>,
    chain: Seq<Seq<char>>,
    n: int,
)
    requires
        ascending(rows),
        marks.len() == rows.len(),
        is_chain(rows, start, keep, next, chain),
        0 <= n < chain.len(),
        forall|k: int| 0 <= k < start.len() ==> settled(rows, keep, marks, #[trigger] start[k]),
        forall|i: int|
            0 <= i < rows.len() && marks[i] && (next(#[trigger] rows[i]) is Some) ==> settled(
                rows,
                keep,
                marks,
                next(rows[i])->0,
            ),
    ensures
        settled(rows, keep, marks, chain[n]),
    decreases n,
{
    reveal(settled);
    if n == 0 {
        let k = start.index_of(chain[0]);
        assert(settled(rows, keep, marks, start[k]));
    } else {
        chains_are_settled(rows, start, keep, next, marks, chain, n - 1);
        assert(is_link(rows, keep, next, chain[n - 1], chain[n]));
        lookup_sound(rows, chain[n - 1]);
        let v = lookup(rows, chain[n - 1])->0;
        let i = rows.index_of(v);
        assert(rows[i].key() == chain[n - 1]);
        assert(marks[i]);
        assert(next(rows[i]) == Some(chain[n]));
    }
}

/// How many rows are not marked.
spec fn unmarked(marks: Seq<bool>) -> nat
    decreases marks.len(),
{
    if marks.len() == 0 {
        0
    } else {
        unmarked(marks.drop_last()) + (if marks.last() {
            0nat
        } else {
            1nat
        })
    }
}

proof fn marking_counts(marks: Seq<bool>, i: int)
    requires
        0 <= i < marks.len(),
        !marks[i],
    ensures
        unmarked(marks.update(i, true)) == unmarked(marks) - 1,
    decreases marks.len(),
{
    let after = marks.update(i, true);
    if i < marks.len() - 1 {
        marking_counts(marks.drop_last(), i);
        assert(after.drop_last() =~= marks.drop_last().update(i, true));
    } else {
        assert(after.drop_last() =~= marks.drop_last());
    }
}

/// Gathers the kept rows that chains from `start` lead to, ascending.
fn close_over<T: Row, A: Fn(&T) -> bool, N: Fn(&T) -> Option<String>>(
    rows: &Vec<T>,
    start: Vec<String>,
    keep: A,
    next: N,
    Ghost(ok): Ghost<spec_fn(<T as DeepView>::V) -> bool>,
    Ghost(step): Ghost<spec_fn(<T as DeepView>::V) -> Option<Seq<char>>>,
) -> (r: Vec<T>) where <T as DeepView>::V: Keyed,
    requires
        ascending(rows.deep_view()),
        forall|t: &T| #[trigger] keep.requires((t,)),
        forall|t: &T, b: bool| #[trigger] keep.ensures((t,), b) ==> b == ok(t.deep_view()),
        forall|t: &T| #[trigger] next.requires((t,)),
        forall|t: &T, o: Option<String>| #[trigger]
            next.ensures((t,), o) ==> o.deep_view() == step(t.deep_view()),
    ensures
        r.deep_view() == closure(rows.deep_view(), start.deep_view(), ok, step),
{
    let ghost s = rows.deep_view();
    let ghost from = start.deep_view();
    let mut marks: Vec<bool> = Vec::new();
    for i in 0..rows.len()
        invariant
            marks.len() == i,
            forall|j: int| 0 <= j < i ==> !marks[j],
    {
        marks.push(false);
    }
    let mut queue = start;
    proof {
        assert forall|k: int| 0 <= k < from.len() implies reached(s, from, ok, step, #[trigger] from[k]) by {
            assert(from.contains(from[k]));
            start_is_reached(s, from, ok, step, from[k]);
        }
    }
    while queue.len() > 0
        invariant
            ascending(s),
            s == rows.deep_view(),
            marks.len() == s.len(),
            forall|t: &T| #[trigger] keep.requires((t,)),
            forall|t: &T, b: bool| #[trigger] keep.ensures((t,), b) ==> b == ok(t.deep_view()),
            forall|t: &T| #[trigger] next.requires((t,)),
            forall|t: &T, o: Option<String>| #[trigger]
                next.ensures((t,), o) ==> o.deep_view() == step(t.deep_view()),
            forall|k: int|
                0 <= k < queue.len() ==> reached(s, from, ok, step, #[trigger] queue.deep_view()[k]),
            forall|i: int|
                0 <= i < s.len() && marks[i] ==> ok(#[trigger] s[i]) && reached(
                    s,
                    from,
                    ok,
                    step,
                    s[i].key(),
                ),
            forall|k: int|
                0 <= k < from.len() ==> queue.deep_view().contains(#[trigger] from[k]) || settled(
                    s,
                    ok,
                    marks@,
                    from[k],
                ),
            forall|i: int|
                0 <= i < s.len() && marks[i] && (step(#[trigger] s[i]) is Some)
                    ==> queue.deep_view().contains(step(s[i])->0) || settled(s, ok, marks@, step(s[i])->0),
        decreases unmarked(marks@), queue.len(),
    {
        let ghost q = queue.deep_view();
        let ghost m = marks@;
        let id = match queue.pop() {
            Some(id) => id,
            None => String::new(),
        };
        let ghost rest = queue.deep_view();
        assert(rest =~= q.drop_last());
        assert(q.last() == id@);
        assert(reached(s, from, ok, step, q[q.len() - 1]));
        assert forall|x: Seq<char>| q.contains(x) implies rest.contains(x) || x == id@ by {
            let k = q.index_of(x);
            if k < rest.len() {
                assert(rest[k] == x);
            }
        }
        assert forall|k: int| 0 <= k < queue.len() implies reached(
            s,
            from,
            ok,
            step,
            #[trigger] queue.deep_view()[k],
        ) by {
            assert(q[k] == rest[k]);
        }
        match position(rows, id.as_str()) {
            None => {
                proof {
                    absence_settles(s, ok, marks@, id@);
                }
            },
            Some(i) => {
                assert(s[i as int] == rows[i as int].deep_view());
                if marks[i] || !keep(&rows[i]) {
                    proof {
                        row_settles(s, ok, marks@, i as int);
                    }
                } else {
                    marks.set(i, true);
                    proof {
                        marking_counts(m, i as int);
                        assert(marks@ =~= m.update(i as int, true));
                    }
                    proof {
                        row_settles(s, ok, marks@, i as int);
                        assert forall|x: Seq<char>| #[trigger] settled(s, ok, m, x) implies settled(
                            s,
                            ok,
                            marks@,
                            x,
                        ) by {
                            marks_settle(s, ok, m, marks@, x);
                        }
                    }
                    let following = next(&rows[i]);
                    let ghost coming = step(s[i as int]);
                    assert(following.deep_view() == coming);
                    if let Some(after) = following {
                        let ghost before = queue.deep_view();
                        proof {
                            next_is_reached(s, from, ok, step, i as int, after@);
                        }
                        queue.push(after);
                        assert(queue.deep_view() =~= before.push(after@));
                        assert(queue.deep_view()[before.len() as int] == after@);
                        assert(coming == Some(after@) && queue.deep_view().contains(after@));
                        assert forall|x: Seq<char>| before.contains(x) || x == after@ implies queue.deep_view().contains(
                            x,
                        ) by {
                            if before.contains(x) {
                                assert(queue.deep_view()[before.index_of(x)] == x);
                            } else {
                                assert(queue.deep_view()[before.len() as int] == x);
                            }
                        }
                        assert forall|k: int| 0 <= k < queue.len() implies reached(
                            s,
                            from,
                            ok,
                            step,
                            #[trigger] queue.deep_view()[k],
                        ) by {
                            if k < before.len() {
                                assert(queue.deep_view()[k] == before[k]);
                            }
                        }
                    }
                    assert(coming is Some ==> queue.deep_view().contains(coming->0));
                    assert forall|k: int| 0 <= k < from.len() implies queue.deep_view().contains(
                        #[trigger] from[k],
                    ) || settled(s, ok, marks@, from[k]) by {
                        assert(q.contains(from[k]) || settled(s, ok, m, from[k]));
                    }
                    assert forall|j: int| 0 <= j < s.len() && marks@[j] && (step(
                        #[trigger] s[j],
                    ) is Some) implies queue.deep_view().contains(step(s[j])->0) || settled(
                        s,
                        ok,
                        marks@,
                        step(s[j])->0,
                    ) by {
                        if j != i {
                            assert(m[j]);
                            assert(q.contains(step(s[j])->0) || settled(s, ok, m, step(s[j])->0));
                        }
                    }
                }
            },
        }
    }
    let mut out: Vec<T> = Vec::new();
    let ghost p = |v: <T as DeepView>::V| ok(v) && reached(s, from, ok, step, v.key());
    proof {
        assert(queue.deep_view() =~= Seq::empty());
        assert forall|i: int| 0 <= i < s.len() implies marks@[i] == p(#[trigger] s[i]) by {
            if p(s[i]) {
                reveal(reached);
                reveal(settled);
                let chain = choose|chain: Seq<Seq<char>>| #[trigger]
                    is_chain(s, from, ok, step, chain) && chain.last() == s[i].key();
                chains_are_settled(s, from, ok, step, marks@, chain, chain.len() - 1);
            }
        }
        reveal(Seq::filter);
    }
    assert(s.take(0) =~= Seq::empty());
    assert(out.deep_view() =~= Seq::empty());
    for i in 0..rows.len()
        invariant
            s == rows.deep_view(),
            marks.len() == s.len(),
            p == (|v: <T as DeepView>::V| ok(v) && reached(s, from, ok, step, v.key())),
            forall|i: int| 0 <= i < s.len() ==> marks@[i] == p(#[trigger] s[i]),
            out.deep_view() == s.take(i as int).filter(p),
    {
        let ghost v = s[i as int];
        let ghost before = out.deep_view();
        assert(s.take(i + 1) =~= s.take(i as int).push(v));
        proof {
            s.take(i as int).lemma_filter_push(v, p);
        }
        assert(v == rows[i as int].deep_view());
        if marks[i] {
            out.push(rows[i].copy());
            assert(out.deep_view() =~= before.push(v));
        }
    }
    assert(s.take(s.len() as int) =~= s);
    out
}

// ---- What an export holds ---------------------------------------------------

/// A decision may be exported at all: it is sealed.
pub open spec fn exportable() -> spec_fn(StoredDecisionView) -> bool {
    |d: StoredDecisionView| !d.staged
}

/// The decision that one supersedes.
pub open spec fn superseded_one() -> spec_fn(StoredDecisionView) -> Option<Seq<char>> {
    |d: StoredDecisionView| d.supersedes
}

/// Every task may be exported.
pub open spec fn any_task() -> spec_fn(TaskRecordView) -> bool {
    |t: TaskRecordView| true
}

/// The task above one.
pub open spec fn parent_task() -> spec_fn(TaskRecordView) -> Option<Seq<char>> {
    |t: TaskRecordView| t.parent_task_id
}

/// The decisions of an export: the sealed ones from the bound on, and the sealed ones
/// that those supersede, however far back.
pub open spec fn exported_decisions(log: Log, since: Option<SinceBoundView>) -> Seq<StoredDecisionView> {
    closure(log.decisions, log.sealed_ids(since), exportable(), superseded_one())
}

/// The tasks that decisions belong to.
pub open spec fn task_ids_of(decisions: Seq<StoredDecisionView>) -> Seq<Seq<char>>
    decreases decisions.len(),
{
    if decisions.len() == 0 {
        Seq::empty()
    } else {
        let ids = task_ids_of(decisions.drop_last());
        match decisions.last().task_id {
            Some(id) => ids.push(id),
            None => ids,
        }
    }
}

/// The tasks of an export: those that its decisions belong to, and the tasks above them.
pub open spec fn exported_tasks(log: Log, since: Option<SinceBoundView>) -> Seq<TaskRecordView> {
    closure(log.tasks, task_ids_of(exported_decisions(log, since)), any_task(), parent_task())
}

/// The invariants of an export: those that its decisions declared, retired ones too.
pub open spec fn exported_invariants(log: Log, since: Option<SinceBoundView>) -> Seq<InvariantRecordView> {
    log.invariants.filter(|v: InvariantRecordView| holds(exported_decisions(log, since), v.declared_by))
}

/// Everything that an export holds.
pub open spec fn exported(log: Log, since: Option<SinceBoundView>) -> Log {
    Log {
        tasks: exported_tasks(log, since),
        decisions: exported_decisions(log, since),
        invariants: exported_invariants(log, since),
    }
}

/// Gathers what an export holds, each list ascending by id.
///
/// The bound selects a starting point, but a selection is not yet a file: it is closed
/// over the references that an import must resolve. Causes are not chased: one edge into
/// old history would drag in most of the log, and a missing cause only ends a trace early.
pub fn collect(store: &Store, since: Option<&SinceBound>) -> (r: (
    Vec<TaskRecord>,
    Vec<StoredDecision>,
    Vec<InvariantRecord>,
))
    requires
        store.wf(),
    ensures
        r.0.deep_view() == exported_tasks(store@, since.deep_view()),
        r.1.deep_view() == exported_decisions(store@, since.deep_view()),
        r.2.deep_view() == exported_invariants(store@, since.deep_view()),
{
    let ghost log = store@;
    let ghost bound = since.deep_view();
    let selected = store.sealed_decision_ids(since);
    let sealed_only = |d: &StoredDecision| -> (b: bool)
        ensures
            b == exportable()(d@),
        { !d.staged };
    let previous = |d: &StoredDecision| -> (o: Option<String>)
        ensures
            o.deep_view() == superseded_one()(d@),
        { d.supersedes.clone() };
    let decisions = close_over(
        store.decision_rows(),
        selected,
        sealed_only,
        previous,
        Ghost(exportable()),
        Ghost(superseded_one()),
    );
    let ghost all = decisions.deep_view();
    let mut task_ids: Vec<String> = Vec::new();
    assert(all.take(0) =~= Seq::empty());
    assert(task_ids.deep_view() =~= Seq::empty());
    for i in 0..decisions.len()
        invariant
            all == decisions.deep_view(),
            task_ids.deep_view() == task_ids_of(all.take(i as int)),
    {
        let ghost before = task_ids.deep_view();
        assert(all.take(i + 1).drop_last() =~= all.take(i as int));
        assert(all.take(i + 1).last() == decisions[i as int]@);
        if let Some(id) = &decisions[i].task_id {
            task_ids.push(id.clone());
            assert(task_ids.deep_view() =~= before.push(id@));
        }
    }
    assert(all.take(all.len() as int) =~= all);
    let every = |t: &TaskRecord| -> (b: bool)
        ensures
            b == any_task()(t@),
        { true };
    let above = |t: &TaskRecord| -> (o: Option<String>)
        ensures
            o.deep_view() == parent_task()(t@),
        { t.parent_task_id.clone() };
    let tasks = close_over(
        store.task_rows(),
        task_ids,
        every,
        above,
        Ghost(any_task()),
        Ghost(parent_task()),
    );
    let declared = |v: &InvariantRecord| -> (b: bool)
        ensures
            b == holds(decisions.deep_view(), v@.declared_by),
        { known(&decisions, v.declared_by.as_str()) };
    let copy = |v: &InvariantRecord| -> (row: InvariantRecord)
        ensures
            row@ == v@,
        { v.clone() };
    let invariants = gather(
        store.invariant_rows(),
        declared,
        copy,
        Ghost(|v: InvariantRecordView| holds(all, v.declared_by)),
        Ghost(|v: InvariantRecordView| v),
    );
    assert(invariants.deep_view() =~= exported_invariants(log, bound));
    (tasks, decisions, invariants)
}

/// How many records of each kind an export holds.
#[derive(Debug, Clone, Copy, PartialEq, Eq, Structural)]
pub struct Counts {
    pub tasks: usize,
    pub decisions: usize,
    pub invariants: usize,
}

/// The reply.
#[derive(Debug, PartialEq, Eq)]
pub struct ExportResult {
    pub path: String,
    pub format: u32,
    pub exported: Counts,
    pub since: Option<String>,
}

/// The records of a file, in order: a header, then tasks, decisions and invariants.
pub open spec fn file_of(header: HeaderView, log: Log) -> Seq<RecordView> {
    seq![RecordView::Header(header)] + log.tasks.map_values(|t: TaskRecordView| RecordView::Task(t))
        + log.decisions.map_values(|d: StoredDecisionView| RecordView::Decision(d))
        + log.invariants.map_values(|v: InvariantRecordView| RecordView::Invariant(v))
}

/// Lays out the records of a file.
fn lay_out(
    header: Header,
    tasks: &Vec<TaskRecord>,
    decisions: &Vec<StoredDecision>,
    invariants: &Vec<InvariantRecord>,
) -> (r: Vec<Record>)
    ensures
        r.deep_view() == file_of(
            header@,
            Log {
                tasks: tasks.deep_view(),
                decisions: decisions.deep_view(),
                invariants: invariants.deep_view(),
            },
        ),
{
    let ghost head = seq![RecordView::Header(header@)];
    let ghost t = tasks.deep_view().map_values(|t: TaskRecordView| RecordView::Task(t));
    let ghost d = decisions.deep_view().map_values(|d: StoredDecisionView| RecordView::Decision(d));
    let ghost v = invariants.deep_view().map_values(|v: InvariantRecordView| RecordView::Invariant(v));
    let mut out: Vec<Record> = Vec::new();
    out.push(Record::Header(header));
    assert(out.deep_view() =~= head + t.take(0));
    for i in 0..tasks.len()
        invariant
            t == tasks.deep_view().map_values(|t: TaskRecordView| RecordView::Task(t)),
            out.deep_view() == head + t.take(i as int),
    {
        let ghost before = out.deep_view();
        out.push(Record::Task(tasks[i].clone()));
        assert(t[i as int] == RecordView::Task(tasks[i as int]@));
        assert(out.deep_view() =~= before.push(t[i as int]));
        assert(out.deep_view() =~= head + t.take(i + 1));
    }
    assert(t.take(t.len() as int) =~= t);
    assert(out.deep_view() =~= head + t + d.take(0));
    for i in 0..decisions.len()
        invariant
            d == decisions.deep_view().map_values(|d: StoredDecisionView| RecordView::Decision(d)),
            out.deep_view() == head + t + d.take(i as int),
    {
        let ghost before = out.deep_view();
        out.push(Record::Decision(Box::new(decisions[i].clone())));
        assert(d[i as int] == RecordView::Decision(decisions[i as int]@));
        assert(out.deep_view() =~= before.push(d[i as int]));
        assert(out.deep_view() =~= head + t + d.take(i + 1));
    }
    assert(d.take(d.len() as int) =~= d);
    assert(out.deep_view() =~= head + t + d + v.take(0));
    for i in 0..invariants.len()
        invariant
            v == invariants.deep_view().map_values(|v: InvariantRecordView| RecordView::Invariant(v)),
            out.deep_view() == head + t + d + v.take(i as int),
    {
        let ghost before = out.deep_view();
        out.push(Record::Invariant(invariants[i].clone()));
        assert(v[i as int] == RecordView::Invariant(invariants[i as int]@));
        assert(out.deep_view() =~= before.push(v[i as int]));
        assert(out.deep_view() =~= head + t + d + v.take(i + 1));
    }
    assert(v.take(v.len() as int) =~= v);
    out
}

/// The bound that an optional text names.
pub open spec fn since_named(raw: Option<Seq<char>>) -> Option<SinceBoundView> {
    match raw {
        Some(text) => since_of(text),
        None => None,
    }
}

/// Makes the records of an export file, and the reply.
pub fn run(store: &Store, args: &ExportArgs) -> (r: Result<(Vec<Record>, ExportResult), AppError>)
    requires
        store.wf(),
    ensures
        match r {
            Err(e) => args.since.deep_view() matches Some(raw) && since_of(raw) is None && e@ == failure(
                "invalid_since"@,
                "--since must be a decision id (ULID) or a YYYY-MM-DD date, got "@ + debug_text(
                    text::trimmed(raw),
                ),
            ),
            Ok((records, reply)) => {
                let out = exported(store@, since_named(args.since.deep_view()));
                &&& args.since.deep_view() matches Some(raw) ==> since_of(raw) is Some
                &&& exists|at: i64|
                    at >= 0 && records.deep_view() == #[trigger] file_of(
                        HeaderView {
                            format: FORMAT_VERSION,
                            schema_version: SCHEMA_VERSION,
                            exported_at: at,
                        },
                        out,
                    )
                &&& reply.path@ == args.out@
                &&& reply.format == FORMAT_VERSION
                &&& reply.exported.tasks == out.tasks.len()
                &&& reply.exported.decisions == out.decisions.len()
                &&& reply.exported.invariants == out.invariants.len()
                &&& reply.since.deep_view() == args.since.deep_view()
            },
        },
{
    let since = match &args.since {
        Some(raw) => match parse_since(raw.as_str()) {
            Ok(bound) => Some(bound),
            Err(e) => {
                return Err(e);
            },
        },
        None => None,
    };
    let bound = match &since {
        Some(b) => Some(b),
        None => None,
    };
    assert(bound.deep_view() == since_named(args.since.deep_view()));
    let (tasks, decisions, invariants) = collect(store, bound);
    let at: i64 = now_ms();
    let header = Header {
        format: FORMAT_VERSION,
        schema_version: store.schema_version(),
        exported_at: at,
    };
    let reply = ExportResult {
        path: args.out.clone(),
        format: FORMAT_VERSION,
        exported: Counts {
            tasks: tasks.len(),
            decisions: decisions.len(),
            invariants: invariants.len(),
        },
        since: args.since.clone(),
    };
    let records = lay_out(header, &tasks, &decisions, &invariants);
    assert(records.deep_view() == file_of(
        HeaderView { format: FORMAT_VERSION, schema_version: SCHEMA_VERSION, exported_at: at },
        exported(store@, since_named(args.since.deep_view())),
    ));
    assert(tasks.deep_view().len() == tasks@.len());
    assert(decisions.deep_view().len() == decisions@.len());
    assert(invariants.deep_view().len() == invariants@.len());
    Ok((records, reply))
}

// ---- Laws -------------------------------------------------------------------

/// Only sealed decisions of the log are exported, as they are.
pub proof fn export_is_sealed(log: Log, since: Option<SinceBoundView>, d: StoredDecisionView)
    requires
        log.wf(),
        exported_decisions(log, since).contains(d),
    ensures
        !d.staged,
        d.binding is Some,
        log.decisions.contains(d),
{
    let p = |v: StoredDecisionView|
        exportable()(v) && reached(
            log.decisions,
            log.sealed_ids(since),
            exportable(),
            superseded_one(),
            v.key(),
        );
    selection(log.decisions, p);
    assert(log.decisions.filter(p).contains(d));
    let k = log.decisions.index_of(d);
    assert(bound_iff_sealed(log.decisions[k]));
}

/// What is in a closure.
proof fn closure_holds<V: Keyed>(
    rows: Seq<V>,
    start: Seq<Seq<char>>,
    keep: spec_fn(V) -> bool,
    next: spec_fn(V) -> Option<Seq<char>>,
    id: Seq<char>,
)
    requires
        ascending(rows),
    ensures
        ascending(closure(rows, start, keep, next)),
        reached(rows, start, keep, next, id) && (lookup(rows, id) matches Some(v) && keep(v)) ==> holds(
            closure(rows, start, keep, next),
            id,
        ),
        forall|v: V| #[trigger]
            closure(rows, start, keep, next).contains(v) ==> rows.contains(v) && keep(v) && reached(
                rows,
                start,
                keep,
                next,
                v.key(),
            ),
{
    let p = |v: V| keep(v) && reached(rows, start, keep, next, v.key());
    selection(rows, p);
    assert(closure(rows, start, keep, next) == rows.filter(p));
    lookup_sound(rows, id);
    if reached(rows, start, keep, next, id) && (lookup(rows, id) matches Some(v) && keep(v)) {
        let v = lookup(rows, id)->0;
        assert(p(v));
        let c = rows.filter(p);
        assert(c.contains(v));
        assert(c[c.index_of(v)].key() == id);
    }
}

/// A closure holds what its rows refer to, where that is kept.
proof fn closure_is_closed<V: Keyed>(
    rows: Seq<V>,
    start: Seq<Seq<char>>,
    keep: spec_fn(V) -> bool,
    next: spec_fn(V) -> Option<Seq<char>>,
    i: int,
)
    requires
        ascending(rows),
        0 <= i < closure(rows, start, keep, next).len(),
        next(closure(rows, start, keep, next)[i]) matches Some(id) ==> (lookup(rows, id) matches Some(v)
            && keep(v)),
    ensures
        resolves(closure(rows, start, keep, next), next(closure(rows, start, keep, next)[i])),
{
    let c = closure(rows, start, keep, next);
    let v = c[i];
    assert(c.contains(v));
    if let Some(id) = next(v) {
        closure_holds(rows, start, keep, next, id);
        let k = rows.index_of(v);
        next_is_reached(rows, start, keep, next, k, id);
    }
}

/// No sealed decision supersedes a pending one.
pub open spec fn seals_in_order(log: Log) -> bool {
    forall|i: int|
        0 <= i < log.decisions.len() && !(#[trigger] log.decisions[i]).staged ==> (
        log.decisions[i].supersedes matches Some(id) ==> log.is_sealed(id))
}

/// An export is referentially whole: every reference in it names a record in it.
pub proof fn export_is_whole(log: Log, since: Option<SinceBoundView>)
    requires
        log.wf(),
        seals_in_order(log),
    ensures
        exported(log, since).wf(),
{
    let out = exported(log, since);
    let start = log.sealed_ids(since);
    let task_start = task_ids_of(out.decisions);
    closure_holds(log.decisions, start, exportable(), superseded_one(), Seq::empty());
    closure_holds(log.tasks, task_start, any_task(), parent_task(), Seq::empty());
    filter_ascending(
        log.invariants,
        |v: InvariantRecordView| holds(exported_decisions(log, since), v.declared_by),
    );
    assert forall|i: int| 0 <= i < out.tasks.len() implies resolves(
        out.tasks,
        #[trigger] out.tasks[i].parent_task_id,
    ) by {
        let t = out.tasks[i];
        assert(out.tasks.contains(t));
        let k = log.tasks.index_of(t);
        assert(resolves(log.tasks, log.tasks[k].parent_task_id));
        if let Some(id) = t.parent_task_id {
            lookup_sound(log.tasks, id);
        }
        assert(parent_task()(t) == t.parent_task_id);
        closure_is_closed(log.tasks, task_start, any_task(), parent_task(), i);
    }
    assert forall|i: int| 0 <= i < out.decisions.len() implies resolves(
        out.tasks,
        (#[trigger] out.decisions[i]).task_id,
    ) && resolves(out.decisions, out.decisions[i].supersedes) && bound_iff_sealed(out.decisions[i]) by {
        let d = out.decisions[i];
        assert(out.decisions.contains(d));
        let k = log.decisions.index_of(d);
        assert(bound_iff_sealed(log.decisions[k]));
        assert(resolves(log.tasks, log.decisions[k].task_id));
        if let Some(id) = d.task_id {
            lookup_sound(log.tasks, id);
            task_ids_hold(out.decisions, i);
            start_is_reached(log.tasks, task_start, any_task(), parent_task(), id);
            closure_holds(log.tasks, task_start, any_task(), parent_task(), id);
        }
        if let Some(id) = d.supersedes {
            assert(log.is_sealed(id));
        }
        assert(superseded_one()(d) == d.supersedes);
        closure_is_closed(log.decisions, start, exportable(), superseded_one(), i);
    }
    let p = |v: InvariantRecordView| holds(out.decisions, v.declared_by);
    assert(out.invariants == log.invariants.filter(p));
    assert forall|i: int| 0 <= i < out.invariants.len() implies holds(
        out.decisions,
        #[trigger] out.invariants[i].declared_by,
    ) by {
        log.invariants.lemma_filter_pred(p, i);
    }
}

/// A decision's task is among the tasks of the decisions.
proof fn task_ids_hold(decisions: Seq<StoredDecisionView>, i: int)
    requires
        0 <= i < decisions.len(),
        decisions[i].task_id is Some,
    ensures
        task_ids_of(decisions).contains(decisions[i].task_id->0),
    decreases decisions.len(),
{
    let front = decisions.drop_last();
    let ids = task_ids_of(decisions);
    if i < front.len() {
        task_ids_hold(front, i);
        let before = task_ids_of(front);
        let k = before.index_of(decisions[i].task_id->0);
        assert(ids[k] == before[k]);
    } else {
        assert(ids.last() == decisions[i].task_id->0);
        assert(ids.contains(ids[ids.len() - 1]));
    }
}

/// Without a bound every sealed decision is exported, and no other.
pub proof fn export_of_all(log: Log)
    requires
        log.wf(),
    ensures
        exported_decisions(log, None) == log.decisions.filter(|d: StoredDecisionView| !d.staged),
{
    let start = log.sealed_ids(None);
    let p = |d: StoredDecisionView| !d.staged;
    selection(log.decisions, p);
    selection(
        log.decisions,
        |d: StoredDecisionView| !d.staged && crate::store::since_admits(None, d),
    );
    closure_holds(log.decisions, start, exportable(), superseded_one(), Seq::empty());
    let a = exported_decisions(log, None);
    let b = log.decisions.filter(p);
    assert forall|d: StoredDecisionView| #[trigger] a.contains(d) <==> b.contains(d) by {
        if b.contains(d) {
            let k = log.decisions.index_of(d);
            lookup_at(log.decisions, k);
            assert(start.contains(d.id));
            start_is_reached(log.decisions, start, exportable(), superseded_one(), d.id);
            closure_holds(log.decisions, start, exportable(), superseded_one(), d.id);
            lookup_sound(a, d.id);
            let e = lookup(a, d.id)->0;
            assert(a.contains(e));
            let j = log.decisions.index_of(e);
            keys_unique(log.decisions, j, k);
        }
    }
    same_rows(a, b);
}

/// Whatever stands on a chain is reached.
proof fn chain_is_reached<V: Keyed>(
    rows: Seq<V>,
    start: Seq<Seq<char>>,
    keep: spec_fn(V) -> bool,
    next: spec_fn(V) -> Option<Seq<char>>,
    chain: Seq<Seq<char>>,
    k: int,
)
    requires
        is_chain(rows, start, keep, next, chain),
        0 <= k < chain.len(),
    ensures
        reached(rows, start, keep, next, chain[k]),
{
    reveal(reached);
    let part = chain.take(k + 1);
    assert forall|i: int, j: int| 0 <= i && j == i + 1 && j < part.len() implies #[trigger] is_link(
        rows,
        keep,
        next,
        part[i],
        part[j],
    ) by {
        assert(is_link(rows, keep, next, chain[i], chain[j]));
    }
    assert(part[0] == chain[0]);
    assert(is_chain(rows, start, keep, next, part));
    assert(part.last() == chain[k]);
}

/// A closure is closed over already: to close over its rows again changes nothing.
proof fn closure_again<V: Keyed>(
    rows: Seq<V>,
    start: Seq<Seq<char>>,
    keep: spec_fn(V) -> bool,
    next: spec_fn(V) -> Option<Seq<char>>,
)
    requires
        ascending(rows),
    ensures
        closure(closure(rows, start, keep, next), start, keep, next) == closure(rows, start, keep, next),
{
    let c = closure(rows, start, keep, next);
    closure_holds(rows, start, keep, next, Seq::empty());
    closure_holds(c, start, keep, next, Seq::empty());
    let again = closure(c, start, keep, next);
    assert forall|v: V| #[trigger] again.contains(v) <==> c.contains(v) by {
        if c.contains(v) {
            let chain = choose_chain(rows, start, keep, next, v.key());
            assert forall|i: int, j: int| 0 <= i && j == i + 1 && j < chain.len() implies #[trigger] is_link(
                c,
                keep,
                next,
                chain[i],
                chain[j],
            ) by {
                assert(is_link(rows, keep, next, chain[i], chain[j]));
                chain_is_reached(rows, start, keep, next, chain, i);
                closure_holds(rows, start, keep, next, chain[i]);
                same_lookup(rows, c, chain[i]);
            }
            assert(is_chain(c, start, keep, next, chain));
            assert(reached(c, start, keep, next, v.key())) by {
                reveal(reached);
            }
            lookup_at(c, c.index_of(v));
            closure_holds(c, start, keep, next, v.key());
            same_lookup(c, again, v.key());
            lookup_sound(again, v.key());
        }
    }
    same_rows(again, c);
}

/// A chain that leads to what is reached.
proof fn choose_chain<V: Keyed>(
    rows: Seq<V>,
    start: Seq<Seq<char>>,
    keep: spec_fn(V) -> bool,
    next: spec_fn(V) -> Option<Seq<char>>,
    id: Seq<char>,
) -> (chain: Seq<Seq<char>>)
    requires
        reached(rows, start, keep, next, id),
    ensures
        is_chain(rows, start, keep, next, chain),
        chain.last() == id,
{
    reveal(reached);
    choose|chain: Seq<Seq<char>>| #[trigger]
        is_chain(rows, start, keep, next, chain) && chain.last() == id
}

/// A row that some of the rows have is the one that all of them have.
proof fn same_lookup<V: Keyed>(rows: Seq<V>, some: Seq<V>, id: Seq<char>)
    requires
        ascending(rows),
        ascending(some),
        forall|v: V| #[trigger] some.contains(v) ==> rows.contains(v),
        holds(some, id),
    ensures
        lookup(some, id) == lookup(rows, id),
{
    lookup_sound(some, id);
    let v = lookup(some, id)->0;
    assert(some.contains(v));
    lookup_at(rows, rows.index_of(v));
}

/// Rows that all pass are all selected.
proof fn all_selected<V: Keyed>(rows: Seq<V>, p: spec_fn(V) -> bool)
    requires
        ascending(rows),
        forall|v: V| #[trigger] rows.contains(v) ==> p(v),
    ensures
        rows.filter(p) == rows,
{
    selection(rows, p);
    same_rows(rows.filter(p), rows);
}

/// Sealed decisions land as they are.
proof fn sealed_lands_unchanged(log: Log)
    requires
        forall|i: int| 0 <= i < log.decisions.len() ==> !(#[trigger] log.decisions[i]).staged,
    ensures
        log.decisions.map_values(|d: StoredDecisionView| landed(d)) == log.decisions,
{
    assert forall|i: int| 0 <= i < log.decisions.len() implies landed(#[trigger] log.decisions[i])
        == log.decisions[i] by {}
    assert(log.decisions.map_values(|d: StoredDecisionView| landed(d)) =~= log.decisions);
}

/// A whole set of records can be imported anywhere.
pub proof fn whole_records_import(into: Log, records: Log)
    requires
        into.wf(),
        records.wf(),
        forall|i: int| 0 <= i < records.decisions.len() ==> !(#[trigger] records.decisions[i]).staged,
    ensures
        into.names_bindings(records.decisions),
        into.imported(records.tasks, records.decisions, records.invariants).closed_under_references(),
{
    sealed_lands_unchanged(records);
    merge_holds(into.tasks, records.tasks);
    merge_holds(into.decisions, records.decisions);
    merge_holds(into.invariants, records.invariants);
    assert forall|k: int| 0 <= k < records.decisions.len() implies (
    #[trigger] records.decisions[k]).binding is Some by {
        assert(bound_iff_sealed(records.decisions[k]));
    }
    let next = into.imported(records.tasks, records.decisions, records.invariants);
    assert forall|i: int| 0 <= i < next.tasks.len() implies resolves(
        next.tasks,
        #[trigger] next.tasks[i].parent_task_id,
    ) by {
        let t = next.tasks[i];
        assert(next.tasks.contains(t));
        if into.tasks.contains(t) {
            assert(resolves(into.tasks, into.tasks[into.tasks.index_of(t)].parent_task_id));
        } else {
            assert(resolves(records.tasks, records.tasks[records.tasks.index_of(t)].parent_task_id));
        }
    }
    assert forall|i: int| 0 <= i < next.decisions.len() implies resolves(
        next.tasks,
        (#[trigger] next.decisions[i]).task_id,
    ) && resolves(next.decisions, next.decisions[i].supersedes) by {
        let d = next.decisions[i];
        assert(next.decisions.contains(d));
        if into.decisions.contains(d) {
            let k = into.decisions.index_of(d);
            assert(resolves(into.tasks, into.decisions[k].task_id));
            assert(resolves(into.decisions, into.decisions[k].supersedes));
        } else {
            let k = records.decisions.index_of(d);
            assert(resolves(records.tasks, records.decisions[k].task_id));
            assert(resolves(records.decisions, records.decisions[k].supersedes));
        }
    }
    assert forall|i: int| 0 <= i < next.invariants.len() implies holds(
        next.decisions,
        #[trigger] next.invariants[i].declared_by,
    ) by {
        let v = next.invariants[i];
        assert(next.invariants.contains(v));
        if into.invariants.contains(v) {
            assert(holds(into.decisions, into.invariants[into.invariants.index_of(v)].declared_by));
        } else {
            assert(holds(
                records.decisions,
                records.invariants[records.invariants.index_of(v)].declared_by,
            ));
        }
    }
}

/// Rows in order have different keys.
proof fn ascending_is_unique<V: Keyed>(s: Seq<V>)
    requires
        ascending(s),
    ensures
        unique_keys(s),
{
    assert forall|i: int, j: int| 0 <= i < j < s.len() implies (#[trigger] s[i]).key() != (
    #[trigger] s[j]).key() by {
        if s[i].key() == s[j].key() {
            keys_unique(s, i, j);
        }
    }
}

proof fn merge_into_nothing<V: Keyed>(add: Seq<V>)
    requires
        ascending(add),
    ensures
        merge(Seq::empty(), add) == add,
{
    let none = Seq::<V>::empty();
    ascending_is_unique(add);
    merge_holds(none, add);
    assert forall|x: V| #[trigger] merge(none, add).contains(x) <==> add.contains(x) by {
        merge_contains(none, add, x);
    }
    same_rows(merge(none, add), add);
}

/// What is exported is read back: imported into an empty log, an export gives the log
/// that it holds, row for row.
pub proof fn export_reads_back(log: Log, since: Option<SinceBoundView>)
    requires
        log.wf(),
        seals_in_order(log),
    ensures
        ({
            let out = exported(log, since);
            &&& Log::empty().names_bindings(out.decisions)
            &&& Log::empty().imported(out.tasks, out.decisions, out.invariants) == out
            &&& out.wf()
        }),
{
    let out = exported(log, since);
    export_is_whole(log, since);
    assert forall|i: int| 0 <= i < out.decisions.len() implies !(#[trigger] out.decisions[i]).staged by {
        assert(out.decisions.contains(out.decisions[i]));
        export_is_sealed(log, since, out.decisions[i]);
    }
    sealed_lands_unchanged(out);
    whole_records_import(Log::empty(), out);
    merge_into_nothing(out.tasks);
    merge_into_nothing(out.decisions);
    merge_into_nothing(out.invariants);
}

/// An export is given on unchanged: exporting what it holds, or exporting all of an empty
/// log that took it in, gives the same tasks, decisions and invariants.
pub proof fn export_is_stable(log: Log, since: Option<SinceBoundView>)
    requires
        log.wf(),
        seals_in_order(log),
    ensures
        ({
            let out = exported(log, since);
            &&& exported(out, None) == out
            &&& exported(
                Log::empty().imported(out.tasks, out.decisions, out.invariants),
                None,
            ) == out
        }),
{
    let out = exported(log, since);
    export_is_whole(log, since);
    export_reads_back(log, since);
    export_of_all(out);
    assert forall|d: StoredDecisionView| #[trigger] out.decisions.contains(d) implies !d.staged by {
        export_is_sealed(log, since, d);
    }
    all_selected(out.decisions, |d: StoredDecisionView| !d.staged);
    closure_again(log.tasks, task_ids_of(out.decisions), any_task(), parent_task());
    assert forall|v: InvariantRecordView| #[trigger] out.invariants.contains(v) implies holds(
        out.decisions,
        v.declared_by,
    ) by {
        let k = out.invariants.index_of(v);
        assert(holds(out.decisions, out.invariants[k].declared_by));
    }
    let after = exported_decisions(out, None);
    assert(after == out.decisions);
    let p = |v: InvariantRecordView| holds(exported_decisions(out, None), v.declared_by);
    assert(exported_invariants(out, None) == out.invariants.filter(p));
    all_selected(out.invariants, p);
}

/// An export can be imported into any log.
pub proof fn export_imports_anywhere(log: Log, since: Option<SinceBoundView>, into: Log)
    requires
        log.wf(),
        seals_in_order(log),
        into.wf(),
    ensures
        ({
            let out = exported(log, since);
            &&& into.names_bindings(out.decisions)
            &&& into.imported(out.tasks, out.decisions, out.invariants).wf()
        }),
{
    let out = exported(log, since);
    export_is_whole(log, since);
    assert forall|i: int| 0 <= i < out.decisions.len() implies !(#[trigger] out.decisions[i]).staged by {
        assert(out.decisions.contains(out.decisions[i]));
        export_is_sealed(log, since, out.decisions[i]);
    }
    whole_records_import(into, out);
    crate::log::imported_bound(into, out.tasks, out.decisions, out.invariants);
}

/// What a closure holds: the kept rows that it starts from, and those that its own rows
/// refer to; nothing else.
proof fn closure_is_exact<V: Keyed>(
    rows: Seq<V>,
    start: Seq<Seq<char>>,
    keep: spec_fn(V) -> bool,
    next: spec_fn(V) -> Option<Seq<char>>,
    v: V,
)
    requires
        ascending(rows),
    ensures
        closure(rows, start, keep, next).contains(v) <==> rows.contains(v) && keep(v) && (start.contains(v.key())
            || refers(closure(rows, start, keep, next), next, v.key())),
{
    let c = closure(rows, start, keep, next);
    closure_holds(rows, start, keep, next, v.key());
    if c.contains(v) {
        let chain = choose_chain(rows, start, keep, next, v.key());
        let n = chain.len() as int;
        if n == 1 {
            assert(chain[0] == v.key());
        } else {
            assert(is_link(rows, keep, next, chain[n - 2], chain[n - 1]));
            chain_is_reached(rows, start, keep, next, chain, n - 2);
            closure_holds(rows, start, keep, next, chain[n - 2]);
            same_lookup(rows, c, chain[n - 2]);
            lookup_sound(c, chain[n - 2]);
            let w = lookup(c, chain[n - 2])->0;
            assert(c.contains(w) && next(w) == Some(v.key()));
        }
    }
    if rows.contains(v) && keep(v) && (start.contains(v.key()) || refers(c, next, v.key())) {
        if start.contains(v.key()) {
            start_is_reached(rows, start, keep, next, v.key());
        } else {
            let w = choose|w: V| #[trigger] c.contains(w) && next(w) == Some(v.key());
            next_is_reached(rows, start, keep, next, rows.index_of(w), v.key());
        }
        let p = |x: V| keep(x) && reached(rows, start, keep, next, x.key());
        selection(rows, p);
        assert(p(v));
        assert(c == rows.filter(p));
    }
}

/// Some row of a list refers to `id`.
pub open spec fn refers<V: Keyed>(rows: Seq<V>, next: spec_fn(V) -> Option<Seq<char>>, id: Seq<char>) -> bool {
    exists|w: V| #[trigger] rows.contains(w) && next(w) == Some(id)
}

/// What an export holds. Of the decisions those sealed ones that the bound selects, and
/// those that another decision of the export supersedes. Of the tasks those that a decision
/// of the export belongs to, and those above another task of it. Of the invariants those
/// that a decision of the export declared. Each as it is in the log, and nothing else.
pub proof fn export_is_exact(
    log: Log,
    since: Option<SinceBoundView>,
    d: StoredDecisionView,
    t: TaskRecordView,
    v: InvariantRecordView,
)
    requires
        log.ordered(),
    ensures
        ({
            let out = exported(log, since);
            &&& out.decisions.contains(d) <==> log.decisions.contains(d) && !d.staged && (log.sealed_ids(
                since,
            ).contains(d.id) || exists|e: StoredDecisionView| #[trigger]
                out.decisions.contains(e) && e.supersedes == Some(d.id))
            &&& out.tasks.contains(t) <==> log.tasks.contains(t) && ((exists|e: StoredDecisionView| #[trigger]
                out.decisions.contains(e) && e.task_id == Some(t.id)) || exists|u: TaskRecordView| #[trigger]
                out.tasks.contains(u) && u.parent_task_id == Some(t.id))
            &&& out.invariants.contains(v) <==> log.invariants.contains(v) && exists|e: StoredDecisionView| #[trigger]
                out.decisions.contains(e) && e.id == v.declared_by
        }),
{
    let out = exported(log, since);
    let start = log.sealed_ids(since);
    closure_is_exact(log.decisions, start, exportable(), superseded_one(), d);
    let up = superseded_one();
    assert(refers(out.decisions, up, d.id) <==> exists|e: StoredDecisionView| #[trigger]
        out.decisions.contains(e) && e.supersedes == Some(d.id)) by {
        if refers(out.decisions, up, d.id) {
            let e = choose|e: StoredDecisionView| #[trigger] out.decisions.contains(e) && up(e) == Some(d.id);
            assert(e.supersedes == Some(d.id));
        }
        if exists|e: StoredDecisionView| #[trigger] out.decisions.contains(e) && e.supersedes == Some(d.id) {
            let e = choose|e: StoredDecisionView| #[trigger]
                out.decisions.contains(e) && e.supersedes == Some(d.id);
            assert(up(e) == Some(d.id));
        }
    }
    let ids = task_ids_of(out.decisions);
    closure_is_exact(log.tasks, ids, any_task(), parent_task(), t);
    let above = parent_task();
    assert(refers(out.tasks, above, t.id) <==> exists|u: TaskRecordView| #[trigger]
        out.tasks.contains(u) && u.parent_task_id == Some(t.id)) by {
        if refers(out.tasks, above, t.id) {
            let u = choose|u: TaskRecordView| #[trigger] out.tasks.contains(u) && above(u) == Some(t.id);
            assert(u.parent_task_id == Some(t.id));
        }
        if exists|u: TaskRecordView| #[trigger] out.tasks.contains(u) && u.parent_task_id == Some(t.id) {
            let u = choose|u: TaskRecordView| #[trigger]
                out.tasks.contains(u) && u.parent_task_id == Some(t.id);
            assert(above(u) == Some(t.id));
        }
    }
    task_ids_are_named(out.decisions, t.id);
    let p = |x: InvariantRecordView| holds(exported_decisions(log, since), x.declared_by);
    selection(log.invariants, p);
    assert(out.invariants == log.invariants.filter(p));
    if holds(out.decisions, v.declared_by) {
        let k = choose|k: int| 0 <= k < out.decisions.len() && #[trigger] out.decisions[k].key() == v.declared_by;
        assert(out.decisions.contains(out.decisions[k]));
    }
    if exists|e: StoredDecisionView| #[trigger] out.decisions.contains(e) && e.id == v.declared_by {
        let e = choose|e: StoredDecisionView| #[trigger] out.decisions.contains(e) && e.id == v.declared_by;
        assert(out.decisions[out.decisions.index_of(e)].key() == v.declared_by);
    }
}

proof fn task_ids_are_named(decisions: Seq<StoredDecisionView>, id: Seq<char>)
    ensures
        task_ids_of(decisions).contains(id) <==> exists|e: StoredDecisionView| #[trigger]
            decisions.contains(e) && e.task_id == Some(id),
    decreases decisions.len(),
{
    let ids = task_ids_of(decisions);
    if decisions.len() > 0 {
        let front = decisions.drop_last();
        let some = task_ids_of(front);
        task_ids_are_named(front, id);
        assert(decisions[decisions.len() - 1] == decisions.last());
        if ids.contains(id) {
            let k = ids.index_of(id);
            if k < some.len() {
                assert(some[k] == id);
                let e = choose|e: StoredDecisionView| #[trigger] front.contains(e) && e.task_id == Some(id);
                assert(decisions[front.index_of(e)] == e && decisions.contains(e));
            } else {
                assert(decisions.contains(decisions.last()));
            }
        }
        if exists|e: StoredDecisionView| #[trigger] decisions.contains(e) && e.task_id == Some(id) {
            let e = choose|e: StoredDecisionView| #[trigger] decisions.contains(e) && e.task_id == Some(id);
            task_ids_hold(decisions, decisions.index_of(e));
        }
    }
}

/// A file lists its header first, then every task, every decision and every invariant, each
/// as it is and in its order.
pub proof fn files_list_records(header: HeaderView, log: Log, i: int)
    ensures
        file_of(header, log).len() == 1 + log.tasks.len() + log.decisions.len() + log.invariants.len(),
        file_of(header, log)[0] == RecordView::Header(header),
        0 <= i < log.tasks.len() ==> file_of(header, log)[1 + i] == RecordView::Task(log.tasks[i]),
        0 <= i < log.decisions.len() ==> file_of(header, log)[1 + log.tasks.len() + i] == RecordView::Decision(
            log.decisions[i],
        ),
        0 <= i < log.invariants.len() ==> file_of(header, log)[1 + log.tasks.len() + log.decisions.len() + i]
            == RecordView::Invariant(log.invariants[i]),
{
}

} // verus!
