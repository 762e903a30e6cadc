//! The decision log as a value: three tables, what ties them together, and what
//! each operation makes of them.
use crate::model::{AnchorView, Binding, BindingView, NewDecisionView, StoredDecision, StoredDecisionView};
use crate::table::{ascending, holds, ids_where, insert_row, insert_row_keeps, lookup, Keyed, Row};
use crate::text::lex_lt;
use vstd::prelude::*;

verus! {

/// A task row as stored: the columns and nothing derived. It crosses the
/// export/import boundary as it is.
#[derive(Debug, PartialEq, Eq)]
pub struct TaskRecord {
    pub id: String,
    pub parent_task_id: Option<String>,
    pub instruction: Option<String>,
    pub created_at_ms: i64,
    /// When the task was first declared done.
    pub completed_at_ms: Option<i64>,
}

/// The value of a `TaskRecord`.
pub ghost struct TaskRecordView {
    pub id: Seq<char>,
    pub parent_task_id: Option<Seq<char>>,
    pub instruction: Option<Seq<char>>,
    pub created_at_ms: i64,
    pub completed_at_ms: Option<i64>,
}

impl DeepView for TaskRecord {
    type V = TaskRecordView;

    open spec fn deep_view(&self) -> TaskRecordView {
        TaskRecordView {
            id: self.id@,
            parent_task_id: self.parent_task_id.deep_view(),
            instruction: self.instruction.deep_view(),
            created_at_ms: self.created_at_ms,
            completed_at_ms: self.completed_at_ms,
        }
    }
}

impl View for TaskRecord {
    type V = TaskRecordView;

    open spec fn view(&self) -> TaskRecordView {
        self.deep_view()
    }
}

impl Clone for TaskRecord {
    fn clone(&self) -> (r: Self)
        ensures
            r@ == self@,
    {
        TaskRecord {
            id: self.id.clone(),
            parent_task_id: self.parent_task_id.clone(),
            instruction: self.instruction.clone(),
            created_at_ms: self.created_at_ms,
            completed_at_ms: self.completed_at_ms,
        }
    }
}

impl Keyed for TaskRecordView {
    open spec fn key(&self) -> Seq<char> {
        self.id
    }
}

impl Row for TaskRecord {
    fn id(&self) -> (r: &String) {
        &self.id
    }

    fn copy(&self) -> (r: Self) {
        self.clone()
    }
}

/// An invariant row as stored. Unlike `InvariantRow` it carries `retired` and
/// `created_at_ms`: a serialization has to be lossless where a query can afford to
/// summarise.
#[derive(Debug, PartialEq, Eq)]
pub struct InvariantRecord {
    pub id: String,
    /// The decision that declared it.
    pub declared_by: String,
    pub statement: String,
    pub scope: Option<String>,
    pub retired: bool,
    pub created_at_ms: i64,
}

/// The value of an `InvariantRecord`.
pub ghost struct InvariantRecordView {
    pub id: Seq<char>,
    pub declared_by: Seq<char>,
    pub statement: Seq<char>,
    pub scope: Option<Seq<char>>,
    pub retired: bool,
    pub created_at_ms: i64,
}

impl DeepView for InvariantRecord {
    type V = InvariantRecordView;

    open spec fn deep_view(&self) -> InvariantRecordView {
        InvariantRecordView {
            id: self.id@,
            declared_by: self.declared_by@,
            statement: self.statement@,
            scope: self.scope.deep_view(),
            retired: self.retired,
            created_at_ms: self.created_at_ms,
        }
    }
}

impl View for InvariantRecord {
    type V = InvariantRecordView;

    open spec fn view(&self) -> InvariantRecordView {
        self.deep_view()
    }
}

impl Clone for InvariantRecord {
    fn clone(&self) -> (r: Self)
        ensures
            r@ == self@,
    {
        InvariantRecord {
            id: self.id.clone(),
            declared_by: self.declared_by.clone(),
            statement: self.statement.clone(),
            scope: self.scope.clone(),
            retired: self.retired,
            created_at_ms: self.created_at_ms,
        }
    }
}

impl Keyed for InvariantRecordView {
    open spec fn key(&self) -> Seq<char> {
        self.id
    }
}

impl Row for InvariantRecord {
    fn id(&self) -> (r: &String) {
        &self.id
    }

    fn copy(&self) -> (r: Self) {
        self.clone()
    }
}

/// One write to the log, to be carried out on disk in the order of writing.
#[derive(Debug, PartialEq, Eq)]
pub enum Change {
    AddTask(TaskRecord),
    CompleteTask { id: String, completed_at_ms: i64 },
    AddDecision(StoredDecision),
    Seal { id: String, binding: Binding },
    AddInvariant(InvariantRecord),
}

/// The value of a `Change`.
pub ghost enum ChangeView {
    AddTask(TaskRecordView),
    CompleteTask { id: Seq<char>, completed_at_ms: i64 },
    AddDecision(StoredDecisionView),
    Seal { id: Seq<char>, binding: BindingView },
    AddInvariant(InvariantRecordView),
}

impl DeepView for Change {
    type V = ChangeView;

    open spec fn deep_view(&self) -> ChangeView {
        match self {
            Change::AddTask(t) => ChangeView::AddTask(t@),
            Change::CompleteTask { id, completed_at_ms } => ChangeView::CompleteTask {
                id: id@,
                completed_at_ms: *completed_at_ms,
            },
            Change::AddDecision(d) => ChangeView::AddDecision(d@),
            Change::Seal { id, binding } => ChangeView::Seal { id: id@, binding: binding@ },
            Change::AddInvariant(i) => ChangeView::AddInvariant(i@),
        }
    }
}

impl View for Change {
    type V = ChangeView;

    open spec fn view(&self) -> ChangeView {
        self.deep_view()
    }
}

/// The whole log: tasks, decisions and invariants, each ascending by id.
#[verifier::ext_equal]
pub ghost struct Log {
    pub tasks: Seq<TaskRecordView>,
    pub decisions: Seq<StoredDecisionView>,
    pub invariants: Seq<InvariantRecordView>,
}

/// An optional reference names a row of `s`, where it names one at all.
pub open spec fn resolves<V: Keyed>(s: Seq<V>, reference: Option<Seq<char>>) -> bool {
    reference matches Some(id) ==> holds(s, id)
}

/// A decision carries a binding exactly when it is sealed.
pub open spec fn bound_iff_sealed(d: StoredDecisionView) -> bool {
    d.staged <==> d.binding is None
}

/// `d` as the seal leaves it.
pub open spec fn sealed(d: StoredDecisionView, binding: BindingView) -> StoredDecisionView {
    StoredDecisionView { staged: false, binding: Some(binding), ..d }
}

/// The decisions once the staged ones among `ids` are sealed.
pub open spec fn seal_in(s: Seq<StoredDecisionView>, ids: Seq<Seq<char>>, binding: BindingView) -> Seq<
    StoredDecisionView,
> {
    s.map_values(
        |d: StoredDecisionView|
            if d.staged && ids.contains(d.id) {
                sealed(d, binding)
            } else {
                d
            },
    )
}

/// The tasks once `id` is marked done at `ms`, unless it already was.
pub open spec fn complete_in(s: Seq<TaskRecordView>, id: Seq<char>, ms: i64) -> Seq<TaskRecordView> {
    s.map_values(
        |t: TaskRecordView|
            if t.id == id && t.completed_at_ms is None {
                TaskRecordView { completed_at_ms: Some(ms), ..t }
            } else {
                t
            },
    )
}

/// A newly staged decision.
pub open spec fn staged_from(n: NewDecisionView, id: Seq<char>, ms: i64) -> StoredDecisionView {
    StoredDecisionView {
        id,
        task_id: n.task_id,
        agent: n.agent,
        conversation_id: n.conversation_id,
        rationale: n.rationale,
        rejected: n.rejected,
        caused_by: n.caused_by,
        supersedes: n.supersedes,
        anchors: n.anchors,
        staged: true,
        binding: None,
        created_at_ms: ms,
    }
}

/// A decision as an import stores it: sealed, with the binding that the record names.
pub open spec fn landed(d: StoredDecisionView) -> StoredDecisionView {
    StoredDecisionView { staged: false, ..d }
}

/// No row before position `k` has its key.
pub open spec fn is_first<V: Keyed>(s: Seq<V>, k: int) -> bool {
    forall|j: int| 0 <= j < k ==> #[trigger] s[j].key() != s[k].key()
}

/// `s` with every row of `add` whose key is not yet there, the first of equals.
pub open spec fn merge<V: Keyed>(s: Seq<V>, add: Seq<V>) -> Seq<V>
    decreases add.len(),
{
    if add.len() == 0 {
        s
    } else {
        let m = merge(s, add.drop_last());
        if holds(m, add.last().key()) {
            m
        } else {
            insert_row(m, add.last())
        }
    }
}

impl Log {
    /// The log without any row.
    pub open spec fn empty() -> Log {
        Log { tasks: Seq::empty(), decisions: Seq::empty(), invariants: Seq::empty() }
    }

    /// Every reference from one row to another names a row that is there.
    pub open spec fn closed_under_references(self) -> bool {
        &&& forall|i: int|
            0 <= i < self.tasks.len() ==> resolves(self.tasks, #[trigger] self.tasks[i].parent_task_id)
        &&& forall|i: int|
            0 <= i < self.decisions.len() ==> resolves(self.tasks, (#[trigger] self.decisions[i]).task_id)
                && resolves(self.decisions, self.decisions[i].supersedes)
        &&& forall|i: int|
            0 <= i < self.invariants.len() ==> holds(
                self.decisions,
                #[trigger] self.invariants[i].declared_by,
            )
    }

    /// Ids are unique and ascending in each table.
    pub open spec fn ordered(self) -> bool {
        ascending(self.tasks) && ascending(self.decisions) && ascending(self.invariants)
    }

    /// What holds of the log at all times.
    pub open spec fn wf(self) -> bool {
        &&& self.ordered()
        &&& self.closed_under_references()
        &&& forall|i: int|
            0 <= i < self.decisions.len() ==> bound_iff_sealed(#[trigger] self.decisions[i])
    }

    /// The log after one write.
    pub open spec fn after(self, change: ChangeView) -> Log {
        match change {
            ChangeView::AddTask(t) => Log { tasks: insert_row(self.tasks, t), ..self },
            ChangeView::CompleteTask { id, completed_at_ms } => Log {
                tasks: complete_in(self.tasks, id, completed_at_ms),
                ..self
            },
            ChangeView::AddDecision(d) => Log { decisions: insert_row(self.decisions, d), ..self },
            ChangeView::Seal { id, binding } => Log {
                decisions: seal_in(self.decisions, seq![id], binding),
                ..self
            },
            ChangeView::AddInvariant(i) => Log { invariants: insert_row(self.invariants, i), ..self },
        }
    }

    /// The log after a list of writes.
    pub open spec fn after_all(self, changes: Seq<ChangeView>) -> Log
        decreases changes.len(),
    {
        if changes.len() == 0 {
            self
        } else {
            self.after_all(changes.drop_last()).after(changes.last())
        }
    }

    /// The log after an import of the given records.
    pub open spec fn imported(
        self,
        tasks: Seq<TaskRecordView>,
        decisions: Seq<StoredDecisionView>,
        invariants: Seq<InvariantRecordView>,
    ) -> Log {
        Log {
            tasks: merge(self.tasks, tasks),
            decisions: merge(self.decisions, decisions.map_values(|d: StoredDecisionView| landed(d))),
            invariants: merge(self.invariants, invariants),
        }
    }

    /// Every record among `decisions` that an import would store names its binding: the
    /// first of each id that the log does not have yet.
    pub open spec fn names_bindings(self, decisions: Seq<StoredDecisionView>) -> bool {
        forall|k: int|
            0 <= k < decisions.len() && !holds(self.decisions, (#[trigger] decisions[k]).id) && is_first(
                decisions,
                k,
            ) ==> decisions[k].binding is Some
    }

    /// The decision `id` is there and pending.
    pub open spec fn is_staged(self, id: Seq<char>) -> bool {
        lookup(self.decisions, id) matches Some(d) && d.staged
    }

    /// The decision `id` is there and sealed.
    pub open spec fn is_sealed(self, id: Seq<char>) -> bool {
        lookup(self.decisions, id) matches Some(d) && !d.staged
    }

    /// The pending decisions, ascending.
    pub open spec fn staged_ids(self) -> Seq<Seq<char>> {
        ids_where(self.decisions, |d: StoredDecisionView| d.staged)
    }

    /// The pending decisions of one task, ascending.
    pub open spec fn staged_ids_of(self, task: Seq<char>) -> Seq<Seq<char>> {
        ids_where(self.decisions, |d: StoredDecisionView| d.staged && d.task_id == Some(task))
    }

    /// Some decision supersedes `id`.
    pub open spec fn is_superseded(self, id: Seq<char>) -> bool {
        exists|i: int|
            0 <= i < self.decisions.len() && (#[trigger] self.decisions[i]).supersedes == Some(id)
    }

    /// The decisions that name `id` among their causes, newest first.
    pub open spec fn effects_of(self, id: Seq<char>) -> Seq<Seq<char>> {
        ids_where(self.decisions, |d: StoredDecisionView| d.caused_by.contains(id)).reverse()
    }

    /// The decisions with an anchor that meets `p`, newest first.
    pub open spec fn anchored_ids(self, p: spec_fn(AnchorView) -> bool) -> Seq<Seq<char>> {
        ids_where(self.decisions, |d: StoredDecisionView| has_anchor(d, p)).reverse()
    }
}

/// A decision has an anchor that meets `p`.
pub open spec fn has_anchor(d: StoredDecisionView, p: spec_fn(AnchorView) -> bool) -> bool {
    exists|i: int| 0 <= i < d.anchors.len() && p(#[trigger] d.anchors[i])
}


// ---- Writes that add ---------------------------------------------------------

/// A write that adds a row adds it under a new id.
pub open spec fn admits(log: Log, change: ChangeView) -> bool {
    match change {
        ChangeView::AddTask(t) => !holds(log.tasks, t.id),
        ChangeView::AddDecision(d) => !holds(log.decisions, d.id),
        ChangeView::AddInvariant(v) => !holds(log.invariants, v.id),
        ChangeView::CompleteTask { .. } => true,
        ChangeView::Seal { .. } => true,
    }
}

/// Each write in turn adds its row under an id that is then new.
pub open spec fn admits_all(log: Log, changes: Seq<ChangeView>) -> bool
    decreases changes.len(),
{
    changes.len() > 0 ==> admits_all(log, changes.drop_last()) && admits(
        log.after_all(changes.drop_last()),
        changes.last(),
    )
}

/// No row is new to a table twice: each row of `add` has a key that is new when its turn
/// comes.
pub open spec fn each_new<V: Keyed>(s: Seq<V>, add: Seq<V>) -> bool
    decreases add.len(),
{
    add.len() > 0 ==> each_new(s, add.drop_last()) && !holds(
        insert_all(s, add.drop_last()),
        add.last().key(),
    )
}

/// One admitted write more.
pub proof fn admits_all_push(log: Log, changes: Seq<ChangeView>, change: ChangeView)
    requires
        admits_all(log, changes),
        admits(log.after_all(changes), change),
    ensures
        admits_all(log, changes.push(change)),
{
    assert(changes.push(change).drop_last() =~= changes);
}

/// Admitted writes one after another.
pub proof fn admits_all_add(log: Log, a: Seq<ChangeView>, b: Seq<ChangeView>)
    requires
        admits_all(log, a),
        admits_all(log.after_all(a), b),
    ensures
        admits_all(log, a + b),
        log.after_all(a + b) == log.after_all(a).after_all(b),
    decreases b.len(),
{
    if b.len() > 0 {
        admits_all_add(log, a, b.drop_last());
        assert((a + b).drop_last() =~= a + b.drop_last());
        assert((a + b).last() == b.last());
    } else {
        assert(a + b =~= a);
    }
}

/// The rows that a merge puts in place are new when their turn comes.
pub proof fn fresh_is_new<V: Keyed>(s: Seq<V>, add: Seq<V>)
    ensures
        each_new(s, fresh_of(s, add)),
    decreases add.len(),
{
    if add.len() > 0 {
        let front = add.drop_last();
        fresh_is_new(s, front);
        merge_inserts_fresh(s, front);
        let f = fresh_of(s, front);
        assert(f.push(add.last()).drop_last() =~= f);
    }
}

/// Adding rows to each table in turn.
pub proof fn additions_insert(
    log: Log,
    tasks: Seq<TaskRecordView>,
    decisions: Seq<StoredDecisionView>,
    invariants: Seq<InvariantRecordView>,
)
    ensures
        log.after_all(additions(tasks, decisions, invariants)) == (Log {
            tasks: insert_all(log.tasks, tasks),
            decisions: insert_all(log.decisions, decisions),
            invariants: insert_all(log.invariants, invariants),
        }),
        each_new(log.tasks, tasks) && each_new(log.decisions, decisions) && each_new(
            log.invariants,
            invariants,
        ) ==> admits_all(log, additions(tasks, decisions, invariants)),
    decreases tasks.len() + decisions.len() + invariants.len(),
{
    let all = additions(tasks, decisions, invariants);
    if invariants.len() > 0 {
        additions_insert(log, tasks, decisions, invariants.drop_last());
        assert(all.drop_last() =~= additions(tasks, decisions, invariants.drop_last()));
        assert(all.last() == ChangeView::AddInvariant(invariants.last()));
    } else if decisions.len() > 0 {
        additions_insert(log, tasks, decisions.drop_last(), invariants);
        assert(all.drop_last() =~= additions(tasks, decisions.drop_last(), invariants));
        assert(all.last() == ChangeView::AddDecision(decisions.last()));
    } else if tasks.len() > 0 {
        additions_insert(log, tasks.drop_last(), decisions, invariants);
        assert(all.drop_last() =~= additions(tasks.drop_last(), decisions, invariants));
        assert(all.last() == ChangeView::AddTask(tasks.last()));
    } else {
        assert(all =~= Seq::empty());
    }
}

// ---- What every write keeps --------------------------------------------------

/// One more write at the end of a list.
pub proof fn after_all_push(log: Log, changes: Seq<ChangeView>, change: ChangeView)
    ensures
        log.after_all(changes.push(change)) == log.after_all(changes).after(change),
{
    assert(changes.push(change).drop_last() =~= changes);
}

/// Rows that resolved a reference still do once a row is put in place.
proof fn resolves_grows<V: Keyed>(s: Seq<V>, v: V, reference: Option<Seq<char>>)
    requires
        ascending(s),
        !holds(s, v.key()),
        resolves(s, reference),
    ensures
        resolves(insert_row(s, v), reference),
{
    insert_row_keeps(s, v);
    if let Some(id) = reference {
        assert(holds(insert_row(s, v), id));
    }
}

/// A new task keeps the log well-formed.
pub proof fn add_task_wf(log: Log, t: TaskRecordView)
    requires
        log.wf(),
        !holds(log.tasks, t.id),
        t.parent_task_id == Some(t.id) || resolves(log.tasks, t.parent_task_id),
    ensures
        log.after(ChangeView::AddTask(t)).wf(),
{
    let next = log.after(ChangeView::AddTask(t));
    insert_row_keeps(log.tasks, t);
    assert forall|i: int| 0 <= i < next.tasks.len() implies resolves(
        next.tasks,
        #[trigger] next.tasks[i].parent_task_id,
    ) by {
        let x = next.tasks[i];
        assert(next.tasks.contains(x));
        assert(holds(next.tasks, t.key()));
        if x != t {
            let k = log.tasks.index_of(x);
            assert(log.tasks[k].parent_task_id == x.parent_task_id);
            resolves_grows(log.tasks, t, x.parent_task_id);
        } else if t.parent_task_id != Some(t.id) {
            resolves_grows(log.tasks, t, t.parent_task_id);
        }
    }
    assert forall|i: int| 0 <= i < next.decisions.len() implies resolves(
        next.tasks,
        (#[trigger] next.decisions[i]).task_id,
    ) && resolves(next.decisions, next.decisions[i].supersedes) by {
        let d = log.decisions[i];
        resolves_grows(log.tasks, t, d.task_id);
    }
}

/// A new decision keeps the log well-formed.
pub proof fn add_decision_wf(log: Log, d: StoredDecisionView)
    requires
        log.wf(),
        !holds(log.decisions, d.id),
        resolves(log.tasks, d.task_id),
        d.supersedes == Some(d.id) || resolves(log.decisions, d.supersedes),
        bound_iff_sealed(d),
    ensures
        log.after(ChangeView::AddDecision(d)).wf(),
{
    let next = log.after(ChangeView::AddDecision(d));
    insert_row_keeps(log.decisions, d);
    assert forall|i: int| 0 <= i < next.decisions.len() implies resolves(
        next.tasks,
        (#[trigger] next.decisions[i]).task_id,
    ) && resolves(next.decisions, next.decisions[i].supersedes) && bound_iff_sealed(
        next.decisions[i],
    ) by {
        let x = next.decisions[i];
        assert(next.decisions.contains(x));
        assert(holds(next.decisions, d.key()));
        if x != d {
            let k = log.decisions.index_of(x);
            assert(log.decisions[k] == x);
            resolves_grows(log.decisions, d, x.supersedes);
        } else if d.supersedes != Some(d.id) {
            resolves_grows(log.decisions, d, d.supersedes);
        }
    }
    assert forall|i: int| 0 <= i < next.invariants.len() implies holds(
        next.decisions,
        #[trigger] next.invariants[i].declared_by,
    ) by {
        assert(holds(log.decisions, log.invariants[i].declared_by));
    }
}

/// A new invariant keeps the log well-formed.
pub proof fn add_invariant_wf(log: Log, v: InvariantRecordView)
    requires
        log.wf(),
        !holds(log.invariants, v.id),
        holds(log.decisions, v.declared_by),
    ensures
        log.after(ChangeView::AddInvariant(v)).wf(),
{
    let next = log.after(ChangeView::AddInvariant(v));
    insert_row_keeps(log.invariants, v);
    assert forall|i: int| 0 <= i < next.invariants.len() implies holds(
        next.decisions,
        #[trigger] next.invariants[i].declared_by,
    ) by {
        let x = next.invariants[i];
        assert(next.invariants.contains(x));
        if x != v {
            let k = log.invariants.index_of(x);
            assert(log.invariants[k].declared_by == x.declared_by);
        }
    }
}

/// Two tables with the same keys in the same places hold the same ids.
pub proof fn same_keys_hold<V: Keyed>(s: Seq<V>, t: Seq<V>)
    requires
        s.len() == t.len(),
        forall|i: int| 0 <= i < s.len() ==> #[trigger] s[i].key() == t[i].key(),
    ensures
        forall|id: Seq<char>| #[trigger] holds(s, id) <==> holds(t, id),
        ascending(s) ==> ascending(t),
{
    assert forall|id: Seq<char>| #[trigger] holds(s, id) <==> holds(t, id) by {
        if holds(s, id) {
            let k = choose|k: int| 0 <= k < s.len() && #[trigger] s[k].key() == id;
            assert(t[k].key() == id);
        }
        if holds(t, id) {
            let k = choose|k: int| 0 <= k < t.len() && #[trigger] t[k].key() == id;
            assert(s[k].key() == id);
        }
    }
    if ascending(s) {
        assert forall|i: int, j: int| 0 <= i < j < t.len() implies lex_lt(
            #[trigger] t[i].key(),
            #[trigger] t[j].key(),
        ) by {
            assert(lex_lt(s[i].key(), s[j].key()));
        }
    }
}

/// Sealing keeps the log well-formed.
pub proof fn seal_wf(log: Log, ids: Seq<Seq<char>>, binding: BindingView)
    requires
        log.wf(),
    ensures
        (Log { decisions: seal_in(log.decisions, ids, binding), ..log }).wf(),
{
    let next = Log { decisions: seal_in(log.decisions, ids, binding), ..log };
    assert forall|i: int| 0 <= i < log.decisions.len() implies #[trigger] log.decisions[i].key()
        == next.decisions[i].key() by {}
    same_keys_hold(log.decisions, next.decisions);
    assert forall|i: int| 0 <= i < next.decisions.len() implies resolves(
        next.tasks,
        (#[trigger] next.decisions[i]).task_id,
    ) && resolves(next.decisions, next.decisions[i].supersedes) && bound_iff_sealed(
        next.decisions[i],
    ) by {
        let d = log.decisions[i];
        assert(bound_iff_sealed(d));
        assert(resolves(log.decisions, d.supersedes));
    }
    assert forall|i: int| 0 <= i < next.invariants.len() implies holds(
        next.decisions,
        #[trigger] next.invariants[i].declared_by,
    ) by {
        assert(holds(log.decisions, log.invariants[i].declared_by));
    }
}

/// Marking a task done keeps the log well-formed.
pub proof fn complete_wf(log: Log, id: Seq<char>, ms: i64)
    requires
        log.wf(),
    ensures
        (Log { tasks: complete_in(log.tasks, id, ms), ..log }).wf(),
{
    let next = Log { tasks: complete_in(log.tasks, id, ms), ..log };
    assert forall|i: int| 0 <= i < log.tasks.len() implies #[trigger] log.tasks[i].key()
        == next.tasks[i].key() by {}
    same_keys_hold(log.tasks, next.tasks);
    assert forall|i: int| 0 <= i < next.tasks.len() implies resolves(
        next.tasks,
        #[trigger] next.tasks[i].parent_task_id,
    ) by {
        let t = log.tasks[i];
        assert(resolves(log.tasks, t.parent_task_id));
    }
    assert forall|i: int| 0 <= i < next.decisions.len() implies resolves(
        next.tasks,
        (#[trigger] next.decisions[i]).task_id,
    ) && resolves(next.decisions, next.decisions[i].supersedes) by {
        assert(resolves(log.tasks, log.decisions[i].task_id));
    }
}

// ---- Merging -----------------------------------------------------------------

/// The rows of `add` that a merge puts in place, in order.
pub open spec fn fresh_of<V: Keyed>(s: Seq<V>, add: Seq<V>) -> Seq<V>
    decreases add.len(),
{
    if add.len() == 0 {
        Seq::empty()
    } else if holds(merge(s, add.drop_last()), add.last().key()) {
        fresh_of(s, add.drop_last())
    } else {
        fresh_of(s, add.drop_last()).push(add.last())
    }
}

/// `s` with all the rows of `add` put in place.
pub open spec fn insert_all<V: Keyed>(s: Seq<V>, add: Seq<V>) -> Seq<V>
    decreases add.len(),
{
    if add.len() == 0 {
        s
    } else {
        insert_row(insert_all(s, add.drop_last()), add.last())
    }
}

/// A merge puts the fresh rows in place and nothing else.
pub proof fn merge_inserts_fresh<V: Keyed>(s: Seq<V>, add: Seq<V>)
    ensures
        merge(s, add) == insert_all(s, fresh_of(s, add)),
        fresh_of(s, add).len() <= add.len(),
    decreases add.len(),
{
    if add.len() > 0 {
        merge_inserts_fresh(s, add.drop_last());
        let f = fresh_of(s, add.drop_last());
        assert(f.push(add.last()).drop_last() =~= f);
    }
}

/// What a merged table holds: every old row, and for each new key the first row of
/// `add` that has it.
pub proof fn merge_holds<V: Keyed>(s: Seq<V>, add: Seq<V>)
    requires
        ascending(s),
    ensures
        ascending(merge(s, add)),
        forall|x: V| s.contains(x) ==> #[trigger] merge(s, add).contains(x),
        forall|x: V| #[trigger] merge(s, add).contains(x) ==> s.contains(x) || (add.contains(x) && !holds(
            s,
            x.key(),
        )),
        forall|id: Seq<char>| #[trigger] holds(merge(s, add), id) <==> holds(s, id) || holds(add, id),
        merge(s, add).len() == s.len() + fresh_of(s, add).len(),
    decreases add.len(),
{
    if add.len() > 0 {
        let front = add.drop_last();
        let last = add.last();
        let m = merge(s, front);
        merge_holds(s, front);
        if !holds(m, last.key()) {
            insert_row_keeps(m, last);
        }
        let r = merge(s, add);
        assert forall|x: V| front.contains(x) implies add.contains(x) by {
            assert(add[front.index_of(x)] == x);
        }
        assert(add[add.len() - 1] == last);
        assert forall|x: V| s.contains(x) implies #[trigger] r.contains(x) by {
            assert(m.contains(x));
        }
        assert forall|x: V| #[trigger] r.contains(x) implies s.contains(x) || (add.contains(x) && !holds(
            s,
            x.key(),
        )) by {
            if x != last || holds(m, last.key()) {
                assert(m.contains(x));
            } else {
                assert(!holds(m, last.key()));
            }
        }
        assert forall|id: Seq<char>| #[trigger] holds(r, id) <==> holds(s, id) || holds(add, id) by {
            assert(holds(m, id) <==> holds(s, id) || holds(front, id));
            if holds(front, id) {
                let k = choose|k: int| 0 <= k < front.len() && #[trigger] front[k].key() == id;
                assert(add[k].key() == id);
            }
            if holds(add, id) {
                let k = choose|k: int| 0 <= k < add.len() && #[trigger] add[k].key() == id;
                if k < front.len() {
                    assert(front[k].key() == id);
                }
            }
        }
    } else {
        assert forall|id: Seq<char>| #[trigger] holds(merge(s, add), id) <==> holds(s, id) || holds(
            add,
            id,
        ) by {}
    }
}

/// The writes that an import makes: tasks, then decisions, then invariants.
pub open spec fn additions(
    tasks: Seq<TaskRecordView>,
    decisions: Seq<StoredDecisionView>,
    invariants: Seq<InvariantRecordView>,
) -> Seq<ChangeView> {
    tasks.map_values(|t: TaskRecordView| ChangeView::AddTask(t)) + decisions.map_values(
        |d: StoredDecisionView| ChangeView::AddDecision(d),
    ) + invariants.map_values(|v: InvariantRecordView| ChangeView::AddInvariant(v))
}

impl Log {
    /// How many tasks, decisions and invariants an import inserts.
    pub open spec fn import_counts(
        self,
        tasks: Seq<TaskRecordView>,
        decisions: Seq<StoredDecisionView>,
        invariants: Seq<InvariantRecordView>,
    ) -> (nat, nat, nat) {
        (
            fresh_of(self.tasks, tasks).len(),
            fresh_of(
                self.decisions,
                decisions.map_values(|d: StoredDecisionView| landed(d)),
            ).len(),
            fresh_of(self.invariants, invariants).len(),
        )
    }

    /// The writes that an import makes: the rows not yet there, tasks first, then
    /// decisions, then invariants.
    pub open spec fn import_changes(
        self,
        tasks: Seq<TaskRecordView>,
        decisions: Seq<StoredDecisionView>,
        invariants: Seq<InvariantRecordView>,
    ) -> Seq<ChangeView> {
        additions(
            fresh_of(self.tasks, tasks),
            fresh_of(self.decisions, decisions.map_values(|d: StoredDecisionView| landed(d))),
            fresh_of(self.invariants, invariants),
        )
    }
}

/// A row that a merge adds is the first of its key among those to be added.
pub proof fn merge_adds_first<V: Keyed>(s: Seq<V>, add: Seq<V>, x: V)
    requires
        ascending(s),
        merge(s, add).contains(x),
        !s.contains(x),
    ensures
        exists|k: int| 0 <= k < add.len() && add[k] == x && #[trigger] is_first(add, k),
    decreases add.len(),
{
    if add.len() > 0 {
        let front = add.drop_last();
        let last = add.last();
        let m = merge(s, front);
        merge_holds(s, front);
        if m.contains(x) {
            merge_adds_first(s, front, x);
            let k = choose|k: int| 0 <= k < front.len() && front[k] == x && #[trigger] is_first(front, k);
            assert forall|j: int| 0 <= j < k implies #[trigger] add[j].key() != add[k].key() by {
                assert(front[j].key() != front[k].key());
            }
            assert(add[k] == x && is_first(add, k));
        } else {
            insert_row_keeps(m, last);
            let k = add.len() - 1;
            assert forall|j: int| 0 <= j < k implies #[trigger] add[j].key() != add[k].key() by {
                assert(front[j] == add[j]);
                assert(holds(front, front[j].key()));
            }
            assert(add[k] == x && is_first(add, k));
        }
    }
}

/// What an import leaves is well-formed wherever its records name their bindings and its
/// references hold.
pub proof fn imported_bound(
    log: Log,
    tasks: Seq<TaskRecordView>,
    decisions: Seq<StoredDecisionView>,
    invariants: Seq<InvariantRecordView>,
)
    requires
        log.wf(),
    ensures
        log.imported(tasks, decisions, invariants).ordered(),
        log.names_bindings(decisions) && log.imported(
            tasks,
            decisions,
            invariants,
        ).closed_under_references() ==> log.imported(tasks, decisions, invariants).wf(),
{
    let landing = decisions.map_values(|d: StoredDecisionView| landed(d));
    merge_holds(log.tasks, tasks);
    merge_holds(log.decisions, landing);
    merge_holds(log.invariants, invariants);
    let next = log.imported(tasks, decisions, invariants);
    assert forall|i: int|
        log.names_bindings(decisions) && 0 <= i < next.decisions.len() implies bound_iff_sealed(
        #[trigger] next.decisions[i],
    ) by {
        let d = next.decisions[i];
        assert(next.decisions.contains(d));
        if log.decisions.contains(d) {
            assert(bound_iff_sealed(log.decisions[log.decisions.index_of(d)]));
        } else {
            merge_adds_first(log.decisions, landing, d);
            let k = choose|k: int| 0 <= k < landing.len() && landing[k] == d && #[trigger] is_first(landing, k);
            assert(landing[k] == landed(decisions[k]));
            assert(decisions[k].id == d.key());
            assert forall|j: int| 0 <= j < k implies #[trigger] decisions[j].key() != decisions[k].key() by {
                assert(landing[j].key() != landing[k].key());
            }
            assert(is_first(decisions, k));
        }
    }
}

} // verus!
