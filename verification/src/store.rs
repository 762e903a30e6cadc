//! The store: the three tables in memory, every query on them and every write.
//!
//! Reading the rows from disk and carrying the noted writes out there is left to
//! the caller; what a write does to the log, and when it is refused, is decided
//! here.
use crate::fts::{documents, literal_query, matching, ranked, search_prose};
use crate::ids::{mint, minted, now_ms};
use crate::log::{
    add_decision_wf, add_invariant_wf, add_task_wf, additions, additions_insert, admits, admits_all,
    admits_all_add, admits_all_push, after_all_push, bound_iff_sealed, complete_in, complete_wf,
    fresh_is_new, fresh_of, has_anchor, imported_bound, is_first, landed, merge, merge_inserts_fresh,
    resolves, seal_in, seal_wf, sealed, staged_from, Change, ChangeView, InvariantRecordView, Log,
    TaskRecordView,
};
pub use crate::log::{InvariantRecord, TaskRecord};
use crate::model::{
    Anchor, AnchorView, Binding, BindingView, NewDecision, NewDecisionView, StoredDecision,
    StoredDecisionView,
};
use crate::table::{
    add_text, ascending, fetch, gather, holds, ids_where, keys_unique, known, listed, lookup,
    lookup_at, lookup_sound, place, position, select_ids, turned, Keyed, Row,
};
use crate::text::{self, has_prefix, lex_le, lex_lt, words_of};
use vstd::prelude::*;

verus! {

/// The schema version this library understands. A store above it is refused; a
/// store below it is migrated up on open.
pub const SCHEMA_VERSION: i64 = 3;

/// One write is a list of one.
pub proof fn one_change(log: Log, change: ChangeView)
    ensures
        log.after_all(seq![change]) == log.after(change),
{
    reveal_with_fuel(Log::after_all, 2);
    assert(seq![change].drop_last() =~= Seq::empty());
}

/// Some row has an id of the kind that is made for new rows. Otherwise no new id is taken.
pub open spec fn id_taken<V: Keyed>(s: Seq<V>) -> bool {
    exists|id: Seq<char>, ms: i64| #[trigger] minted(id, ms) && holds(s, id)
}

/// A task as it is first inserted.
pub open spec fn new_task(
    id: Seq<char>,
    ms: i64,
    parent_task_id: Option<Seq<char>>,
    instruction: Option<Seq<char>>,
) -> TaskRecordView {
    TaskRecordView { id, parent_task_id, instruction, created_at_ms: ms, completed_at_ms: None }
}

/// An invariant as it is first declared.
pub open spec fn new_invariant(
    id: Seq<char>,
    ms: i64,
    declared_by: Seq<char>,
    statement: Seq<char>,
    scope: Option<Seq<char>>,
) -> InvariantRecordView {
    InvariantRecordView { id, declared_by, statement, scope, retired: false, created_at_ms: ms }
}

/// Every id of the list is pending, and none is named twice.
pub open spec fn sealable(log: Log, ids: Seq<Seq<char>>) -> bool {
    ids.no_duplicates() && forall|i: int| 0 <= i < ids.len() ==> log.is_staged(#[trigger] ids[i])
}

/// The writes that seal a list of decisions, in its order.
pub open spec fn seals(ids: Seq<Seq<char>>, binding: BindingView) -> Seq<ChangeView> {
    ids.map_values(|id: Seq<char>| ChangeView::Seal { id, binding })
}

proof fn sealable_push(log: Log, ids: Seq<Seq<char>>, id: Seq<char>)
    requires
        sealable(log, ids),
    ensures
        sealable(log, ids.push(id)) <==> (!ids.contains(id) && log.is_staged(id)),
{
    let more = ids.push(id);
    assert(more[ids.len() as int] == id);
    if sealable(log, more) {
        if ids.contains(id) {
            let k = ids.index_of(id);
            assert(more[k] == more[ids.len() as int]);
        }
    }
    if !ids.contains(id) && log.is_staged(id) {
        assert forall|i: int, j: int| 0 <= i < more.len() && 0 <= j < more.len() && i != j implies more[i]
            != more[j] by {
            if i < ids.len() && j < ids.len() {
                assert(ids[i] != ids[j]);
            } else if i < ids.len() {
                assert(ids.contains(ids[i]));
            } else if j < ids.len() {
                assert(ids.contains(ids[j]));
            }
        }
        assert forall|i: int| 0 <= i < more.len() implies log.is_staged(#[trigger] more[i]) by {
            if i < ids.len() {
                assert(log.is_staged(ids[i]));
            }
        }
    }
}

proof fn sealable_prefix(log: Log, ids: Seq<Seq<char>>, n: int)
    requires
        0 <= n <= ids.len(),
    ensures
        sealable(log, ids) ==> sealable(log, ids.take(n)),
{
    if sealable(log, ids) {
        assert forall|i: int| 0 <= i < n implies log.is_staged(#[trigger] ids.take(n)[i]) by {
            assert(log.is_staged(ids[i]));
        }
    }
}

/// The keys of a selection of rows are ascending, and each selected row is there.
pub proof fn selection<V: Keyed>(s: Seq<V>, p: spec_fn(V) -> bool)
    requires
        ascending(s),
    ensures
        ascending(s.filter(p)),
        forall|v: V| #[trigger] s.filter(p).contains(v) <==> s.contains(v) && p(v),
        forall|id: Seq<char>| #[trigger] ids_where(s, p).contains(id) <==> (lookup(s, id) matches Some(v) && p(v)),
        ids_where(s, p).no_duplicates(),
    decreases s.len(),
{
    let f = s.filter(p);
    filter_ascending(s, p);
    assert forall|v: V| #[trigger] f.contains(v) <==> s.contains(v) && p(v) by {
        if f.contains(v) {
            s.lemma_filter_pred(p, f.index_of(v));
        }
        if s.contains(v) && p(v) {
            s.lemma_filter_contains_rev(p, v);
        }
    }
    assert forall|id: Seq<char>| #[trigger] ids_where(s, p).contains(id) <==> (lookup(s, id) matches Some(
        v,
    ) && p(v)) by {
        if ids_where(s, p).contains(id) {
            let k = ids_where(s, p).index_of(id);
            assert(f.contains(f[k]));
            assert(f[k].key() == id);
            lookup_at(s, s.index_of(f[k]));
        }
        lookup_sound(s, id);
        if let Some(v) = lookup(s, id) {
            if p(v) {
                assert(f.contains(v));
                assert(ids_where(s, p)[f.index_of(v)] == id);
            }
        }
    }
    assert forall|i: int, j: int| 0 <= i < f.len() && 0 <= j < f.len() && i != j implies ids_where(
        s,
        p,
    )[i] != ids_where(s, p)[j] by {
        if f[i].key() == f[j].key() {
            keys_unique(f, i, j);
        }
    }
}

/// A selection of rows keeps their order.
pub proof fn filter_ascending<V: Keyed>(s: Seq<V>, p: spec_fn(V) -> bool)
    requires
        ascending(s),
    ensures
        ascending(s.filter(p)),
        forall|v: V| #[trigger] s.filter(p).contains(v) ==> s.contains(v),
    decreases s.len(),
{
    reveal(Seq::filter);
    if s.len() > 0 {
        let t = s.drop_last();
        assert forall|i: int, j: int| 0 <= i < j < t.len() implies lex_lt(
            #[trigger] t[i].key(),
            #[trigger] t[j].key(),
        ) by {
            assert(lex_lt(s[i].key(), s[j].key()));
        }
        filter_ascending(t, p);
        let g = t.filter(p);
        let f = s.filter(p);
        assert forall|v: V| #[trigger] f.contains(v) implies s.contains(v) by {
            let k = f.index_of(v);
            if k < g.len() {
                assert(g.contains(g[k]));
                assert(s[t.index_of(v)] == v);
            } else {
                assert(s[s.len() - 1] == v);
            }
        }
        assert forall|i: int, j: int| 0 <= i < j < f.len() implies lex_lt(
            #[trigger] f[i].key(),
            #[trigger] f[j].key(),
        ) by {
            if j < g.len() {
                assert(lex_lt(g[i].key(), g[j].key()));
            } else {
                assert(g.contains(g[i]));
                let k = t.index_of(g[i]);
                assert(lex_lt(s[k].key(), s[s.len() - 1].key()));
            }
        }
    }
}

/// The pending decisions can be sealed all at once.
pub proof fn staged_ids_sealable(log: Log)
    requires
        log.ordered(),
    ensures
        sealable(log, log.staged_ids()),
        forall|id: Seq<char>| #[trigger] log.staged_ids().contains(id) <==> log.is_staged(id),
{
    let ids = log.staged_ids();
    selection(log.decisions, |d: StoredDecisionView| d.staged);
    assert forall|i: int| 0 <= i < ids.len() implies log.is_staged(#[trigger] ids[i]) by {
        assert(ids.contains(ids[i]));
    }
}

/// Sealing some decisions leaves the others pending.
proof fn sealing_others_keeps_staged(
    log: Log,
    ids: Seq<Seq<char>>,
    id: Seq<char>,
    binding: BindingView,
)
    requires
        log.wf(),
        log.is_staged(id),
        !ids.contains(id),
    ensures
        (Log { decisions: seal_in(log.decisions, ids, binding), ..log }).is_staged(id),
{
    seal_wf(log, ids, binding);
    lookup_sound(log.decisions, id);
    let k = log.decisions.index_of(lookup(log.decisions, id)->0);
    let after = seal_in(log.decisions, ids, binding);
    assert(after[k].id == id);
    lookup_at(after, k);
}

/// Sealing one more decision.
proof fn seal_in_steps(
    s: Seq<StoredDecisionView>,
    ids: Seq<Seq<char>>,
    id: Seq<char>,
    binding: BindingView,
)
    ensures
        seal_in(seal_in(s, ids, binding), seq![id], binding) == seal_in(s, ids.push(id), binding),
{
    let a = seal_in(seal_in(s, ids, binding), seq![id], binding);
    let b = seal_in(s, ids.push(id), binding);
    assert forall|x: Seq<char>| #[trigger] ids.push(id).contains(x) <==> ids.contains(x) || seq![
        id,
    ].contains(x) by {
        if ids.contains(x) {
            assert(ids.push(id)[ids.index_of(x)] == x);
        }
        assert(ids.push(id)[ids.len() as int] == id);
        assert(seq![id][0] == id);
    }
    assert(a =~= b);
}

/// How many rows of each kind an import inserted. Records whose id was there
/// already are not counted.
#[derive(Debug, Clone, Copy, PartialEq, Eq, Structural)]
pub struct ImportCounts {
    pub tasks: usize,
    pub decisions: usize,
    pub invariants: usize,
}

impl Default for ImportCounts {
    fn default() -> (r: Self)
        ensures
            r == (ImportCounts { tasks: 0, decisions: 0, invariants: 0 }),
    {
        ImportCounts { tasks: 0, decisions: 0, invariants: 0 }
    }
}

/// A live invariant with provenance.
#[derive(Debug, PartialEq, Eq)]
pub struct InvariantRow {
    pub id: String,
    pub statement: String,
    pub scope: Option<String>,
    /// The decision that declared this invariant.
    pub declared_by: String,
}

/// The value of an `InvariantRow`.
pub ghost struct InvariantRowView {
    pub id: Seq<char>,
    pub statement: Seq<char>,
    pub scope: Option<Seq<char>>,
    pub declared_by: Seq<char>,
}

impl DeepView for InvariantRow {
    type V = InvariantRowView;

    open spec fn deep_view(&self) -> InvariantRowView {
        InvariantRowView {
            id: self.id@,
            statement: self.statement@,
            scope: self.scope.deep_view(),
            declared_by: self.declared_by@,
        }
    }
}

impl View for InvariantRow {
    type V = InvariantRowView;

    open spec fn view(&self) -> InvariantRowView {
        self.deep_view()
    }
}

impl Clone for InvariantRow {
    fn clone(&self) -> (r: Self)
        ensures
            r@ == self@,
    {
        InvariantRow {
            id: self.id.clone(),
            statement: self.statement.clone(),
            scope: self.scope.clone(),
            declared_by: self.declared_by.clone(),
        }
    }
}

/// One row of the task list. The instruction is returned whole; summarising it is
/// the command layer's job.
#[derive(Debug, PartialEq, Eq)]
pub struct TaskRow {
    pub id: String,
    pub parent_task_id: Option<String>,
    pub instruction: Option<String>,
    /// Decisions recorded under the task that are still unsealed.
    pub staged_count: u64,
    /// When the task was first finished; `None` while open.
    pub completed_at_ms: Option<i64>,
    pub created_at_ms: i64,
}

/// The value of a `TaskRow`.
pub ghost struct TaskRowView {
    pub id: Seq<char>,
    pub parent_task_id: Option<Seq<char>>,
    pub instruction: Option<Seq<char>>,
    pub staged_count: u64,
    pub completed_at_ms: Option<i64>,
    pub created_at_ms: i64,
}

impl DeepView for TaskRow {
    type V = TaskRowView;

    open spec fn deep_view(&self) -> TaskRowView {
        TaskRowView {
            id: self.id@,
            parent_task_id: self.parent_task_id.deep_view(),
            instruction: self.instruction.deep_view(),
            staged_count: self.staged_count,
            completed_at_ms: self.completed_at_ms,
            created_at_ms: self.created_at_ms,
        }
    }
}

impl View for TaskRow {
    type V = TaskRowView;

    open spec fn view(&self) -> TaskRowView {
        self.deep_view()
    }
}

impl Clone for TaskRow {
    fn clone(&self) -> (r: Self)
        ensures
            r@ == self@,
    {
        TaskRow {
            id: self.id.clone(),
            parent_task_id: self.parent_task_id.clone(),
            instruction: self.instruction.clone(),
            staged_count: self.staged_count,
            completed_at_ms: self.completed_at_ms,
            created_at_ms: self.created_at_ms,
        }
    }
}

/// An unfinished task that still holds staged decisions: the per-task view of
/// stranded staging.
#[derive(Debug, PartialEq, Eq)]
pub struct StrandedTask {
    pub task: String,
    pub instruction: Option<String>,
    pub staged_count: u64,
    pub oldest_staged_ms: i64,
}

/// The value of a `StrandedTask`.
pub ghost struct StrandedTaskView {
    pub task: Seq<char>,
    pub instruction: Option<Seq<char>>,
    pub staged_count: u64,
    pub oldest_staged_ms: i64,
}

impl DeepView for StrandedTask {
    type V = StrandedTaskView;

    open spec fn deep_view(&self) -> StrandedTaskView {
        StrandedTaskView {
            task: self.task@,
            instruction: self.instruction.deep_view(),
            staged_count: self.staged_count,
            oldest_staged_ms: self.oldest_staged_ms,
        }
    }
}

impl View for StrandedTask {
    type V = StrandedTaskView;

    open spec fn view(&self) -> StrandedTaskView {
        self.deep_view()
    }
}

impl Clone for StrandedTask {
    fn clone(&self) -> (r: Self)
        ensures
            r@ == self@,
    {
        StrandedTask {
            task: self.task.clone(),
            instruction: self.instruction.clone(),
            staged_count: self.staged_count,
            oldest_staged_ms: self.oldest_staged_ms,
        }
    }
}

/// Store-wide status.
#[derive(Debug, Clone, Copy, PartialEq, Eq)]
pub struct StoreStatus {
    /// Number of unsealed decisions sitting in staging.
    pub staging_count: u64,
    /// Timestamp (epoch ms) of the oldest staged decision, if any: it surfaces
    /// staging that has gone stale.
    pub oldest_staged_ms: Option<i64>,
    /// How many unfinished tasks still hold staged decisions.
    pub stranded_task_count: u64,
    pub schema_version: i64,
}

/// Lower bound of an export. Two spellings of one ordering: ids sort
/// chronologically, so an id bound is a lexicographic comparison, while a date
/// bound compares record time. Kept apart so that an id means *that decision
/// onwards* exactly, instead of everything in that millisecond.
#[derive(Debug, PartialEq, Eq)]
pub enum SinceBound {
    Id(String),
    Ms(i64),
}

/// The value of a `SinceBound`.
pub ghost enum SinceBoundView {
    Id(Seq<char>),
    Ms(i64),
}

impl DeepView for SinceBound {
    type V = SinceBoundView;

    open spec fn deep_view(&self) -> SinceBoundView {
        match self {
            SinceBound::Id(id) => SinceBoundView::Id(id@),
            SinceBound::Ms(ms) => SinceBoundView::Ms(*ms),
        }
    }
}

impl View for SinceBound {
    type V = SinceBoundView;

    open spec fn view(&self) -> SinceBoundView {
        self.deep_view()
    }
}

/// A decision is at or after the bound, where there is one.
pub open spec fn since_admits(since: Option<SinceBoundView>, d: StoredDecisionView) -> bool {
    match since {
        None => true,
        Some(SinceBoundView::Id(id)) => lex_le(id, d.id),
        Some(SinceBoundView::Ms(ms)) => ms <= d.created_at_ms,
    }
}

/// Why a store could not be opened.
#[derive(Debug, PartialEq, Eq)]
pub enum OpenError {
    /// The database itself failed, in its own words.
    Sqlite(String),
    /// The store's schema is newer than this library understands. Carrying on would
    /// mean answering queries from tables whose meaning has changed.
    SchemaTooNew { found: i64, supported: i64 },
}

impl OpenError {
    /// The words of each error.
    pub open spec fn words(self) -> Seq<char> {
        match self {
            OpenError::Sqlite(e) => e@,
            OpenError::SchemaTooNew { found, supported } => "store schema version "@ + text::decimal_int(
                found as int,
            ) + " is newer than this dlog supports (up to "@ + text::decimal_int(supported as int)
                + "); upgrade dlog to read it"@,
        }
    }

    /// What went wrong, for the transcript.
    pub fn message(&self) -> (r: String)
        ensures
            r@ == self.words(),
    {
        match self {
            OpenError::Sqlite(e) => e.clone(),
            OpenError::SchemaTooNew { found, supported } => {
                let mut out = text::cat3(
                    "store schema version ",
                    text::decimal_i64(*found).as_str(),
                    " is newer than this dlog supports (up to ",
                );
                text::push_str(&mut out, text::decimal_i64(*supported).as_str());
                text::push_str(&mut out, "); upgrade dlog to read it");
                out
            },
        }
    }
}

/// The schema version that a store's ledger records; zero where it records none.
pub open spec fn recorded_version(recorded: Option<Seq<char>>) -> int {
    match recorded {
        Some(s) => match text::i64_value(s) {
            Some(v) => v as int,
            None => 0,
        },
        None => 0,
    }
}

/// Reads the schema version out of a store's ledger.
pub fn schema_version_of(recorded: Option<&str>) -> (r: i64)
    ensures
        r == recorded_version(recorded.deep_view()),
{
    match recorded {
        Some(s) => match text::parse_i64(s) {
            Some(v) => v,
            None => 0,
        },
        None => 0,
    }
}

/// Which migrations bring a store up to date: those from the returned position up to
/// `SCHEMA_VERSION`, in order. `None` means that it already is. A migration's
/// version is its 1-based position.
pub fn migrations_due(recorded: Option<&str>) -> (r: Result<Option<usize>, OpenError>)
    ensures
        ({
            let current = recorded_version(recorded.deep_view());
            match r {
                Err(e) => current > SCHEMA_VERSION && e == (OpenError::SchemaTooNew {
                    found: current as i64,
                    supported: SCHEMA_VERSION,
                }),
                Ok(None) => current == SCHEMA_VERSION,
                Ok(Some(from)) => current < SCHEMA_VERSION && from == (if current < 0 {
                    0
                } else {
                    current
                }),
            }
        }),
{
    let current: i64 = schema_version_of(recorded);
    if current > SCHEMA_VERSION {
        return Err(OpenError::SchemaTooNew { found: current, supported: SCHEMA_VERSION });
    }
    if current == SCHEMA_VERSION {
        return Ok(None);
    }
    if current < 0 {
        Ok(Some(0))
    } else {
        Ok(Some(current as usize))
    }
}

/// The least record time among decisions.
pub open spec fn oldest(s: Seq<StoredDecisionView>) -> Option<i64>
    decreases s.len(),
{
    if s.len() == 0 {
        None
    } else {
        match oldest(s.drop_last()) {
            Some(ms) if ms <= s.last().created_at_ms => Some(ms),
            _ => Some(s.last().created_at_ms),
        }
    }
}

/// `oldest` is one of the record times, and none is less.
pub proof fn oldest_is_least(s: Seq<StoredDecisionView>)
    ensures
        match oldest(s) {
            None => s.len() == 0,
            Some(ms) => (exists|i: int| 0 <= i < s.len() && (#[trigger] s[i]).created_at_ms == ms) && forall|
                i: int,
            |
                0 <= i < s.len() ==> ms <= (#[trigger] s[i]).created_at_ms,
        },
    decreases s.len(),
{
    if s.len() > 0 {
        let t = s.drop_last();
        oldest_is_least(t);
        let ms = oldest(s)->0;
        assert forall|i: int| 0 <= i < s.len() implies ms <= (#[trigger] s[i]).created_at_ms by {
            if i < t.len() {
                assert(t[i] == s[i]);
            }
        }
        if ms == s.last().created_at_ms {
            assert(s[s.len() - 1].created_at_ms == ms);
        } else {
            let k = choose|k: int| 0 <= k < t.len() && (#[trigger] t[k]).created_at_ms == ms;
            assert(s[k].created_at_ms == ms);
        }
    }
}

/// `file` is `path`, or lies under it as a directory. `.` stands for the whole
/// workspace.
pub open spec fn covers(path: Seq<char>, file: Seq<char>) -> bool {
    path == "."@ || file == path || has_prefix(file, path + "/"@)
}

/// The files that the anchors name under `path`, each once, first named first.
pub open spec fn files_under(anchors: Seq<AnchorView>, path: Seq<char>) -> Seq<Seq<char>>
    decreases anchors.len(),
{
    if anchors.len() == 0 {
        Seq::empty()
    } else {
        let files = files_under(anchors.drop_last(), path);
        let file = anchors.last().file;
        if covers(path, file) && !files.contains(file) {
            files.push(file)
        } else {
            files
        }
    }
}

/// Each file paired with one decision.
pub open spec fn paired(files: Seq<Seq<char>>, id: Seq<char>) -> Seq<(Seq<char>, Seq<char>)> {
    files.map_values(|f: Seq<char>| (f, id))
}

/// The `(file, decision)` pairs under `path`, newest decision first.
pub open spec fn pairs_under(decisions: Seq<StoredDecisionView>, path: Seq<char>) -> Seq<
    (Seq<char>, Seq<char>),
>
    decreases decisions.len(),
{
    if decisions.len() == 0 {
        Seq::empty()
    } else {
        paired(files_under(decisions.last().anchors, path), decisions.last().id) + pairs_under(
            decisions.drop_last(),
            path,
        )
    }
}

impl Log {
    /// The pending decisions of a task.
    pub open spec fn staged_of(self, task: Seq<char>) -> Seq<StoredDecisionView> {
        self.decisions.filter(|d: StoredDecisionView| d.staged && d.task_id == Some(task))
    }

    /// The pending decisions.
    pub open spec fn staging(self) -> Seq<StoredDecisionView> {
        self.decisions.filter(|d: StoredDecisionView| d.staged)
    }

    /// A task as the task list shows it.
    pub open spec fn task_row(self, t: TaskRecordView) -> TaskRowView {
        TaskRowView {
            id: t.id,
            parent_task_id: t.parent_task_id,
            instruction: t.instruction,
            staged_count: self.staged_of(t.id).len() as u64,
            completed_at_ms: t.completed_at_ms,
            created_at_ms: t.created_at_ms,
        }
    }

    /// A task is unfinished and holds pending decisions.
    pub open spec fn is_stranded(self, t: TaskRecordView) -> bool {
        t.completed_at_ms is None && self.staged_of(t.id).len() > 0
    }

    /// A stranded task as the status shows it.
    pub open spec fn stranded_row(self, t: TaskRecordView) -> StrandedTaskView {
        StrandedTaskView {
            task: t.id,
            instruction: t.instruction,
            staged_count: self.staged_of(t.id).len() as u64,
            oldest_staged_ms: oldest(self.staged_of(t.id))->0,
        }
    }

    /// The tasks that are unfinished and hold pending decisions, newest first.
    pub open spec fn stranded(self) -> Seq<StrandedTaskView> {
        self.tasks.filter(|t: TaskRecordView| self.is_stranded(t)).map_values(
            |t: TaskRecordView| self.stranded_row(t),
        ).reverse()
    }

    /// The sealed decisions at or after a bound, ascending.
    pub open spec fn sealed_ids(self, since: Option<SinceBoundView>) -> Seq<Seq<char>> {
        ids_where(self.decisions, |d: StoredDecisionView| !d.staged && since_admits(since, d))
    }

    /// `symbol` is the symbol path of some anchor with the structural hash `hash`.
    pub open spec fn hash_names(self, hash: Seq<char>, symbol: Seq<char>) -> bool {
        exists|i: int|
            0 <= i < self.decisions.len() && has_anchor(
                #[trigger] self.decisions[i],
                |a: AnchorView| a.structural_hash == Some(hash) && a.symbol_path == Some(symbol),
            )
    }

    /// Every invariant that a decision declared, ascending.
    pub open spec fn declared(self, id: Seq<char>) -> Seq<InvariantRecordView> {
        self.invariants.filter(|v: InvariantRecordView| v.declared_by == id)
    }

    /// The invariants in effect, ascending.
    pub open spec fn live(self) -> Seq<InvariantRecordView> {
        self.invariants.filter(|v: InvariantRecordView| !v.retired)
    }
}

/// An invariant as a query shows it.
pub open spec fn invariant_row(v: InvariantRecordView) -> InvariantRowView {
    InvariantRowView { id: v.id, statement: v.statement, scope: v.scope, declared_by: v.declared_by }
}

/// Whether rows stand in ascending order of their ids.
pub fn is_ascending<T: Row>(rows: &Vec<T>) -> (r: bool) where <T as DeepView>::V: Keyed,
    ensures
        r == ascending(rows.deep_view()),
{
    let ghost s = rows.deep_view();
    let mut i: usize = 1;
    while i < rows.len()
        invariant
            i >= 1,
            s == rows.deep_view(),
            forall|a: int, b: int| 0 <= a < b < i && b < s.len() ==> lex_lt(
                #[trigger] s[a].key(),
                #[trigger] s[b].key(),
            ),
        decreases rows.len() - i,
    {
        assert(s[i as int] == rows[i as int].deep_view());
        assert(s[i - 1] == rows[i - 1].deep_view());
        if !text::before(rows[i - 1].id().as_str(), rows[i].id().as_str()) {
            assert(!lex_lt(s[i - 1].key(), s[i as int].key()));
            return false;
        }
        assert forall|a: int, b: int| 0 <= a < b < i + 1 implies lex_lt(
            #[trigger] s[a].key(),
            #[trigger] s[b].key(),
        ) by {
            if b == i && a < i - 1 {
                text::lex_lt_transitive(s[a].key(), s[i - 1].key(), s[i as int].key());
            }
        }
        i = i + 1;
    }
    true
}

/// Whether an optional reference names a row.
fn reference_holds<T: Row>(rows: &Vec<T>, reference: &Option<String>) -> (r: bool) where
    <T as DeepView>::V: Keyed,

    ensures
        r == resolves(rows.deep_view(), reference.deep_view()),
{
    match reference {
        Some(id) => known(rows, id.as_str()),
        None => true,
    }
}

/// Whether every reference between the rows names a row that is there.
pub fn references_hold(
    tasks: &Vec<TaskRecord>,
    decisions: &Vec<StoredDecision>,
    invariants: &Vec<InvariantRecord>,
) -> (r: bool)
    ensures
        r == (Log {
            tasks: tasks.deep_view(),
            decisions: decisions.deep_view(),
            invariants: invariants.deep_view(),
        }).closed_under_references(),
{
    let ghost log = Log {
        tasks: tasks.deep_view(),
        decisions: decisions.deep_view(),
        invariants: invariants.deep_view(),
    };
    for i in 0..tasks.len()
        invariant
            log.tasks == tasks.deep_view(),
            forall|j: int| 0 <= j < i ==> resolves(log.tasks, #[trigger] log.tasks[j].parent_task_id),
    {
        assert(log.tasks[i as int] == tasks[i as int]@);
        if !reference_holds(tasks, &tasks[i].parent_task_id) {
            assert(!resolves(log.tasks, log.tasks[i as int].parent_task_id));
            return false;
        }
    }
    for i in 0..decisions.len()
        invariant
            log.tasks == tasks.deep_view(),
            log.decisions == decisions.deep_view(),
            forall|j: int| 0 <= j < i ==> resolves(log.tasks, (#[trigger] log.decisions[j]).task_id)
                && resolves(log.decisions, log.decisions[j].supersedes),
    {
        assert(log.decisions[i as int] == decisions[i as int]@);
        if !reference_holds(tasks, &decisions[i].task_id) || !reference_holds(
            decisions,
            &decisions[i].supersedes,
        ) {
            return false;
        }
    }
    for i in 0..invariants.len()
        invariant
            log.decisions == decisions.deep_view(),
            log.invariants == invariants.deep_view(),
            forall|j: int| 0 <= j < i ==> holds(log.decisions, #[trigger] log.invariants[j].declared_by),
    {
        assert(log.invariants[i as int] == invariants[i as int]@);
        if !known(decisions, invariants[i].declared_by.as_str()) {
            assert(!holds(log.decisions, log.invariants[i as int].declared_by));
            return false;
        }
    }
    true
}

/// Merges rows into a table: what the table becomes, and which rows were new.
pub(crate) fn merge_rows<T: Row>(rows: &Vec<T>, add: &[T]) -> (r: (Vec<T>, Vec<T>)) where
    <T as DeepView>::V: Keyed,

    requires
        ascending(rows.deep_view()),
    ensures
        r.0.deep_view() == merge(rows.deep_view(), add.deep_view()),
        r.1.deep_view() == fresh_of(rows.deep_view(), add.deep_view()),
        ascending(r.0.deep_view()),
{
    let ghost s = rows.deep_view();
    let ghost all = add.deep_view();
    let mut merged: Vec<T> = Vec::new();
    let mut fresh: Vec<T> = Vec::new();
    for i in 0..rows.len()
        invariant
            merged.len() == i,
            forall|j: int| 0 <= j < i ==> (#[trigger] merged[j]).deep_view() == rows[j].deep_view(),
    {
        merged.push(rows[i].copy());
    }
    assert(merged.deep_view() =~= s);
    assert(all.take(0) =~= Seq::empty());
    assert(fresh.deep_view() =~= Seq::empty());
    for i in 0..add.len()
        invariant
            s == rows.deep_view(),
            all == add.deep_view(),
            ascending(merged.deep_view()),
            merged.deep_view() == merge(s, all.take(i as int)),
            fresh.deep_view() == fresh_of(s, all.take(i as int)),
    {
        assert(all.take(i + 1).drop_last() =~= all.take(i as int));
        assert(all.take(i + 1).last() == add[i as int].deep_view());
        if !known(&merged, add[i].id().as_str()) {
            let ghost f = fresh.deep_view();
            let row = add[i].copy();
            fresh.push(row);
            assert(fresh.deep_view() =~= f.push(add[i as int].deep_view()));
            place(&mut merged, add[i].copy());
        }
    }
    assert(all.take(all.len() as int) =~= all);
    (merged, fresh)
}

/// Writes one after another.
pub proof fn after_all_add(log: Log, a: Seq<ChangeView>, b: Seq<ChangeView>)
    ensures
        log.after_all(a + b) == log.after_all(a).after_all(b),
    decreases b.len(),
{
    if b.len() > 0 {
        after_all_add(log, a, b.drop_last());
        assert((a + b).drop_last() =~= a + b.drop_last());
        assert((a + b).last() == b.last());
    } else {
        assert(a + b =~= a);
    }
}

/// Whether no record before position `k` has its id.
fn comes_first(decisions: &[StoredDecision], k: usize) -> (r: bool)
    requires
        k < decisions@.len(),
    ensures
        r == is_first(decisions.deep_view(), k as int),
{
    let ghost s = decisions.deep_view();
    assert(s[k as int] == decisions[k as int]@);
    for j in 0..k
        invariant
            k < decisions@.len(),
            s == decisions.deep_view(),
            s[k as int] == decisions[k as int]@,
            forall|i: int| 0 <= i < j ==> #[trigger] s[i].key() != s[k as int].key(),
    {
        assert(s[j as int] == decisions[j as int]@);
        if text::same(decisions[j].id.as_str(), decisions[k].id.as_str()) {
            assert(s[j as int].key() == s[k as int].key());
            return false;
        }
    }
    true
}

/// A decision as an import stores it.
fn land(d: &StoredDecision) -> (r: StoredDecision)
    ensures
        r@ == landed(d@),
{
    let mut r = d.clone();
    r.staged = false;
    r
}

/// Whether a decision has an anchor that passes `test`.
fn any_anchor<F: Fn(&Anchor) -> bool>(
    d: &StoredDecision,
    test: &F,
    p: Ghost<spec_fn(AnchorView) -> bool>,
) -> (r: bool)
    requires
        forall|a: &Anchor| #[trigger] test.requires((a,)),
        forall|a: &Anchor, b: bool| #[trigger] test.ensures((a,), b) ==> b == p@(a@),
    ensures
        r == has_anchor(d@, p@),
{
    for i in 0..d.anchors.len()
        invariant
            forall|a: &Anchor| #[trigger] test.requires((a,)),
            forall|a: &Anchor, b: bool| #[trigger] test.ensures((a,), b) ==> b == p@(a@),
            forall|j: int| 0 <= j < i ==> !p@(#[trigger] d@.anchors[j]),
    {
        assert(d@.anchors[i as int] == d.anchors[i as int]@);
        if test(&d.anchors[i]) {
            return true;
        }
    }
    false
}

/// Whether `file` is `path` or lies under it.
pub fn path_covers(path: &str, file: &str) -> (r: bool)
    ensures
        r == covers(path@, file@),
{
    text::same(path, ".") || text::same(file, path) || text::starts_with(
        file,
        text::cat(path, "/").as_str(),
    )
}

/// The files that the anchors name under `path`, each once, first named first.
fn anchor_files(anchors: &Vec<Anchor>, path: &str) -> (r: Vec<String>)
    ensures
        r.deep_view() == files_under(anchors.deep_view(), path@),
{
    let ghost all = anchors.deep_view();
    let mut out: Vec<String> = Vec::new();
    assert(all.take(0) =~= Seq::empty());
    assert(out.deep_view() =~= Seq::empty());
    for i in 0..anchors.len()
        invariant
            all == anchors.deep_view(),
            out.deep_view() == files_under(all.take(i as int), path@),
    {
        assert(all.take(i + 1).drop_last() =~= all.take(i as int));
        assert(all.take(i + 1).last() == anchors[i as int]@);
        if path_covers(path, anchors[i].file.as_str()) && !listed(&out, anchors[i].file.as_str()) {
            let ghost before = out.deep_view();
            out.push(anchors[i].file.clone());
            assert(out.deep_view() =~= before.push(anchors[i as int]@.file));
        }
    }
    assert(all.take(all.len() as int) =~= all);
    out
}

/// Why a write was refused. The log is then as it was.
#[derive(Debug, Clone, Copy, PartialEq, Eq, Structural)]
pub enum StoreError {
    /// The row to be changed is not there, or not in the state the change needs.
    NothingChanged,
    /// No such row.
    NoRows,
    /// A task, decision or invariant with this id is there already.
    DuplicateTask,
    DuplicateDecision,
    DuplicateInvariant,
    /// A row refers to one that is not there.
    MissingReference,
    /// Rows out of order, or a decision sealed without a binding.
    Malformed,
}

impl StoreError {
    /// The words of each error.
    pub open spec fn words(self) -> Seq<char> {
        match self {
            StoreError::NothingChanged => "Query changed 0 rows"@,
            StoreError::NoRows => "Query returned no rows"@,
            StoreError::DuplicateTask => "UNIQUE constraint failed: task.id"@,
            StoreError::DuplicateDecision => "UNIQUE constraint failed: decision.id"@,
            StoreError::DuplicateInvariant => "UNIQUE constraint failed: invariant.id"@,
            StoreError::MissingReference => "FOREIGN KEY constraint failed"@,
            StoreError::Malformed => "CHECK constraint failed"@,
        }
    }

    /// What went wrong, for the transcript.
    pub fn message(self) -> (r: String)
        ensures
            r@ == self.words(),
    {
        match self {
            StoreError::NothingChanged => text::owned("Query changed 0 rows"),
            StoreError::NoRows => text::owned("Query returned no rows"),
            StoreError::DuplicateTask => text::owned("UNIQUE constraint failed: task.id"),
            StoreError::DuplicateDecision => text::owned("UNIQUE constraint failed: decision.id"),
            StoreError::DuplicateInvariant => text::owned("UNIQUE constraint failed: invariant.id"),
            StoreError::MissingReference => text::owned("FOREIGN KEY constraint failed"),
            StoreError::Malformed => text::owned("CHECK constraint failed"),
        }
    }
}

/// The decision log: its tables, and the writes that disk has not seen yet.
pub struct Store {
    tasks: Vec<TaskRecord>,
    decisions: Vec<StoredDecision>,
    invariants: Vec<InvariantRecord>,
    journal: Vec<Change>,
    saved: Ghost<Log>,
}

impl View for Store {
    type V = Log;

    closed spec fn view(&self) -> Log {
        Log {
            tasks: self.tasks.deep_view(),
            decisions: self.decisions.deep_view(),
            invariants: self.invariants.deep_view(),
        }
    }
}

impl Store {
    /// The log as disk has it.
    pub closed spec fn saved(&self) -> Log {
        self.saved@
    }

    /// The writes that disk has not seen yet, oldest first.
    pub closed spec fn pending(&self) -> Seq<ChangeView> {
        self.journal.deep_view()
    }

    /// The tables are well-formed, and they are what disk has after the pending writes,
    /// each of which adds under a new id or seals or completes.
    pub open spec fn wf(&self) -> bool {
        &&& self@.wf()
        &&& self.saved().wf()
        &&& self.saved().after_all(self.pending()) == self@
        &&& admits_all(self.saved(), self.pending())
    }

    /// `self` is `before` with the writes `changes` made, and nothing else.
    pub open spec fn wrote(&self, before: &Store, changes: Seq<ChangeView>) -> bool {
        &&& self.saved() == before.saved()
        &&& self.pending() == before.pending() + changes
        &&& self@ == before@.after_all(changes)
    }

    /// `self` is `before`, with nothing written.
    pub open spec fn untouched(&self, before: &Store) -> bool {
        &&& self@ == before@
        &&& self.saved() == before.saved()
        &&& self.pending() == before.pending()
    }

    /// `self` is `before` with a task added under a newly made id.
    pub open spec fn added_task(
        &self,
        before: &Store,
        id: Seq<char>,
        parent_task_id: Option<Seq<char>>,
        instruction: Option<Seq<char>>,
    ) -> bool {
        !holds(before@.tasks, id) && exists|ms: i64|
            (#[trigger] minted(id, ms)) && self.wrote(
                before,
                seq![ChangeView::AddTask(new_task(id, ms, parent_task_id, instruction))],
            )
    }

    /// `self` is `before` with a decision staged under a newly made id.
    pub open spec fn staged_one(&self, before: &Store, id: Seq<char>, decision: NewDecisionView) -> bool {
        !holds(before@.decisions, id) && exists|ms: i64|
            (#[trigger] minted(id, ms)) && self.wrote(
                before,
                seq![ChangeView::AddDecision(staged_from(decision, id, ms))],
            )
    }

    /// `self` is `before` with an invariant declared under a newly made id.
    pub open spec fn declared_one(
        &self,
        before: &Store,
        id: Seq<char>,
        declared_by: Seq<char>,
        statement: Seq<char>,
        scope: Option<Seq<char>>,
    ) -> bool {
        !holds(before@.invariants, id) && exists|ms: i64|
            (#[trigger] minted(id, ms)) && self.wrote(
                before,
                seq![ChangeView::AddInvariant(new_invariant(id, ms, declared_by, statement, scope))],
            )
    }

    /// An empty log.
    pub fn open_in_memory() -> (r: Self)
        ensures
            r.wf(),
            r@ == Log::empty(),
            r.saved() == Log::empty(),
            r.pending() == Seq::<ChangeView>::empty(),
    {
        let r = Store {
            tasks: Vec::new(),
            decisions: Vec::new(),
            invariants: Vec::new(),
            journal: Vec::new(),
            saved: Ghost(Log::empty()),
        };
        assert(r@ =~= Log::empty());
        assert(r.pending() =~= Seq::empty());
        r
    }

    /// The log made of rows read from disk, each table ascending by id.
    pub fn restore(
        tasks: Vec<TaskRecord>,
        decisions: Vec<StoredDecision>,
        invariants: Vec<InvariantRecord>,
    ) -> (r: Result<Self, StoreError>)
        ensures
            ({
                let log = Log {
                    tasks: tasks.deep_view(),
                    decisions: decisions.deep_view(),
                    invariants: invariants.deep_view(),
                };
                match r {
                    Ok(store) => store.wf() && store@ == log && store.saved() == log
                        && store.pending() == Seq::<ChangeView>::empty(),
                    Err(e) => !log.wf() && e == (if log.ordered() && !log.closed_under_references() {
                        StoreError::MissingReference
                    } else {
                        StoreError::Malformed
                    }),
                }
            }),
    {
        let ghost log = Log {
            tasks: tasks.deep_view(),
            decisions: decisions.deep_view(),
            invariants: invariants.deep_view(),
        };
        if !is_ascending(&tasks) || !is_ascending(&decisions) || !is_ascending(&invariants) {
            return Err(StoreError::Malformed);
        }
        if !references_hold(&tasks, &decisions, &invariants) {
            return Err(StoreError::MissingReference);
        }
        for i in 0..decisions.len()
            invariant
                log.tasks == tasks.deep_view(),
                log.decisions == decisions.deep_view(),
                log.invariants == invariants.deep_view(),
                log.ordered(),
                log.closed_under_references(),
                forall|j: int| 0 <= j < i ==> bound_iff_sealed(#[trigger] log.decisions[j]),
        {
            assert(log.decisions[i as int] == decisions[i as int]@);
            if decisions[i].staged != decisions[i].binding.is_none() {
                assert(!bound_iff_sealed(log.decisions[i as int]));
                return Err(StoreError::Malformed);
            }
        }
        let r = Store { tasks, decisions, invariants, journal: Vec::new(), saved: Ghost(log) };
        assert(r.pending() =~= Seq::empty());
        assert(r@ == log);
        Ok(r)
    }

    /// Hands the pending writes over to whoever keeps the log on disk.
    pub fn take_changes(&mut self) -> (r: Vec<Change>)
        requires
            old(self).wf(),
        ensures
            r.deep_view() == old(self).pending(),
            old(self).saved().after_all(r.deep_view()) == old(self)@,
            final(self).wf(),
            final(self)@ == old(self)@,
            final(self).saved() == old(self)@,
            final(self).pending() == Seq::<ChangeView>::empty(),
    {
        let mut out: Vec<Change> = Vec::new();
        std::mem::swap(&mut out, &mut self.journal);
        self.saved = Ghost(self@);
        assert(self.pending() =~= Seq::empty());
        out
    }

    /// The tasks, ascending.
    pub(crate) fn task_rows(&self) -> (r: &Vec<TaskRecord>)
        ensures
            r.deep_view() == self@.tasks,
    {
        &self.tasks
    }

    /// The decisions, ascending.
    pub(crate) fn decision_rows(&self) -> (r: &Vec<StoredDecision>)
        ensures
            r.deep_view() == self@.decisions,
    {
        &self.decisions
    }

    /// The invariants, ascending.
    pub(crate) fn invariant_rows(&self) -> (r: &Vec<InvariantRecord>)
        ensures
            r.deep_view() == self@.invariants,
    {
        &self.invariants
    }

    /// Notes a write that the tables already show.
    fn note(&mut self, change: Change, before: Ghost<Log>)
        requires
            old(self).saved().after_all(old(self).pending()) == before@,
            old(self)@ == before@.after(change@),
            admits_all(old(self).saved(), old(self).pending()),
            admits(before@, change@),
        ensures
            admits_all(final(self).saved(), final(self).pending()),
            final(self)@ == old(self)@,
            final(self).saved() == old(self).saved(),
            final(self).pending() == old(self).pending().push(change@),
            final(self).saved().after_all(final(self).pending()) == final(self)@,
    {
        let ghost pending = self.pending();
        let ghost c = change@;
        self.journal.push(change);
        assert(self.pending() =~= pending.push(c));
        proof {
            after_all_push(self.saved(), pending, c);
            admits_all_push(self.saved(), pending, c);
        }
    }

    // ---- Tasks ---------------------------------------------------------------

    /// Inserts a task under a new id, and returns the id.
    pub fn insert_task(&mut self, parent_task_id: Option<&str>, instruction: Option<&str>) -> (r: Result<
        String,
        StoreError,
    >)
        requires
            old(self).wf(),
        ensures
            final(self).wf(),
            r matches Ok(id) ==> final(self).added_task(
                old(self),
                id@,
                parent_task_id.deep_view(),
                instruction.deep_view(),
            ),
            r matches Ok(id) ==> parent_task_id.deep_view() == Some(id@) || resolves(
                old(self)@.tasks,
                parent_task_id.deep_view(),
            ),
            r matches Err(e) ==> final(self).untouched(old(self)) && ((e == StoreError::DuplicateTask
                && id_taken(old(self)@.tasks)) || (e == StoreError::MissingReference && !resolves(
                old(self)@.tasks,
                parent_task_id.deep_view(),
            ))),
    {
        let (id, ms) = mint();
        let done = self.insert_task_as(id.as_str(), ms, parent_task_id, instruction);
        match done {
            Ok(()) => {
                assert(minted(id@, ms) && self.wrote(
                    old(self),
                    seq![
                        ChangeView::AddTask(
                            new_task(id@, ms, parent_task_id.deep_view(), instruction.deep_view()),
                        ),
                    ],
                ));
                Ok(id)
            },
            Err(e) => {
                assert(minted(id@, ms));
                Err(e)
            },
        }
    }

    /// Inserts a task under the given id.
    pub fn insert_task_as(
        &mut self,
        id: &str,
        created_at_ms: i64,
        parent_task_id: Option<&str>,
        instruction: Option<&str>,
    ) -> (r: Result<(), StoreError>)
        requires
            old(self).wf(),
        ensures
            final(self).wf(),
            r == (if holds(old(self)@.tasks, id@) {
                Err(StoreError::DuplicateTask)
            } else if parent_task_id.deep_view() == Some(id@) || resolves(
                old(self)@.tasks,
                parent_task_id.deep_view(),
            ) {
                Ok(())
            } else {
                Err(StoreError::MissingReference)
            }),
            r is Ok ==> final(self).wrote(
                old(self),
                seq![
                    ChangeView::AddTask(
                        new_task(id@, created_at_ms, parent_task_id.deep_view(), instruction.deep_view()),
                    ),
                ],
            ),
            r is Err ==> final(self).untouched(old(self)),
    {
        if known(&self.tasks, id) {
            return Err(StoreError::DuplicateTask);
        }
        if let Some(parent) = parent_task_id {
            if !text::same(parent, id) && !known(&self.tasks, parent) {
                return Err(StoreError::MissingReference);
            }
        }
        let row = TaskRecord {
            id: text::owned(id),
            parent_task_id: text::owned_opt(&parent_task_id),
            instruction: text::owned_opt(&instruction),
            created_at_ms,
            completed_at_ms: None,
        };
        self.put_task(row);
        Ok(())
    }

    /// Puts a task in place and notes it.
    fn put_task(&mut self, row: TaskRecord)
        requires
            old(self).wf(),
            !holds(old(self)@.tasks, row@.id),
            row@.parent_task_id == Some(row@.id) || resolves(old(self)@.tasks, row@.parent_task_id),
        ensures
            final(self).wf(),
            final(self).wrote(old(self), seq![ChangeView::AddTask(row@)]),
    {
        let ghost before = self@;
        let ghost pending = self.pending();
        proof {
            add_task_wf(before, row@);
            one_change(before, ChangeView::AddTask(row@));
        }
        place(&mut self.tasks, row.clone());
        self.note(Change::AddTask(row), Ghost(before));
        assert(self.pending() =~= pending + seq![ChangeView::AddTask(row@)]);
    }

    /// Makes sure that a task row exists for `id`. Nothing happens where it does;
    /// the instruction is only set on first creation.
    pub fn ensure_task(&mut self, id: &str, instruction: Option<&str>)
        requires
            old(self).wf(),
        ensures
            final(self).wf(),
            holds(old(self)@.tasks, id@) ==> final(self).untouched(old(self)),
            !holds(old(self)@.tasks, id@) ==> exists|ms: i64|
                ms >= 0 && #[trigger] final(self).wrote(
                    old(self),
                    seq![ChangeView::AddTask(new_task(id@, ms, None, instruction.deep_view()))],
                ),
    {
        let ms: i64 = now_ms();
        let r = self.insert_task_as(id, ms, None, instruction);
    }

    /// Whether a task row exists.
    pub fn task_exists(&self, id: &str) -> (r: bool)
        ensures
            r == holds(self@.tasks, id@),
    {
        known(&self.tasks, id)
    }

    /// Marks a task finished now. The first completion is the recorded one: a
    /// second call returns the time that is already there.
    pub fn complete_task(&mut self, id: &str) -> (r: Result<i64, StoreError>)
        requires
            old(self).wf(),
        ensures
            final(self).wf(),
            match lookup(old(self)@.tasks, id@) {
                None => r == Err::<i64, StoreError>(StoreError::NoRows) && final(self).untouched(old(self)),
                Some(t) => match t.completed_at_ms {
                    Some(first) => r == Ok::<i64, StoreError>(first) && final(self).untouched(old(self)),
                    None => r matches Ok(ms) && ms >= 0 && final(self).wrote(
                        old(self),
                        seq![ChangeView::CompleteTask { id: id@, completed_at_ms: ms }],
                    ),
                },
            },
    {
        self.complete_task_at(id, now_ms())
    }

    /// Marks a task finished at the given time, unless it is finished already.
    pub fn complete_task_at(&mut self, id: &str, ms: i64) -> (r: Result<i64, StoreError>)
        requires
            old(self).wf(),
        ensures
            final(self).wf(),
            match lookup(old(self)@.tasks, id@) {
                None => r == Err::<i64, StoreError>(StoreError::NoRows) && final(self).untouched(old(self)),
                Some(t) => match t.completed_at_ms {
                    Some(first) => r == Ok::<i64, StoreError>(first) && final(self).untouched(old(self)),
                    None => r == Ok::<i64, StoreError>(ms) && final(self).wrote(
                        old(self),
                        seq![ChangeView::CompleteTask { id: id@, completed_at_ms: ms }],
                    ),
                },
            },
    {
        let ghost before = self@;
        let ghost pending = self.pending();
        let i: usize = match position(&self.tasks, id) {
            Some(i) => i,
            None => {
                return Err(StoreError::NoRows);
            },
        };
        proof {
            lookup_at(before.tasks, i as int);
            complete_wf(before, id@, ms);
            one_change(before, ChangeView::CompleteTask { id: id@, completed_at_ms: ms });
        }
        if let Some(first) = self.tasks[i].completed_at_ms {
            return Ok(first);
        }
        let mut row = self.tasks[i].clone();
        row.completed_at_ms = Some(ms);
        self.tasks.set(i, row);
        assert(self@.tasks =~= complete_in(before.tasks, id@, ms)) by {
            assert forall|j: int| 0 <= j < before.tasks.len() implies self@.tasks[j]
                == #[trigger] complete_in(before.tasks, id@, ms)[j] by {
                if j != i && before.tasks[j].id == id@ {
                    keys_unique(before.tasks, i as int, j);
                }
            }
        }
        self.note(Change::CompleteTask { id: text::owned(id), completed_at_ms: ms }, Ghost(before));
        assert(self.pending() =~= pending + seq![
            ChangeView::CompleteTask { id: id@, completed_at_ms: ms },
        ]);
        Ok(ms)
    }


    // ---- Decisions -----------------------------------------------------------

    /// Writes a new decision with its anchors into staging under a new id, and
    /// returns the id.
    pub fn stage_decision(&mut self, decision: &NewDecision) -> (r: Result<String, StoreError>)
        requires
            old(self).wf(),
        ensures
            final(self).wf(),
            r matches Ok(id) ==> final(self).staged_one(old(self), id@, decision@),
            r matches Err(e) ==> final(self).untouched(old(self)) && ((e == StoreError::DuplicateDecision
                && id_taken(old(self)@.decisions)) || (e == StoreError::MissingReference && !(resolves(old(self)@.tasks, decision@.task_id)
                && resolves(old(self)@.decisions, decision@.supersedes)))),
            r matches Ok(id) ==> resolves(old(self)@.tasks, decision@.task_id) && (decision@.supersedes
                == Some(id@) || resolves(old(self)@.decisions, decision@.supersedes)),
    {
        let (id, ms) = mint();
        let done = self.stage_decision_as(id.as_str(), ms, decision);
        match done {
            Ok(()) => {
                assert(minted(id@, ms) && self.wrote(
                    old(self),
                    seq![ChangeView::AddDecision(staged_from(decision@, id@, ms))],
                ));
                Ok(id)
            },
            Err(e) => {
                assert(minted(id@, ms));
                Err(e)
            },
        }
    }

    /// Writes a new decision into staging under the given id.
    pub fn stage_decision_as(&mut self, id: &str, created_at_ms: i64, decision: &NewDecision) -> (r:
        Result<(), StoreError>)
        requires
            old(self).wf(),
        ensures
            final(self).wf(),
            r == (if holds(old(self)@.decisions, id@) {
                Err(StoreError::DuplicateDecision)
            } else if resolves(old(self)@.tasks, decision@.task_id) && (decision@.supersedes == Some(id@)
                || resolves(old(self)@.decisions, decision@.supersedes)) {
                Ok(())
            } else {
                Err(StoreError::MissingReference)
            }),
            r is Ok ==> final(self).wrote(
                old(self),
                seq![ChangeView::AddDecision(staged_from(decision@, id@, created_at_ms))],
            ),
            r is Err ==> final(self).untouched(old(self)),
    {
        if known(&self.decisions, id) {
            return Err(StoreError::DuplicateDecision);
        }
        if !reference_holds(&self.tasks, &decision.task_id) {
            return Err(StoreError::MissingReference);
        }
        if !text::opt_is(&decision.supersedes, id) && !reference_holds(
            &self.decisions,
            &decision.supersedes,
        ) {
            return Err(StoreError::MissingReference);
        }
        let n = decision.clone();
        let row = StoredDecision {
            id: text::owned(id),
            task_id: n.task_id,
            agent: n.agent,
            conversation_id: n.conversation_id,
            rationale: n.rationale,
            rejected: n.rejected,
            caused_by: n.caused_by,
            supersedes: n.supersedes,
            anchors: n.anchors,
            staged: true,
            binding: None,
            created_at_ms,
        };
        let ghost before = self@;
        let ghost pending = self.pending();
        proof {
            add_decision_wf(before, row@);
            one_change(before, ChangeView::AddDecision(row@));
        }
        place(&mut self.decisions, row.clone());
        self.note(Change::AddDecision(row), Ghost(before));
        assert(self.pending() =~= pending + seq![ChangeView::AddDecision(row@)]);
        Ok(())
    }

    /// Seals a staged decision: stamps its binding and moves it into the immutable
    /// main log. An unknown or already sealed id is an error.
    pub fn seal(&mut self, decision_id: &str, binding: &Binding) -> (r: Result<(), StoreError>)
        requires
            old(self).wf(),
        ensures
            final(self).wf(),
            r == (if old(self)@.is_staged(decision_id@) {
                Ok(())
            } else {
                Err(StoreError::NothingChanged)
            }),
            r is Ok ==> final(self).wrote(
                old(self),
                seq![ChangeView::Seal { id: decision_id@, binding: binding@ }],
            ),
            r is Err ==> final(self).untouched(old(self)),
    {
        let ghost before = self@;
        let ghost pending = self.pending();
        let i: usize = match position(&self.decisions, decision_id) {
            Some(i) => i,
            None => {
                return Err(StoreError::NothingChanged);
            },
        };
        proof {
            lookup_at(before.decisions, i as int);
            seal_wf(before, seq![decision_id@], binding@);
            one_change(before, ChangeView::Seal { id: decision_id@, binding: binding@ });
        }
        if !self.decisions[i].staged {
            return Err(StoreError::NothingChanged);
        }
        let mut row = self.decisions[i].clone();
        row.staged = false;
        row.binding = Some(binding.clone());
        self.decisions.set(i, row);
        assert(self@.decisions =~= seal_in(before.decisions, seq![decision_id@], binding@)) by {
            assert(seq![decision_id@][0] == decision_id@);
            assert forall|j: int| 0 <= j < before.decisions.len() implies self@.decisions[j]
                == #[trigger] seal_in(before.decisions, seq![decision_id@], binding@)[j] by {
                if j != i && seq![decision_id@].contains(before.decisions[j].id) {
                    keys_unique(before.decisions, i as int, j);
                }
            }
        }
        self.note(
            Change::Seal { id: text::owned(decision_id), binding: binding.clone() },
            Ghost(before),
        );
        assert(self.pending() =~= pending + seq![
            ChangeView::Seal { id: decision_id@, binding: binding@ },
        ]);
        Ok(())
    }

    /// Seals staged decisions in one step. With `only = Some(ids)` just those, each
    /// of which must be staged; otherwise every staged decision. All or nothing: if
    /// any target is unknown or already sealed, nothing is sealed. Returns the sealed
    /// ids.
    pub fn seal_staged(&mut self, binding: &Binding, only: Option<&[String]>) -> (r: Result<
        Vec<String>,
        StoreError,
    >)
        requires
            old(self).wf(),
        ensures
            final(self).wf(),
            r is Ok <==> (only.deep_view() matches Some(list) ==> sealable(old(self)@, list)),
            match r {
                Ok(ids) => {
                    &&& ids.deep_view() == (match only.deep_view() {
                        Some(list) => list,
                        None => old(self)@.staged_ids(),
                    })
                    &&& final(self).wrote(old(self), seals(ids.deep_view(), binding@))
                    &&& final(self)@ == (Log {
                        decisions: seal_in(old(self)@.decisions, ids.deep_view(), binding@),
                        ..old(self)@
                    })
                },
                Err(e) => e == StoreError::NothingChanged && final(self).untouched(old(self)),
            },
    {
        let ghost before = self@;
        let ghost pending = self.pending();
        let ids: Vec<String> = match only {
            Some(list) => {
                let mut copy: Vec<String> = Vec::new();
                assert(list.deep_view().take(0) =~= Seq::empty());
                for i in 0..list.len()
                    invariant
                        self.wf(),
                        self.untouched(old(self)),
                        before == old(self)@,
                        before == self@,
                        only.deep_view() == Some(list.deep_view()),
                        copy.deep_view() == list.deep_view().take(i as int),
                        sealable(before, list.deep_view().take(i as int)),
                {
                    let ghost all = list.deep_view();
                    let ghost done = all.take(i as int);
                    let ghost id = all[i as int];
                    assert(all.take(i + 1) =~= done.push(id));
                    proof {
                        sealable_push(before, done, id);
                        sealable_prefix(before, all, i + 1);
                    }
                    assert(id == list[i as int]@);
                    if listed(&copy, list[i].as_str()) || !self.staged_now(list[i].as_str()) {
                        return Err(StoreError::NothingChanged);
                    }
                    copy.push(list[i].clone());
                    assert(copy.deep_view() =~= done.push(id));
                }
                assert(list.deep_view().take(list@.len() as int) =~= list.deep_view());
                copy
            },
            None => {
                proof {
                    staged_ids_sealable(before);
                }
                let test = |d: &StoredDecision| -> (b: bool)
                    ensures
                        b == d@.staged,
                    { d.staged };
                select_ids(&self.decisions, test, Ghost(|d: StoredDecisionView| d.staged))
            },
        };
        let ghost all = ids.deep_view();
        assert(all.take(0) =~= Seq::empty());
        assert(seals(all.take(0), binding@) =~= Seq::empty());
        assert(pending + seals(all.take(0), binding@) =~= pending);
        assert(seal_in(before.decisions, all.take(0), binding@) =~= before.decisions);
        for i in 0..ids.len()
            invariant
                all == ids.deep_view(),
                self.wf(),
                self.saved() == old(self).saved(),
                before == old(self)@,
                before.wf(),
                pending == old(self).pending(),
                sealable(before, all),
                self.pending() == pending + seals(all.take(i as int), binding@),
                self@ == before.after_all(seals(all.take(i as int), binding@)),
                self@ == (Log {
                    decisions: seal_in(before.decisions, all.take(i as int), binding@),
                    ..before
                }),
        {
            let ghost done = all.take(i as int);
            let ghost id = all[i as int];
            let ghost change = ChangeView::Seal { id, binding: binding@ };
            assert(id == ids[i as int]@);
            proof {
                assert(!done.contains(id)) by {
                    if done.contains(id) {
                        let k = done.index_of(id);
                        assert(all[k] == id);
                    }
                }
                sealing_others_keeps_staged(before, done, id, binding@);
                assert(all.take(i + 1) =~= done.push(id));
                assert(seals(done.push(id), binding@) =~= seals(done, binding@).push(change));
                after_all_push(before, seals(done, binding@), change);
                one_change(self@, change);
                seal_in_steps(before.decisions, done, id, binding@);
            }
            let ghost here = self.pending();
            let sealed = self.seal(ids[i].as_str(), binding);
            assert(self.pending() =~= pending + seals(done.push(id), binding@));
        }
        assert(all.take(all.len() as int) =~= all);
        Ok(ids)
    }

    /// Whether a decision is there and pending.
    fn staged_now(&self, id: &str) -> (r: bool)
        requires
            self@.ordered(),
        ensures
            r == self@.is_staged(id@),
    {
        match position(&self.decisions, id) {
            Some(i) => {
                proof {
                    lookup_at(self@.decisions, i as int);
                }
                self.decisions[i].staged
            },
            None => false,
        }
    }

    // ---- Invariants ----------------------------------------------------------

    /// Declares an invariant under a new id, recording the decision that declared
    /// it, and returns the id.
    pub fn insert_invariant(&mut self, declared_by: &str, statement: &str, scope: Option<&str>) -> (r:
        Result<String, StoreError>)
        requires
            old(self).wf(),
        ensures
            final(self).wf(),
            r matches Ok(id) ==> holds(old(self)@.decisions, declared_by@) && final(self).declared_one(
                old(self),
                id@,
                declared_by@,
                statement@,
                scope.deep_view(),
            ),
            r matches Err(e) ==> final(self).untouched(old(self)) && ((e == StoreError::DuplicateInvariant
                && id_taken(old(self)@.invariants)) || (e == StoreError::MissingReference && !holds(old(self)@.decisions, declared_by@))),
    {
        let (id, ms) = mint();
        let done = self.insert_invariant_as(id.as_str(), ms, declared_by, statement, scope);
        match done {
            Ok(()) => {
                assert(minted(id@, ms) && self.wrote(
                    old(self),
                    seq![
                        ChangeView::AddInvariant(
                            new_invariant(id@, ms, declared_by@, statement@, scope.deep_view()),
                        ),
                    ],
                ));
                Ok(id)
            },
            Err(e) => {
                assert(minted(id@, ms));
                Err(e)
            },
        }
    }

    /// Declares an invariant under the given id.
    pub fn insert_invariant_as(
        &mut self,
        id: &str,
        created_at_ms: i64,
        declared_by: &str,
        statement: &str,
        scope: Option<&str>,
    ) -> (r: Result<(), StoreError>)
        requires
            old(self).wf(),
        ensures
            final(self).wf(),
            r == (if holds(old(self)@.invariants, id@) {
                Err(StoreError::DuplicateInvariant)
            } else if holds(old(self)@.decisions, declared_by@) {
                Ok(())
            } else {
                Err(StoreError::MissingReference)
            }),
            r is Ok ==> final(self).wrote(
                old(self),
                seq![
                    ChangeView::AddInvariant(
                        new_invariant(id@, created_at_ms, declared_by@, statement@, scope.deep_view()),
                    ),
                ],
            ),
            r is Err ==> final(self).untouched(old(self)),
    {
        if known(&self.invariants, id) {
            return Err(StoreError::DuplicateInvariant);
        }
        if !known(&self.decisions, declared_by) {
            return Err(StoreError::MissingReference);
        }
        let row = InvariantRecord {
            id: text::owned(id),
            declared_by: text::owned(declared_by),
            statement: text::owned(statement),
            scope: text::owned_opt(&scope),
            retired: false,
            created_at_ms,
        };
        let ghost before = self@;
        let ghost pending = self.pending();
        proof {
            add_invariant_wf(before, row@);
            one_change(before, ChangeView::AddInvariant(row@));
        }
        place(&mut self.invariants, row.clone());
        self.note(Change::AddInvariant(row), Ghost(before));
        assert(self.pending() =~= pending + seq![ChangeView::AddInvariant(row@)]);
        Ok(())
    }


    // ---- Import --------------------------------------------------------------

    /// Inserts the records that the log does not already have, all or nothing.
    /// Returns how many of each kind were inserted and how many records were
    /// already known.
    ///
    /// A main-log decision always carries its binding: a new record without one refuses
    /// the whole batch. Of records with the same id the first counts, and the others are
    /// already known. References are checked once everything is in, so the order of
    /// the records does not matter; one that names nothing refuses the batch too.
    pub fn import_all(
        &mut self,
        tasks: &[TaskRecord],
        decisions: &[StoredDecision],
        invariants: &[InvariantRecord],
    ) -> (r: Result<(ImportCounts, usize), StoreError>)
        requires
            old(self).wf(),
            tasks@.len() + decisions@.len() + invariants@.len() <= usize::MAX,
        ensures
            final(self).wf(),
            ({
                let next = old(self)@.imported(
                    tasks.deep_view(),
                    decisions.deep_view(),
                    invariants.deep_view(),
                );
                let counts = old(self)@.import_counts(
                    tasks.deep_view(),
                    decisions.deep_view(),
                    invariants.deep_view(),
                );
                match r {
                    Ok((c, skipped)) => {
                        &&& old(self)@.names_bindings(decisions.deep_view())
                        &&& next.closed_under_references()
                        &&& final(self)@ == next
                        &&& final(self).saved() == old(self).saved()
                        &&& final(self).pending() == old(self).pending() + old(self)@.import_changes(
                            tasks.deep_view(),
                            decisions.deep_view(),
                            invariants.deep_view(),
                        )
                        &&& (c.tasks as nat, c.decisions as nat, c.invariants as nat) == counts
                        &&& skipped == tasks@.len() + decisions@.len() + invariants@.len() - counts.0
                            - counts.1 - counts.2
                    },
                    Err(e) => final(self).untouched(old(self)) && if old(self)@.names_bindings(
                        decisions.deep_view(),
                    ) {
                        !next.closed_under_references() && e == StoreError::MissingReference
                    } else {
                        e == StoreError::Malformed
                    },
                }
            }),
    {
        let ghost before = self@;
        let ghost pending = self.pending();
        let ghost landing = decisions.deep_view().map_values(|d: StoredDecisionView| landed(d));
        let mut landed_rows: Vec<StoredDecision> = Vec::new();
        for i in 0..decisions.len()
            invariant
                *self == *old(self),
                old(self).wf(),
                before == self@,
                landed_rows.len() == i,
                forall|j: int|
                    0 <= j < i ==> (#[trigger] landed_rows[j]).deep_view() == landed(
                        decisions[j].deep_view(),
                    ),
                forall|j: int|
                    0 <= j < i && !holds(before.decisions, (#[trigger] decisions.deep_view()[j]).id)
                        && is_first(decisions.deep_view(), j) ==> decisions.deep_view()[j].binding is Some,
        {
            assert(decisions.deep_view()[i as int] == decisions[i as int]@);
            if decisions[i].binding.is_none() && !known(&self.decisions, decisions[i].id.as_str())
                && comes_first(decisions, i) {
                return Err(StoreError::Malformed);
            }
            landed_rows.push(land(&decisions[i]));
        }
        assert(landed_rows.deep_view() =~= landing);
        let (all_tasks, new_tasks) = merge_rows(&self.tasks, tasks);
        let (all_decisions, new_decisions) = merge_rows(&self.decisions, landed_rows.as_slice());
        let (all_invariants, new_invariants) = merge_rows(&self.invariants, invariants);
        proof {
            merge_inserts_fresh(before.tasks, tasks.deep_view());
            merge_inserts_fresh(before.decisions, landing);
            merge_inserts_fresh(before.invariants, invariants.deep_view());
        }
        if !references_hold(&all_tasks, &all_decisions, &all_invariants) {
            return Err(StoreError::MissingReference);
        }
        let counts = ImportCounts {
            tasks: new_tasks.len(),
            decisions: new_decisions.len(),
            invariants: new_invariants.len(),
        };
        let skipped: usize = (tasks.len() - counts.tasks) + (decisions.len() - counts.decisions) + (
        invariants.len() - counts.invariants);
        let ghost changes = additions(
            new_tasks.deep_view(),
            new_decisions.deep_view(),
            new_invariants.deep_view(),
        );
        proof {
            additions_insert(
                before,
                new_tasks.deep_view(),
                new_decisions.deep_view(),
                new_invariants.deep_view(),
            );
            fresh_is_new(before.tasks, tasks.deep_view());
            fresh_is_new(before.decisions, landing);
            fresh_is_new(before.invariants, invariants.deep_view());
            admits_all_add(self.saved(), pending, changes);
            imported_bound(before, tasks.deep_view(), decisions.deep_view(), invariants.deep_view());
        }
        let ghost adds_t = new_tasks.deep_view().map_values(
            |t: TaskRecordView| ChangeView::AddTask(t),
        );
        assert(pending + adds_t.take(0) =~= pending);
        for i in 0..new_tasks.len()
            invariant
                self.pending() == pending + adds_t.take(i as int),
                self.saved() == old(self).saved(),
                adds_t == new_tasks.deep_view().map_values(
                    |t: TaskRecordView| ChangeView::AddTask(t),
                ),
        {
            let ghost noted = self.pending();
            self.journal.push(Change::AddTask(new_tasks[i].clone()));
            assert(self.pending() =~= noted.push(ChangeView::AddTask(new_tasks[i as int]@)));
            assert(adds_t[i as int] == ChangeView::AddTask(new_tasks[i as int]@));
            assert(self.pending() =~= pending + adds_t.take(i + 1));
        }
        assert(adds_t.take(adds_t.len() as int) =~= adds_t);
        let ghost adds_d = new_decisions.deep_view().map_values(
            |d: StoredDecisionView| ChangeView::AddDecision(d),
        );
        assert((pending + adds_t) + adds_d.take(0) =~= (pending + adds_t));
        for i in 0..new_decisions.len()
            invariant
                self.pending() == (pending + adds_t) + adds_d.take(i as int),
                self.saved() == old(self).saved(),
                adds_d == new_decisions.deep_view().map_values(
                    |d: StoredDecisionView| ChangeView::AddDecision(d),
                ),
        {
            let ghost noted = self.pending();
            self.journal.push(Change::AddDecision(new_decisions[i].clone()));
            assert(self.pending() =~= noted.push(ChangeView::AddDecision(new_decisions[i as int]@)));
            assert(adds_d[i as int] == ChangeView::AddDecision(new_decisions[i as int]@));
            assert(self.pending() =~= (pending + adds_t) + adds_d.take(i + 1));
        }
        assert(adds_d.take(adds_d.len() as int) =~= adds_d);
        let ghost adds_v = new_invariants.deep_view().map_values(
            |v: InvariantRecordView| ChangeView::AddInvariant(v),
        );
        assert((pending + adds_t + adds_d) + adds_v.take(0) =~= (pending + adds_t + adds_d));
        for i in 0..new_invariants.len()
            invariant
                self.pending() == (pending + adds_t + adds_d) + adds_v.take(i as int),
                self.saved() == old(self).saved(),
                adds_v == new_invariants.deep_view().map_values(
                    |v: InvariantRecordView| ChangeView::AddInvariant(v),
                ),
        {
            let ghost noted = self.pending();
            self.journal.push(Change::AddInvariant(new_invariants[i].clone()));
            assert(self.pending() =~= noted.push(ChangeView::AddInvariant(new_invariants[i as int]@)));
            assert(adds_v[i as int] == ChangeView::AddInvariant(new_invariants[i as int]@));
            assert(self.pending() =~= (pending + adds_t + adds_d) + adds_v.take(i + 1));
        }
        assert(adds_v.take(adds_v.len() as int) =~= adds_v);
        assert(self.pending() =~= pending + changes);
        self.tasks = all_tasks;
        self.decisions = all_decisions;
        self.invariants = all_invariants;
        Ok((counts, skipped))
    }


    // ---- Queries -------------------------------------------------------------

    /// The schema version of the store.
    pub fn schema_version(&self) -> (r: i64)
        ensures
            r == SCHEMA_VERSION,
    {
        SCHEMA_VERSION
    }

    /// How many decisions are pending, under one task or under any, and how old the
    /// oldest of them is.
    fn staged_tally(&self, task: Option<&str>) -> (r: (u64, Option<i64>))
        ensures
            match task.deep_view() {
                Some(id) => r.0 == self@.staged_of(id).len() && r.1 == oldest(self@.staged_of(id)),
                None => r.0 == self@.staging().len() && r.1 == oldest(self@.staging()),
            },
    {
        let ghost p = match task.deep_view() {
            Some(id) => |d: StoredDecisionView| d.staged && d.task_id == Some(id),
            None => |d: StoredDecisionView| d.staged,
        };
        let ghost all = self@.decisions;
        let mut count: u64 = 0;
        let mut least: Option<i64> = None;
        proof {
            reveal(Seq::filter);
        }
        assert(all.take(0) =~= Seq::empty());
        for i in 0..self.decisions.len()
            invariant
                all == self.decisions.deep_view(),
                p == (match task.deep_view() {
                    Some(id) => |d: StoredDecisionView| d.staged && d.task_id == Some(id),
                    None => |d: StoredDecisionView| d.staged,
                }),
                count == all.take(i as int).filter(p).len(),
                count <= i,
                least == oldest(all.take(i as int).filter(p)),
        {
            let ghost v = all[i as int];
            assert(all.take(i + 1) =~= all.take(i as int).push(v));
            proof {
                all.take(i as int).lemma_filter_push(v, p);
            }
            assert(v == self.decisions[i as int]@);
            let counted = self.decisions[i].staged && match task {
                Some(id) => text::opt_is(&self.decisions[i].task_id, id),
                None => true,
            };
            assert(counted == p(v));
            if counted {
                let ghost f = all.take(i as int).filter(p);
                assert(f.push(v).drop_last() =~= f);
                count = count + 1;
                let ms: i64 = self.decisions[i].created_at_ms;
                least = match least {
                    Some(m) if m <= ms => Some(m),
                    _ => Some(ms),
                };
            }
        }
        assert(all.take(all.len() as int) =~= all);
        (count, least)
    }

    /// Tasks in the compact list form, newest first. Open tasks only unless
    /// `include_completed`; `parent` narrows to one task's children.
    pub fn list_tasks(&self, include_completed: bool, parent: Option<&str>) -> (r: Vec<TaskRow>)
        ensures
            r.deep_view() == self@.tasks.filter(
                |t: TaskRecordView|
                    (include_completed || t.completed_at_ms is None) && (parent.deep_view() is None
                        || t.parent_task_id == parent.deep_view()),
            ).map_values(|t: TaskRecordView| self@.task_row(t)).reverse(),
    {
        let test = |t: &TaskRecord| -> (b: bool)
            ensures
                b == ((include_completed || t@.completed_at_ms is None) && (parent.deep_view() is None
                    || t@.parent_task_id == parent.deep_view())),
            {
                (include_completed || t.completed_at_ms.is_none()) && match parent {
                    Some(id) => text::opt_is(&t.parent_task_id, id),
                    None => true,
                }
            };
        let make = |t: &TaskRecord| -> (row: TaskRow)
            ensures
                row@ == self@.task_row(t@),
            {
                TaskRow {
                    id: t.id.clone(),
                    parent_task_id: t.parent_task_id.clone(),
                    instruction: t.instruction.clone(),
                    staged_count: self.staged_tally(Some(t.id.as_str())).0,
                    completed_at_ms: t.completed_at_ms,
                    created_at_ms: t.created_at_ms,
                }
            };
        let rows = gather(
            &self.tasks,
            test,
            make,
            Ghost(
                |t: TaskRecordView|
                    (include_completed || t.completed_at_ms is None) && (parent.deep_view() is None
                        || t.parent_task_id == parent.deep_view()),
            ),
            Ghost(|t: TaskRecordView| self@.task_row(t)),
        );
        turned(rows)
    }

    /// Every unfinished task that still holds pending decisions, newest first.
    fn all_stranded(&self) -> (r: Vec<StrandedTask>)
        ensures
            r.deep_view() == self@.stranded(),
    {
        let test = |t: &TaskRecord| -> (b: bool)
            ensures
                b == self@.is_stranded(t@),
            {
                t.completed_at_ms.is_none() && self.staged_tally(Some(t.id.as_str())).0 > 0
            };
        let make = |t: &TaskRecord| -> (row: StrandedTask)
            ensures
                self@.is_stranded(t@) ==> row@ == self@.stranded_row(t@),
            {
                let (count, least) = self.staged_tally(Some(t.id.as_str()));
                proof {
                    oldest_is_least(self@.staged_of(t@.id));
                }
                StrandedTask {
                    task: t.id.clone(),
                    instruction: t.instruction.clone(),
                    staged_count: count,
                    oldest_staged_ms: match least {
                        Some(ms) => ms,
                        None => 0,
                    },
                }
            };
        let mut rows: Vec<StrandedTask> = Vec::new();
        let ghost all = self@.tasks;
        let ghost p = |t: TaskRecordView| self@.is_stranded(t);
        let ghost f = |t: TaskRecordView| self@.stranded_row(t);
        assert(all.take(0) =~= Seq::empty());
        proof {
            reveal(Seq::filter);
        }
        assert(rows.deep_view() =~= all.take(0).filter(p).map_values(f));
        for i in 0..self.tasks.len()
            invariant
                all == self.tasks.deep_view(),
                p == (|t: TaskRecordView| self@.is_stranded(t)),
                f == (|t: TaskRecordView| self@.stranded_row(t)),
                forall|t: &TaskRecord| #[trigger] test.requires((t,)),
                forall|t: &TaskRecord, b: bool| #[trigger]
                    test.ensures((t,), b) ==> b == self@.is_stranded(t@),
                forall|t: &TaskRecord| #[trigger] make.requires((t,)),
                forall|t: &TaskRecord, row: StrandedTask| #[trigger]
                    make.ensures((t,), row) ==> (self@.is_stranded(t@) ==> row@ == self@.stranded_row(
                        t@,
                    )),
                rows.deep_view() == all.take(i as int).filter(p).map_values(f),
        {
            let ghost v = all[i as int];
            assert(all.take(i + 1) =~= all.take(i as int).push(v));
            proof {
                all.take(i as int).lemma_filter_push(v, p);
            }
            assert(v == self.tasks[i as int]@);
            if test(&self.tasks[i]) {
                let ghost before = rows.deep_view();
                rows.push(make(&self.tasks[i]));
                assert(rows.deep_view() =~= before.push(f(v)));
                assert(all.take(i as int).filter(p).push(v).map_values(f) =~= all.take(
                    i as int,
                ).filter(p).map_values(f).push(f(v)));
            }
        }
        assert(all.take(all.len() as int) =~= all);
        turned(rows)
    }

    /// Unfinished tasks that still hold pending decisions, newest first, at most
    /// `limit` of them.
    pub fn stranded_tasks(&self, limit: usize) -> (r: Vec<StrandedTask>)
        ensures
            r.deep_view() == self@.stranded().take(
                if limit < self@.stranded().len() {
                    limit as int
                } else {
                    self@.stranded().len() as int
                },
            ),
    {
        let mut rows = self.all_stranded();
        let ghost all = rows.deep_view();
        if limit < rows.len() {
            rows.truncate(limit);
        }
        assert(rows.deep_view() =~= all.take(rows.len() as int));
        rows
    }

    /// Pending decisions of one task, oldest first.
    pub fn staged_decision_ids_for_task(&self, task_id: &str) -> (r: Vec<String>)
        ensures
            r.deep_view() == self@.staged_ids_of(task_id@),
    {
        let test = |d: &StoredDecision| -> (b: bool)
            ensures
                b == (d@.staged && d@.task_id == Some(task_id@)),
            { d.staged && text::opt_is(&d.task_id, task_id) };
        select_ids(
            &self.decisions,
            test,
            Ghost(|d: StoredDecisionView| d.staged && d.task_id == Some(task_id@)),
        )
    }

    /// A decision by id, with its anchors.
    pub fn get_decision(&self, id: &str) -> (r: Option<StoredDecision>)
        requires
            self.wf(),
        ensures
            r.deep_view() == lookup(self@.decisions, id@),
    {
        fetch(&self.decisions, id)
    }

    /// Anchors recorded for a decision, in the order of recording.
    pub fn anchors_for(&self, decision_id: &str) -> (r: Vec<Anchor>)
        requires
            self.wf(),
        ensures
            r.deep_view() == (match lookup(self@.decisions, decision_id@) {
                Some(d) => d.anchors,
                None => Seq::empty(),
            }),
    {
        match fetch(&self.decisions, decision_id) {
            Some(d) => d.anchors,
            None => {
                let none: Vec<Anchor> = Vec::new();
                assert(none.deep_view() =~= Seq::empty());
                none
            },
        }
    }

    /// The decisions with an anchor that passes `test`, newest first.
    fn anchored<F: Fn(&Anchor) -> bool>(&self, test: F, p: Ghost<spec_fn(AnchorView) -> bool>) -> (r: Vec<
        String,
    >)
        requires
            forall|a: &Anchor| #[trigger] test.requires((a,)),
            forall|a: &Anchor, b: bool| #[trigger] test.ensures((a,), b) ==> b == p@(a@),
        ensures
            r.deep_view() == self@.anchored_ids(p@),
    {
        let any = |d: &StoredDecision| -> (b: bool)
            ensures
                b == has_anchor(d@, p@),
            { any_anchor(d, &test, p) };
        turned(
            select_ids(&self.decisions, any, Ghost(|d: StoredDecisionView| has_anchor(d, p@))),
        )
    }

    /// Decisions with an anchor matching both symbol path and structural hash.
    pub fn decision_ids_by_symbol_and_hash(&self, symbol_path: &str, structural_hash: &str) -> (r: Vec<
        String,
    >)
        ensures
            r.deep_view() == self@.anchored_ids(
                |a: AnchorView|
                    a.symbol_path == Some(symbol_path@) && a.structural_hash == Some(structural_hash@),
            ),
    {
        let test = |a: &Anchor| -> (b: bool)
            ensures
                b == (a@.symbol_path == Some(symbol_path@) && a@.structural_hash == Some(
                    structural_hash@,
                )),
            {
                text::opt_is(&a.symbol_path, symbol_path) && text::opt_is(
                    &a.structural_hash,
                    structural_hash,
                )
            };
        self.anchored(
            test,
            Ghost(
                |a: AnchorView|
                    a.symbol_path == Some(symbol_path@) && a.structural_hash == Some(structural_hash@),
            ),
        )
    }

    /// Decisions with an anchor on this symbol path.
    pub fn decision_ids_by_symbol(&self, symbol_path: &str) -> (r: Vec<String>)
        ensures
            r.deep_view() == self@.anchored_ids(|a: AnchorView| a.symbol_path == Some(symbol_path@)),
    {
        let test = |a: &Anchor| -> (b: bool)
            ensures
                b == (a@.symbol_path == Some(symbol_path@)),
            { text::opt_is(&a.symbol_path, symbol_path) };
        self.anchored(test, Ghost(|a: AnchorView| a.symbol_path == Some(symbol_path@)))
    }

    /// Decisions with an anchor of this structural hash, in whatever file.
    pub fn decision_ids_by_hash(&self, structural_hash: &str) -> (r: Vec<String>)
        ensures
            r.deep_view() == self@.anchored_ids(
                |a: AnchorView| a.structural_hash == Some(structural_hash@),
            ),
    {
        let test = |a: &Anchor| -> (b: bool)
            ensures
                b == (a@.structural_hash == Some(structural_hash@)),
            { text::opt_is(&a.structural_hash, structural_hash) };
        self.anchored(test, Ghost(|a: AnchorView| a.structural_hash == Some(structural_hash@)))
    }

    /// The symbol paths among anchors with this structural hash, each once,
    /// ascending. A hash that spans more than one symbol is ambiguous.
    pub fn symbol_paths_for_hash(&self, structural_hash: &str) -> (r: Vec<String>)
        ensures
            ascending(r.deep_view()),
            forall|s: Seq<char>| #[trigger]
                r.deep_view().contains(s) <==> self@.hash_names(structural_hash@, s),
    {
        let ghost log = self@;
        let ghost hash = structural_hash@;
        let mut out: Vec<String> = Vec::new();
        for i in 0..self.decisions.len()
            invariant
                log == self@,
                hash == structural_hash@,
                ascending(out.deep_view()),
                forall|s: Seq<char>| #[trigger]
                    out.deep_view().contains(s) <==> exists|k: int|
                        0 <= k < i && has_anchor(
                            #[trigger] log.decisions[k],
                            |a: AnchorView| a.structural_hash == Some(hash) && a.symbol_path == Some(s),
                        ),
        {
            let ghost before = out.deep_view();
            let anchors = &self.decisions[i].anchors;
            let ghost d = log.decisions[i as int];
            assert(d == self.decisions[i as int]@);
            for j in 0..anchors.len()
                invariant
                    hash == structural_hash@,
                    d.anchors == anchors.deep_view(),
                    ascending(out.deep_view()),
                    forall|s: Seq<char>| #[trigger]
                        out.deep_view().contains(s) <==> before.contains(s) || exists|k: int|
                            0 <= k < j && (#[trigger] d.anchors[k]).structural_hash == Some(hash)
                                && d.anchors[k].symbol_path == Some(s),
            {
                assert(d.anchors[j as int] == anchors[j as int]@);
                if text::opt_is(&anchors[j].structural_hash, structural_hash) {
                    if let Some(symbol) = &anchors[j].symbol_path {
                        add_text(&mut out, symbol.as_str());
                    }
                }
            }
            assert forall|s: Seq<char>| #[trigger] out.deep_view().contains(s) <==> exists|k: int|
                0 <= k < i + 1 && has_anchor(
                    #[trigger] log.decisions[k],
                    |a: AnchorView| a.structural_hash == Some(hash) && a.symbol_path == Some(s),
                ) by {
                let q = |a: AnchorView| a.structural_hash == Some(hash) && a.symbol_path == Some(s);
                if exists|k: int|
                    0 <= k < anchors.len() && (#[trigger] d.anchors[k]).structural_hash == Some(hash)
                        && d.anchors[k].symbol_path == Some(s) {
                    let k = choose|k: int|
                        0 <= k < anchors.len() && (#[trigger] d.anchors[k]).structural_hash == Some(hash)
                            && d.anchors[k].symbol_path == Some(s);
                    assert(q(d.anchors[k]));
                    assert(has_anchor(log.decisions[i as int], q));
                }
            }
        }
        out
    }

    /// Decisions with an anchor on this file.
    pub fn decision_ids_by_file(&self, file: &str) -> (r: Vec<String>)
        ensures
            r.deep_view() == self@.anchored_ids(|a: AnchorView| a.file == file@),
    {
        let test = |a: &Anchor| -> (b: bool)
            ensures
                b == (a@.file == file@),
            { text::same(a.file.as_str(), file) };
        self.anchored(test, Ghost(|a: AnchorView| a.file == file@))
    }

    /// Decisions with an anchor at `path` (an exact file) or anywhere under it (a
    /// directory), newest first; every anchored decision for `.`.
    pub fn decision_ids_under_path(&self, path: &str) -> (r: Vec<String>)
        ensures
            r.deep_view() == self@.anchored_ids(|a: AnchorView| covers(path@, a.file)),
    {
        let test = |a: &Anchor| -> (b: bool)
            ensures
                b == covers(path@, a@.file),
            { path_covers(path, a.file.as_str()) };
        self.anchored(test, Ghost(|a: AnchorView| covers(path@, a.file)))
    }

    /// The `(file, decision)` pairs under `path`, newest decision first. A decision
    /// anchored to several files under the path appears once per file.
    pub fn anchors_under_path(&self, path: &str) -> (r: Vec<(String, String)>)
        ensures
            r.deep_view() == pairs_under(self@.decisions, path@),
    {
        let ghost all = self@.decisions;
        let mut out: Vec<(String, String)> = Vec::new();
        let mut n: usize = self.decisions.len();
        assert(all.take(all.len() as int) =~= all);
        assert(out.deep_view() + pairs_under(all, path@) =~= pairs_under(all, path@));
        while n > 0
            invariant
                n <= self.decisions.len(),
                all == self.decisions.deep_view(),
                out.deep_view() + pairs_under(all.take(n as int), path@) == pairs_under(all, path@),
            decreases n,
        {
            let ghost before = out.deep_view();
            let ghost d = all[n - 1];
            n = n - 1;
            assert(all.take(n + 1).drop_last() =~= all.take(n as int));
            assert(d == self.decisions[n as int]@);
            let files = anchor_files(&self.decisions[n].anchors, path);
            let ghost pairs = paired(files.deep_view(), d.id);
            assert(before + pairs.take(0) =~= before);
            for j in 0..files.len()
                invariant
                    n < self.decisions.len(),
                    d == self.decisions[n as int]@,
                    pairs == paired(files.deep_view(), d.id),
                    out.deep_view() == before + pairs.take(j as int),
            {
                let ghost so_far = out.deep_view();
                out.push((files[j].clone(), self.decisions[n].id.clone()));
                assert(pairs[j as int] == (files[j as int]@, d.id));
                assert(out.deep_view() =~= so_far.push(pairs[j as int]));
                assert(out.deep_view() =~= before + pairs.take(j + 1));
            }
            assert(pairs.take(pairs.len() as int) =~= pairs);
            assert(out.deep_view() + pairs_under(all.take(n as int), path@) =~= before + pairs_under(
                all.take(n + 1),
                path@,
            ));
        }
        assert(all.take(0) =~= Seq::empty());
        assert(out.deep_view() =~= out.deep_view() + pairs_under(all.take(0), path@));
        out
    }

    /// Decisions that list `decision_id` among their causes, newest first.
    pub fn decision_ids_caused_by(&self, decision_id: &str) -> (r: Vec<String>)
        ensures
            r.deep_view() == self@.effects_of(decision_id@),
    {
        let test = |d: &StoredDecision| -> (b: bool)
            ensures
                b == d@.caused_by.contains(decision_id@),
            { listed(&d.caused_by, decision_id) };
        turned(
            select_ids(
                &self.decisions,
                test,
                Ghost(|d: StoredDecisionView| d.caused_by.contains(decision_id@)),
            ),
        )
    }

    /// The decisions that a later one supersedes, each once, ascending.
    pub fn superseded_ids(&self) -> (r: Vec<String>)
        ensures
            ascending(r.deep_view()),
            forall|id: Seq<char>| #[trigger] r.deep_view().contains(id) <==> self@.is_superseded(id),
    {
        let ghost log = self@;
        let mut out: Vec<String> = Vec::new();
        for i in 0..self.decisions.len()
            invariant
                log == self@,
                ascending(out.deep_view()),
                forall|id: Seq<char>| #[trigger]
                    out.deep_view().contains(id) <==> exists|k: int|
                        0 <= k < i && (#[trigger] log.decisions[k]).supersedes == Some(id),
        {
            let ghost before = out.deep_view();
            assert(log.decisions[i as int] == self.decisions[i as int]@);
            if let Some(id) = &self.decisions[i].supersedes {
                add_text(&mut out, id.as_str());
            }
            assert forall|id: Seq<char>| #[trigger] out.deep_view().contains(id) <==> exists|k: int|
                0 <= k < i + 1 && (#[trigger] log.decisions[k]).supersedes == Some(id) by {
                if log.decisions[i as int].supersedes == Some(id) {
                    assert(out.deep_view().contains(id));
                }
                assert(before.contains(id) ==> out.deep_view().contains(id));
            }
        }
        out
    }

    /// Live invariants as `(id, statement)` pairs, ascending.
    pub fn live_invariants(&self) -> (r: Vec<(String, String)>)
        ensures
            r.deep_view() == self@.live().map_values(|v: InvariantRecordView| (v.id, v.statement)),
    {
        let test = |v: &InvariantRecord| -> (b: bool)
            ensures
                b == !v@.retired,
            { !v.retired };
        let make = |v: &InvariantRecord| -> (row: (String, String))
            ensures
                row.deep_view() == (v@.id, v@.statement),
            { (v.id.clone(), v.statement.clone()) };
        gather(
            &self.invariants,
            test,
            make,
            Ghost(|v: InvariantRecordView| !v.retired),
            Ghost(|v: InvariantRecordView| (v.id, v.statement)),
        )
    }

    /// Live invariants with provenance, ascending.
    pub fn list_live_invariants(&self) -> (r: Vec<InvariantRow>)
        ensures
            r.deep_view() == self@.live().map_values(|v: InvariantRecordView| invariant_row(v)),
    {
        let test = |v: &InvariantRecord| -> (b: bool)
            ensures
                b == !v@.retired,
            { !v.retired };
        let make = |v: &InvariantRecord| -> (row: InvariantRow)
            ensures
                row.deep_view() == invariant_row(v@),
            {
                InvariantRow {
                    id: v.id.clone(),
                    statement: v.statement.clone(),
                    scope: v.scope.clone(),
                    declared_by: v.declared_by.clone(),
                }
            };
        gather(
            &self.invariants,
            test,
            make,
            Ghost(|v: InvariantRecordView| !v.retired),
            Ghost(|v: InvariantRecordView| invariant_row(v)),
        )
    }

    /// Every invariant that a decision declared, as `(id, statement, scope)`.
    pub fn invariants_declared_by(&self, decision_id: &str) -> (r: Vec<(String, String, Option<String>)>)
        ensures
            r.deep_view() == self@.declared(decision_id@).map_values(
                |v: InvariantRecordView| (v.id, v.statement, v.scope),
            ),
    {
        let test = |v: &InvariantRecord| -> (b: bool)
            ensures
                b == (v@.declared_by == decision_id@),
            { text::same(v.declared_by.as_str(), decision_id) };
        let make = |v: &InvariantRecord| -> (row: (String, String, Option<String>))
            ensures
                row.deep_view() == (v@.id, v@.statement, v@.scope),
            { (v.id.clone(), v.statement.clone(), v.scope.clone()) };
        gather(
            &self.invariants,
            test,
            make,
            Ghost(|v: InvariantRecordView| v.declared_by == decision_id@),
            Ghost(|v: InvariantRecordView| (v.id, v.statement, v.scope)),
        )
    }

    /// Every invariant that a decision declared, retired ones too: an export must
    /// carry them, or importing would resurrect them.
    pub fn invariant_records_declared_by(&self, decision_id: &str) -> (r: Vec<InvariantRecord>)
        ensures
            r.deep_view() == self@.declared(decision_id@),
    {
        let test = |v: &InvariantRecord| -> (b: bool)
            ensures
                b == (v@.declared_by == decision_id@),
            { text::same(v.declared_by.as_str(), decision_id) };
        let make = |v: &InvariantRecord| -> (row: InvariantRecord)
            ensures
                row@ == v@,
            { v.clone() };
        let r = gather(
            &self.invariants,
            test,
            make,
            Ghost(|v: InvariantRecordView| v.declared_by == decision_id@),
            Ghost(|v: InvariantRecordView| v),
        );
        assert(r.deep_view() =~= self@.declared(decision_id@));
        r
    }

    /// Full-text search over decision prose: the matching decisions, best first, or
    /// what SQLite says went wrong. The raw query is taken as literal words, all of
    /// which must occur; a blank one finds nothing.
    pub fn search(&self, query: &str) -> (r: Result<Vec<String>, String>)
        requires
            self.wf(),
        ensures
            words_of(query@).len() == 0 ==> (r matches Ok(ids) && ids@.len() == 0),
            r matches Ok(ids) ==> words_of(query@).len() > 0 ==> ids.deep_view().to_set() == matching(
                documents(self@.decisions),
                literal_query(query@),
            ),
            r matches Ok(ids) ==> words_of(query@).len() > 0 ==> ranked(
                documents(self@.decisions),
                literal_query(query@),
                ids.deep_view(),
            ),
            r matches Ok(ids) ==> ids.deep_view().no_duplicates() && forall|id: Seq<char>| #[trigger]
                ids.deep_view().contains(id) ==> holds(self@.decisions, id),
    {
        let ghost s = self@.decisions;
        assert forall|i: int, j: int| 0 <= i < j < s.len() implies (#[trigger] documents(s)[i]).id
            != (#[trigger] documents(s)[j]).id by {
            if s[i].id == s[j].id {
                keys_unique(s, i, j);
            }
        }
        let found = search_prose(&self.decisions, query);
        assert forall|id: Seq<char>| (exists|i: int| 0 <= i < s.len() && (#[trigger] s[i]).id == id) implies #[trigger] holds(s, id) by {
            let k = choose|k: int| 0 <= k < s.len() && (#[trigger] s[k]).id == id;
            assert(s[k].key() == id);
        }
        found
    }

    /// Sealed decision ids, ascending, optionally bounded below. Pending decisions
    /// are never returned.
    pub fn sealed_decision_ids(&self, since: Option<&SinceBound>) -> (r: Vec<String>)
        ensures
            r.deep_view() == self@.sealed_ids(since.deep_view()),
    {
        let test = |d: &StoredDecision| -> (b: bool)
            ensures
                b == (!d@.staged && since_admits(since.deep_view(), d@)),
            {
                !d.staged && match since {
                    None => true,
                    Some(SinceBound::Id(id)) => text::same(id.as_str(), d.id.as_str()) || text::before(
                        id.as_str(),
                        d.id.as_str(),
                    ),
                    Some(SinceBound::Ms(ms)) => *ms <= d.created_at_ms,
                }
            };
        select_ids(
            &self.decisions,
            test,
            Ghost(|d: StoredDecisionView| !d.staged && since_admits(since.deep_view(), d)),
        )
    }

    /// A task's stored row.
    pub fn get_task(&self, id: &str) -> (r: Option<TaskRecord>)
        requires
            self.wf(),
        ensures
            r.deep_view() == lookup(self@.tasks, id@),
    {
        fetch(&self.tasks, id)
    }

    /// Whether a decision id is known.
    pub fn decision_exists(&self, id: &str) -> (r: bool)
        ensures
            r == holds(self@.decisions, id@),
    {
        known(&self.decisions, id)
    }

    /// Whether an invariant id is known.
    pub fn invariant_exists(&self, id: &str) -> (r: bool)
        ensures
            r == holds(self@.invariants, id@),
    {
        known(&self.invariants, id)
    }

    /// Store-wide status.
    pub fn status(&self) -> (r: StoreStatus)
        ensures
            r.staging_count == self@.staging().len(),
            r.oldest_staged_ms == oldest(self@.staging()),
            r.stranded_task_count == self@.stranded().len(),
            r.schema_version == SCHEMA_VERSION,
    {
        let (count, least) = self.staged_tally(None);
        StoreStatus {
            staging_count: count,
            oldest_staged_ms: least,
            stranded_task_count: self.all_stranded().len() as u64,
            schema_version: self.schema_version(),
        }
    }

}

/// A store that was brought up to date, and says so, has nothing more to apply.
pub proof fn migrated_is_current()
    ensures
        recorded_version(Some(text::decimal_int(SCHEMA_VERSION as int))) == SCHEMA_VERSION,
{
    text::i64_reads_back(SCHEMA_VERSION);
}

/// A path covers whole components: what lies under it is spelled as it is, letter for
/// letter, and continues with a `/`.
pub proof fn covers_whole_components(path: Seq<char>, file: Seq<char>)
    requires
        covers(path, file),
        path != "."@,
        file != path,
    ensures
        file.len() > path.len(),
        file.take(path.len() as int) == path,
        file[path.len() as int] == '/',
{
    reveal_strlit("/");
    let n = path.len() as int;
    assert(file.take(n) =~= file.take(n + 1).take(n));
    assert((path + "/"@).take(n) =~= path);
    assert(file.take(n + 1)[n] == (path + "/"@)[n]);
}

/// Sealing everything staged leaves nothing staged.
pub proof fn seal_all_empties_staging(log: Log, binding: BindingView, id: Seq<char>)
    requires
        log.wf(),
    ensures
        !(Log { decisions: seal_in(log.decisions, log.staged_ids(), binding), ..log }).is_staged(id),
{
    let after = seal_in(log.decisions, log.staged_ids(), binding);
    staged_ids_sealable(log);
    seal_wf(log, log.staged_ids(), binding);
    lookup_sound(after, id);
    if holds(after, id) {
        let d = lookup(after, id)->0;
        let k = after.index_of(d);
        lookup_at(log.decisions, k);
        lookup_at(after, k);
        assert(log.staged_ids().contains(log.decisions[k].id) <==> log.is_staged(log.decisions[k].id));
    }
}

/// Writing nothing.
pub proof fn nothing_wrote(before: &Store, after: &Store)
    requires
        after.untouched(before),
    ensures
        after.wrote(before, Seq::empty()),
{
    assert(before.pending() + Seq::<ChangeView>::empty() =~= before.pending());
}

/// Writing some, and then more.
pub proof fn wrote_then(
    before: &Store,
    between: &Store,
    after: &Store,
    first: Seq<ChangeView>,
    second: Seq<ChangeView>,
)
    requires
        between.wrote(before, first),
        after.wrote(between, second),
    ensures
        after.wrote(before, first + second),
{
    after_all_add(before@, first, second);
    assert(before.pending() + (first + second) =~= (before.pending() + first) + second);
}

} // verus!
