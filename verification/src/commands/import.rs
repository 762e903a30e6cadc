//! `dlog import`: replays an export file into a store.
//!
//! The whole algorithm is "insert the ids that are not there". That works because the log
//! is append-only and ids are globally unique, so the same id means the same decision and
//! there is nothing to merge.
//!
//! Two things are checked before anything is written. Sealed only: a record claiming to be
//! staged, or carrying no binding, is refused, or a hand-written file could inject rows
//! into someone else's staging area. No dangling references: each must resolve inside the
//! file or in the store. Causes are exempt: a missing cause just ends a trace early, and
//! is reported back as state.
use crate::commands::share::{Header, HeaderView, Record, RecordView, FORMAT_VERSION};
use crate::commands::{failure, AppError, AppErrorView};
use crate::log::{
    landed, merge, merge_holds, merge_inserts_fresh, resolves, InvariantRecord,
    InvariantRecordView, Log, TaskRecord, TaskRecordView,
};
use crate::model::{StoredDecision, StoredDecisionView};
use crate::store::{merge_rows, ImportCounts, Store};
use crate::table::{add_text, ascending, holds, known, Keyed};
use crate::text::{self, decimal_of, joined, lines_of, trimmed};
use vstd::prelude::*;

verus! {

// ---- Lines ------------------------------------------------------------------

/// The lines among the first `n` that are not blank, trimmed, each with its number.
pub open spec fn framed(lines: Seq<Seq<char>>, n: int) -> Seq<(usize, Seq<char>)>
    decreases n,
{
    if n <= 0 {
        Seq::empty()
    } else {
        let line = trimmed(lines[n - 1]);
        if line.len() == 0 {
            framed(lines, n - 1)
        } else {
            framed(lines, n - 1).push((n as usize, line))
        }
    }
}

/// Splits a file into its lines, each with its 1-based number. Blank lines are skipped,
/// so concatenating two exports stays valid.
pub fn record_lines(text: &str) -> (r: Vec<(usize, String)>)
    ensures
        r.deep_view() == framed(lines_of(text@), lines_of(text@).len() as int),
{
    let all = text::lines(text);
    let ghost s = all.deep_view();
    let mut out: Vec<(usize, String)> = Vec::new();
    assert(out.deep_view() =~= Seq::empty());
    for i in 0..all.len()
        invariant
            s == all.deep_view(),
            out.deep_view() == framed(s, i as int),
    {
        let line = text::trim(all[i].as_str());
        assert(s[i as int] == all[i as int]@);
        if text::char_count(line.as_str()) > 0 {
            let ghost before = out.deep_view();
            out.push((i + 1, line));
            assert(out.deep_view() =~= before.push(((i + 1) as usize, line@)));
        }
    }
    out
}

/// What a line was read as.
#[derive(Debug, PartialEq, Eq)]
pub enum Reading {
    Record(Record),
    /// It is no record, and why.
    Unreadable(String),
}

/// The value of a `Reading`.
pub ghost enum ReadingView {
    Record(RecordView),
    Unreadable(Seq<char>),
}

impl DeepView for Reading {
    type V = ReadingView;

    open spec fn deep_view(&self) -> ReadingView {
        match self {
            Reading::Record(r) => ReadingView::Record(r@),
            Reading::Unreadable(why) => ReadingView::Unreadable(why@),
        }
    }
}

/// One line of a file, read.
#[derive(Debug, PartialEq, Eq)]
pub struct Line {
    pub line_no: usize,
    pub reading: Reading,
}

/// The value of a `Line`.
pub ghost struct LineView {
    pub line_no: usize,
    pub reading: ReadingView,
}

impl DeepView for Line {
    type V = LineView;

    open spec fn deep_view(&self) -> LineView {
        LineView { line_no: self.line_no, reading: self.reading.deep_view() }
    }
}

/// The contents of an export file.
#[derive(Debug, PartialEq, Eq)]
pub struct Parsed {
    pub header: Option<Header>,
    pub tasks: Vec<TaskRecord>,
    pub decisions: Vec<StoredDecision>,
    pub invariants: Vec<InvariantRecord>,
}

/// The value of a `Parsed`.
pub ghost struct ParsedView {
    pub header: Option<HeaderView>,
    pub tasks: Seq<TaskRecordView>,
    pub decisions: Seq<StoredDecisionView>,
    pub invariants: Seq<InvariantRecordView>,
}

impl DeepView for Parsed {
    type V = ParsedView;

    open spec fn deep_view(&self) -> ParsedView {
        ParsedView {
            header: self.header.deep_view(),
            tasks: self.tasks.deep_view(),
            decisions: self.decisions.deep_view(),
            invariants: self.invariants.deep_view(),
        }
    }
}

impl View for Parsed {
    type V = ParsedView;

    open spec fn view(&self) -> ParsedView {
        self.deep_view()
    }
}

impl Clone for Parsed {
    fn clone(&self) -> (r: Self)
        ensures
            r@ == self@,
    {
        let r = Parsed {
            header: self.header.clone(),
            tasks: self.tasks.clone(),
            decisions: self.decisions.clone(),
            invariants: self.invariants.clone(),
        };
        assert(r.tasks.deep_view() =~= self.tasks.deep_view());
        assert(r.decisions.deep_view() =~= self.decisions.deep_view());
        assert(r.invariants.deep_view() =~= self.invariants.deep_view());
        r
    }
}

/// What is wrong with a decision in a file: it is staged, or has no binding.
pub open spec fn unsealed_fault(d: StoredDecisionView, line_no: usize) -> Option<AppErrorView> {
    let place = "line "@ + decimal_of(line_no as nat) + ": decision "@ + d.id;
    if d.staged {
        Some(
            failure(
                "invalid_export"@,
                place + " is staged; only sealed decisions can be shared"@,
            ),
        )
    } else if d.binding is None {
        Some(
            failure(
                "invalid_export"@,
                place + " has no binding; a main-log decision always carries one"@,
            ),
        )
    } else {
        None
    }
}

/// What is wrong with a line: it is no record, a header of another format, or a decision
/// that is not sealed.
pub open spec fn fault(line: LineView) -> Option<AppErrorView> {
    match line.reading {
        ReadingView::Unreadable(why) => Some(
            failure(
                "invalid_export"@,
                "line "@ + decimal_of(line.line_no as nat) + " is not a dlog export record: "@ + why,
            ),
        ),
        ReadingView::Record(RecordView::Header(h)) => if h.format != FORMAT_VERSION {
            Some(
                failure(
                    "unsupported_format"@,
                    "export format "@ + decimal_of(h.format as nat)
                        + " is not supported by this dlog (expected "@ + decimal_of(
                        FORMAT_VERSION as nat,
                    ) + "); upgrade dlog to read it"@,
                ),
            )
        } else {
            None
        },
        ReadingView::Record(RecordView::Decision(d)) => unsealed_fault(d, line.line_no),
        _ => None,
    }
}

/// The first fault from line `i` on.
pub open spec fn first_fault(lines: Seq<LineView>, i: int) -> Option<AppErrorView>
    decreases lines.len() - i,
{
    if i >= lines.len() {
        None
    } else if fault(lines[i]) is Some {
        fault(lines[i])
    } else {
        first_fault(lines, i + 1)
    }
}

/// The last header.
pub open spec fn header_in(lines: Seq<LineView>) -> Option<HeaderView>
    decreases lines.len(),
{
    if lines.len() == 0 {
        None
    } else {
        match lines.last().reading {
            ReadingView::Record(RecordView::Header(h)) => Some(h),
            _ => header_in(lines.drop_last()),
        }
    }
}

/// The tasks, in the order of the file.
pub open spec fn tasks_in(lines: Seq<LineView>) -> Seq<TaskRecordView>
    decreases lines.len(),
{
    if lines.len() == 0 {
        Seq::empty()
    } else {
        match lines.last().reading {
            ReadingView::Record(RecordView::Task(t)) => tasks_in(lines.drop_last()).push(t),
            _ => tasks_in(lines.drop_last()),
        }
    }
}

/// The decisions, in the order of the file.
pub open spec fn decisions_in(lines: Seq<LineView>) -> Seq<StoredDecisionView>
    decreases lines.len(),
{
    if lines.len() == 0 {
        Seq::empty()
    } else {
        match lines.last().reading {
            ReadingView::Record(RecordView::Decision(d)) => decisions_in(lines.drop_last()).push(d),
            _ => decisions_in(lines.drop_last()),
        }
    }
}

/// The invariants, in the order of the file.
pub open spec fn invariants_in(lines: Seq<LineView>) -> Seq<InvariantRecordView>
    decreases lines.len(),
{
    if lines.len() == 0 {
        Seq::empty()
    } else {
        match lines.last().reading {
            ReadingView::Record(RecordView::Invariant(v)) => invariants_in(lines.drop_last()).push(v),
            _ => invariants_in(lines.drop_last()),
        }
    }
}

/// The contents of a file: of records with the same id the first, ascending.
pub open spec fn contents(lines: Seq<LineView>) -> ParsedView {
    ParsedView {
        header: header_in(lines),
        tasks: merge(Seq::empty(), tasks_in(lines)),
        decisions: merge(Seq::empty(), decisions_in(lines)),
        invariants: merge(Seq::empty(), invariants_in(lines)),
    }
}

/// A file without a header is no export.
pub open spec fn headless() -> AppErrorView {
    failure(
        "invalid_export"@,
        "export file has no header record; expected a line with {\"type\":\"header\",...} first"@,
    )
}

/// Refuses a decision that is not sealed.
pub fn check_sealed(decision: &StoredDecision, line_no: usize) -> (r: Result<(), AppError>)
    ensures
        match r {
            Ok(()) => unsealed_fault(decision@, line_no) is None,
            Err(e) => unsealed_fault(decision@, line_no) == Some(e@),
        },
{
    let number = text::decimal(line_no as u64);
    let mut place = text::cat3("line ", number.as_str(), ": decision ");
    text::push_str(&mut place, decision.id.as_str());
    if decision.staged {
        text::push_str(&mut place, " is staged; only sealed decisions can be shared");
        return Err(AppError::new("invalid_export", place.as_str()));
    }
    if decision.binding.is_none() {
        text::push_str(&mut place, " has no binding; a main-log decision always carries one");
        return Err(AppError::new("invalid_export", place.as_str()));
    }
    Ok(())
}

/// Refuses a line that is no record, a header of another format, or a decision that is
/// not sealed.
fn check_line(line: &Line) -> (r: Result<(), AppError>)
    ensures
        match r {
            Ok(()) => fault(line.deep_view()) is None,
            Err(e) => fault(line.deep_view()) == Some(e@),
        },
{
    match &line.reading {
        Reading::Unreadable(why) => {
            let number = text::decimal(line.line_no as u64);
            let mut message = text::cat3("line ", number.as_str(), " is not a dlog export record: ");
            text::push_str(&mut message, why.as_str());
            Err(AppError::new("invalid_export", message.as_str()))
        },
        Reading::Record(Record::Header(h)) => if h.format != FORMAT_VERSION {
            let mut message = text::cat3(
                "export format ",
                text::decimal(h.format as u64).as_str(),
                " is not supported by this dlog (expected ",
            );
            text::push_str(&mut message, text::decimal(FORMAT_VERSION as u64).as_str());
            text::push_str(&mut message, "); upgrade dlog to read it");
            Err(AppError::new("unsupported_format", message.as_str()))
        } else {
            Ok(())
        },
        Reading::Record(Record::Decision(d)) => check_sealed(&**d, line.line_no),
        Reading::Record(Record::Task(_)) => Ok(()),
        Reading::Record(Record::Invariant(_)) => Ok(()),
    }
}

/// Sorts the records of a file into its contents, checking each line as it goes.
pub fn parse(lines: &Vec<Line>) -> (r: Result<Parsed, AppError>)
    ensures
        match first_fault(lines.deep_view(), 0) {
            Some(e) => r matches Err(f) && f@ == e,
            None => if header_in(lines.deep_view()) is None {
                r matches Err(f) && f@ == headless()
            } else {
                r matches Ok(p) && p@ == contents(lines.deep_view())
            },
        },
        r matches Ok(p) ==> p.tasks@.len() + p.decisions@.len() + p.invariants@.len() <= lines@.len(),
{
    let ghost all = lines.deep_view();
    let mut header: Option<Header> = None;
    let mut tasks: Vec<TaskRecord> = Vec::new();
    let mut decisions: Vec<StoredDecision> = Vec::new();
    let mut invariants: Vec<InvariantRecord> = Vec::new();
    assert(all.take(0) =~= Seq::empty());
    assert(tasks.deep_view() =~= Seq::empty());
    assert(decisions.deep_view() =~= Seq::empty());
    assert(invariants.deep_view() =~= Seq::empty());
    for i in 0..lines.len()
        invariant
            all == lines.deep_view(),
            first_fault(all, 0) == first_fault(all, i as int),
            header.deep_view() == header_in(all.take(i as int)),
            tasks.deep_view() == tasks_in(all.take(i as int)),
            decisions.deep_view() == decisions_in(all.take(i as int)),
            invariants.deep_view() == invariants_in(all.take(i as int)),
            tasks@.len() + decisions@.len() + invariants@.len() <= i,
    {
        assert(all[i as int] == lines[i as int].deep_view());
        if let Err(e) = check_line(&lines[i]) {
            return Err(e);
        }
        assert(all.take(i + 1).drop_last() =~= all.take(i as int));
        assert(all.take(i + 1).last() == all[i as int]);
        let ghost t = tasks.deep_view();
        let ghost d = decisions.deep_view();
        let ghost v = invariants.deep_view();
        match &lines[i].reading {
            Reading::Record(Record::Header(h)) => {
                header = Some(h.clone());
            },
            Reading::Record(Record::Task(row)) => {
                tasks.push(row.clone());
                assert(tasks.deep_view() =~= t.push(row@));
            },
            Reading::Record(Record::Decision(row)) => {
                let copy = (**row).clone();
                decisions.push(copy);
                assert(decisions.deep_view() =~= d.push((**row)@));
            },
            Reading::Record(Record::Invariant(row)) => {
                invariants.push(row.clone());
                assert(invariants.deep_view() =~= v.push(row@));
            },
            Reading::Unreadable(_) => {},
        }
    }
    assert(all.take(all.len() as int) =~= all);
    if header.is_none() {
        return Err(
            AppError::new(
                "invalid_export",
                "export file has no header record; expected a line with {\"type\":\"header\",...} first",
            ),
        );
    }
    Ok(dedupe(header, &tasks, &decisions, &invariants))
}

/// Of records with the same id keeps the first, and sorts each list ascending.
fn dedupe(
    header: Option<Header>,
    tasks: &Vec<TaskRecord>,
    decisions: &Vec<StoredDecision>,
    invariants: &Vec<InvariantRecord>,
) -> (r: Parsed)
    ensures
        r.header.deep_view() == header.deep_view(),
        r.tasks.deep_view() == merge(Seq::empty(), tasks.deep_view()),
        r.decisions.deep_view() == merge(Seq::empty(), decisions.deep_view()),
        r.invariants.deep_view() == merge(Seq::empty(), invariants.deep_view()),
        r.tasks@.len() <= tasks@.len(),
        r.decisions@.len() <= decisions@.len(),
        r.invariants@.len() <= invariants@.len(),
{
    let no_tasks: Vec<TaskRecord> = Vec::new();
    let no_decisions: Vec<StoredDecision> = Vec::new();
    let no_invariants: Vec<InvariantRecord> = Vec::new();
    assert(no_tasks.deep_view() =~= Seq::empty());
    assert(no_decisions.deep_view() =~= Seq::empty());
    assert(no_invariants.deep_view() =~= Seq::empty());
    proof {
        merge_holds(Seq::empty(), tasks.deep_view());
        merge_holds(Seq::empty(), decisions.deep_view());
        merge_holds(Seq::empty(), invariants.deep_view());
        merge_inserts_fresh(Seq::empty(), tasks.deep_view());
        merge_inserts_fresh(Seq::empty(), decisions.deep_view());
        merge_inserts_fresh(Seq::empty(), invariants.deep_view());
    }
    let (one_tasks, _) = merge_rows(&no_tasks, tasks.as_slice());
    let (one_decisions, _) = merge_rows(&no_decisions, decisions.as_slice());
    let (one_invariants, _) = merge_rows(&no_invariants, invariants.as_slice());
    assert(one_tasks.deep_view().len() == one_tasks@.len());
    assert(one_decisions.deep_view().len() == one_decisions@.len());
    assert(one_invariants.deep_view().len() == one_invariants@.len());
    Parsed { header, tasks: one_tasks, decisions: one_decisions, invariants: one_invariants }
}

// ---- References -------------------------------------------------------------

/// A task is in the file or in the store.
pub open spec fn task_known(log: Log, file: ParsedView, id: Seq<char>) -> bool {
    holds(file.tasks, id) || holds(log.tasks, id)
}

/// A decision is in the file or in the store.
pub open spec fn decision_is_known(log: Log, file: ParsedView, id: Seq<char>) -> bool {
    holds(file.decisions, id) || holds(log.decisions, id)
}

/// The references of the first `n` tasks that name nothing.
pub open spec fn missing_of_tasks(log: Log, file: ParsedView, n: int) -> Seq<Seq<char>>
    decreases n,
{
    if n <= 0 {
        Seq::empty()
    } else {
        let rest = missing_of_tasks(log, file, n - 1);
        let t = file.tasks[n - 1];
        match t.parent_task_id {
            Some(parent) => if task_known(log, file, parent) {
                rest
            } else {
                rest.push("task "@ + t.id + " -> parent_task_id "@ + parent)
            },
            None => rest,
        }
    }
}

/// The references of the first `n` decisions that name nothing.
pub open spec fn missing_of_decisions(log: Log, file: ParsedView, n: int) -> Seq<Seq<char>>
    decreases n,
{
    if n <= 0 {
        Seq::empty()
    } else {
        let rest = missing_of_decisions(log, file, n - 1);
        let d = file.decisions[n - 1];
        let with_task = match d.task_id {
            Some(task) => if task_known(log, file, task) {
                rest
            } else {
                rest.push("decision "@ + d.id + " -> task_id "@ + task)
            },
            None => rest,
        };
        match d.supersedes {
            Some(previous) => if decision_is_known(log, file, previous) {
                with_task
            } else {
                with_task.push("decision "@ + d.id + " -> supersedes "@ + previous)
            },
            None => with_task,
        }
    }
}

/// The references of the first `n` invariants that name nothing.
pub open spec fn missing_of_invariants(log: Log, file: ParsedView, n: int) -> Seq<Seq<char>>
    decreases n,
{
    if n <= 0 {
        Seq::empty()
    } else {
        let rest = missing_of_invariants(log, file, n - 1);
        let v = file.invariants[n - 1];
        if decision_is_known(log, file, v.declared_by) {
            rest
        } else {
            rest.push("invariant "@ + v.id + " -> declared_by "@ + v.declared_by)
        }
    }
}

/// Every reference of a file that names nothing.
pub open spec fn missing_references(log: Log, file: ParsedView) -> Seq<Seq<char>> {
    missing_of_tasks(log, file, file.tasks.len() as int) + missing_of_decisions(
        log,
        file,
        file.decisions.len() as int,
    ) + missing_of_invariants(log, file, file.invariants.len() as int)
}

/// The refusal of a file with dangling references.
pub open spec fn dangling_failure(missing: Seq<Seq<char>>) -> AppErrorView {
    failure(
        "dangling_reference"@,
        "export references "@ + decimal_of(missing.len())
            + " record(s) that are in neither the file nor this store, so nothing was imported: "@
            + joined(missing, "; "@),
    )
}

/// `id` is a cause that some decision of the file names, and that is nowhere.
pub open spec fn dangling_cause(log: Log, file: ParsedView, id: Seq<char>) -> bool {
    !decision_is_known(log, file, id) && exists|i: int|
        0 <= i < file.decisions.len() && (#[trigger] file.decisions[i]).caused_by.contains(id)
}

/// Whether a decision is in the file or in the store.
fn decision_known(store: &Store, file: &Parsed, id: &str) -> (r: bool)
    ensures
        r == decision_is_known(store@, file@, id@),
{
    known(&file.decisions, id) || store.decision_exists(id)
}

/// The line that reports a reference.
fn dangling_line(kind: &str, id: &str, arrow: &str, target: &str) -> (r: String)
    ensures
        r@ == kind@ + id@ + arrow@ + target@,
{
    let mut out = text::cat3(kind, id, arrow);
    text::push_str(&mut out, target);
    out
}

/// Lists the references of a file that name nothing.
fn find_missing(store: &Store, file: &Parsed) -> (r: Vec<String>)
    ensures
        r.deep_view() == missing_references(store@, file@),
{
    let ghost log = store@;
    let ghost f = file@;
    let mut out: Vec<String> = Vec::new();
    assert(out.deep_view() =~= Seq::empty());
    for i in 0..file.tasks.len()
        invariant
            log == store@,
            f == file@,
            out.deep_view() == missing_of_tasks(log, f, i as int),
    {
        let t = &file.tasks[i];
        assert(f.tasks[i as int] == t@);
        if let Some(parent) = &t.parent_task_id {
            if !known(&file.tasks, parent.as_str()) && !store.task_exists(parent.as_str()) {
                let ghost before = out.deep_view();
                let line = dangling_line(
                    "task ",
                    t.id.as_str(),
                    " -> parent_task_id ",
                    parent.as_str(),
                );
                out.push(line);
                assert(out.deep_view() =~= before.push(line@));
            }
        }
    }
    let ghost a = out.deep_view();
    assert(a =~= a + missing_of_decisions(log, f, 0));
    for i in 0..file.decisions.len()
        invariant
            log == store@,
            f == file@,
            out.deep_view() == a + missing_of_decisions(log, f, i as int),
    {
        let d = &file.decisions[i];
        assert(f.decisions[i as int] == d@);
        let ghost before = out.deep_view();
        if let Some(task) = &d.task_id {
            if !known(&file.tasks, task.as_str()) && !store.task_exists(task.as_str()) {
                let line = dangling_line("decision ", d.id.as_str(), " -> task_id ", task.as_str());
                out.push(line);
                assert(out.deep_view() =~= before.push(line@));
            }
        }
        let ghost middle = out.deep_view();
        if let Some(previous) = &d.supersedes {
            if !decision_known(store, file, previous.as_str()) {
                let line = dangling_line(
                    "decision ",
                    d.id.as_str(),
                    " -> supersedes ",
                    previous.as_str(),
                );
                out.push(line);
                assert(out.deep_view() =~= middle.push(line@));
            }
        }
        assert(out.deep_view() =~= a + missing_of_decisions(log, f, i + 1));
    }
    let ghost b = out.deep_view();
    assert(b =~= b + missing_of_invariants(log, f, 0));
    for i in 0..file.invariants.len()
        invariant
            log == store@,
            f == file@,
            out.deep_view() == b + missing_of_invariants(log, f, i as int),
    {
        let v = &file.invariants[i];
        assert(f.invariants[i as int] == v@);
        let ghost before = out.deep_view();
        if !decision_known(store, file, v.declared_by.as_str()) {
            let line = dangling_line(
                "invariant ",
                v.id.as_str(),
                " -> declared_by ",
                v.declared_by.as_str(),
            );
            out.push(line);
            assert(out.deep_view() =~= before.push(line@));
        }
        assert(out.deep_view() =~= b + missing_of_invariants(log, f, i + 1));
    }
    out
}

/// Checks every reference of a file against the file and the store, and returns the
/// causes that are in neither, each once, ascending.
pub fn validate(store: &Store, file: &Parsed) -> (r: Result<Vec<String>, AppError>)
    ensures
        match r {
            Err(e) => missing_references(store@, file@).len() > 0 && e@ == dangling_failure(
                missing_references(store@, file@),
            ),
            Ok(causes) => missing_references(store@, file@).len() == 0 && ascending(causes.deep_view())
                && forall|id: Seq<char>| #[trigger]
                causes.deep_view().contains(id) <==> dangling_cause(store@, file@, id),
        },
{
    let ghost log = store@;
    let ghost f = file@;
    let missing = find_missing(store, file);
    assert(missing.deep_view().len() == missing@.len());
    if missing.len() > 0 {
        let mut message = text::cat3(
            "export references ",
            text::decimal(missing.len() as u64).as_str(),
            " record(s) that are in neither the file nor this store, so nothing was imported: ",
        );
        text::push_str(&mut message, text::join(&missing, "; ").as_str());
        return Err(AppError::new("dangling_reference", message.as_str()));
    }
    let mut causes: Vec<String> = Vec::new();
    for i in 0..file.decisions.len()
        invariant
            log == store@,
            f == file@,
            ascending(causes.deep_view()),
            forall|id: Seq<char>| #[trigger]
                causes.deep_view().contains(id) <==> !decision_is_known(log, f, id) && exists|k: int|
                    0 <= k < i && (#[trigger] f.decisions[k]).caused_by.contains(id),
    {
        let d = &file.decisions[i];
        let ghost before = causes.deep_view();
        let ghost named = f.decisions[i as int].caused_by;
        assert(f.decisions[i as int] == d@);
        for j in 0..d.caused_by.len()
            invariant
                log == store@,
                f == file@,
                named == d.caused_by.deep_view(),
                ascending(causes.deep_view()),
                forall|id: Seq<char>| #[trigger]
                    causes.deep_view().contains(id) <==> before.contains(id) || (!decision_is_known(
                        log,
                        f,
                        id,
                    ) && exists|k: int| 0 <= k < j && #[trigger] named[k] == id),
        {
            assert(named[j as int] == d.caused_by[j as int]@);
            if !decision_known(store, file, d.caused_by[j].as_str()) {
                add_text(&mut causes, d.caused_by[j].as_str());
            }
        }
        assert forall|id: Seq<char>| #[trigger] causes.deep_view().contains(id) <==> !decision_is_known(
            log,
            f,
            id,
        ) && exists|k: int| 0 <= k < i + 1 && (#[trigger] f.decisions[k]).caused_by.contains(id) by {
            if f.decisions[i as int].caused_by.contains(id) {
                let k = named.index_of(id);
                assert(named[k] == id);
            }
            if !before.contains(id) && causes.deep_view().contains(id) {
                let k = choose|k: int| 0 <= k < named.len() && #[trigger] named[k] == id;
                assert(named.contains(id));
                assert(f.decisions[i as int].caused_by.contains(id));
            }
        }
    }
    Ok(causes)
}

proof fn no_fault_from(lines: Seq<LineView>, i: int)
    requires
        first_fault(lines, i) is None,
    ensures
        forall|j: int| i <= j < lines.len() ==> fault(#[trigger] lines[j]) is None,
    decreases lines.len() - i,
{
    if i < lines.len() {
        no_fault_from(lines, i + 1);
    }
}

proof fn faultless_lines_are_bound(lines: Seq<LineView>)
    requires
        forall|j: int| 0 <= j < lines.len() ==> fault(#[trigger] lines[j]) is None,
    ensures
        forall|k: int|
            0 <= k < decisions_in(lines).len() ==> (#[trigger] decisions_in(lines)[k]).binding is Some
                && !decisions_in(lines)[k].staged,
    decreases lines.len(),
{
    if lines.len() > 0 {
        let front = lines.drop_last();
        assert forall|j: int| 0 <= j < front.len() implies fault(#[trigger] front[j]) is None by {
            assert(fault(lines[j]) is None);
        }
        faultless_lines_are_bound(front);
        assert(fault(lines[lines.len() - 1]) is None);
    }
}

/// Every decision of a file without faults is sealed, and names its binding.
pub proof fn faultless_file_is_sealed(lines: Seq<LineView>, d: StoredDecisionView)
    requires
        first_fault(lines, 0) is None,
        contents(lines).decisions.contains(d),
    ensures
        !d.staged,
        d.binding is Some,
{
    no_fault_from(lines, 0);
    faultless_lines_are_bound(lines);
    merge_holds(Seq::empty(), decisions_in(lines));
    let k = decisions_in(lines).index_of(d);
    assert(decisions_in(lines)[k] == d);
}

/// A file without dangling references leaves none.
pub proof fn nothing_missing_imports(log: Log, file: ParsedView)
    requires
        log.wf(),
        ascending(file.tasks) && ascending(file.decisions) && ascending(file.invariants),
        missing_references(log, file).len() == 0,
    ensures
        log.imported(file.tasks, file.decisions, file.invariants).closed_under_references(),
{
    let landing = file.decisions.map_values(|d: StoredDecisionView| landed(d));
    merge_holds(log.tasks, file.tasks);
    merge_holds(log.decisions, landing);
    merge_holds(log.invariants, file.invariants);
    missing_tasks_all(log, file, file.tasks.len() as int);
    missing_decisions_all(log, file, file.decisions.len() as int);
    missing_invariants_all(log, file, file.invariants.len() as int);
    assert forall|id: Seq<char>| #[trigger] holds(landing, id) <==> holds(file.decisions, id) by {
        if holds(landing, id) {
            let k = choose|k: int| 0 <= k < landing.len() && #[trigger] landing[k].key() == id;
            assert(file.decisions[k].key() == id);
        }
        if holds(file.decisions, id) {
            let k = choose|k: int|
                0 <= k < file.decisions.len() && #[trigger] file.decisions[k].key() == id;
            assert(landing[k].key() == id);
        }
    }
    let next = log.imported(file.tasks, file.decisions, file.invariants);
    assert forall|i: int| 0 <= i < next.tasks.len() implies resolves(
        next.tasks,
        #[trigger] next.tasks[i].parent_task_id,
    ) by {
        let t = next.tasks[i];
        assert(next.tasks.contains(t));
        if log.tasks.contains(t) {
            assert(resolves(log.tasks, log.tasks[log.tasks.index_of(t)].parent_task_id));
        } else {
            let k = file.tasks.index_of(t);
            assert(file.tasks[k].parent_task_id matches Some(id) ==> task_known(log, file, id));
        }
    }
    assert forall|i: int| 0 <= i < next.decisions.len() implies resolves(
        next.tasks,
        (#[trigger] next.decisions[i]).task_id,
    ) && resolves(next.decisions, next.decisions[i].supersedes) by {
        let d = next.decisions[i];
        assert(next.decisions.contains(d));
        if log.decisions.contains(d) {
            let k = log.decisions.index_of(d);
            assert(resolves(log.tasks, log.decisions[k].task_id));
            assert(resolves(log.decisions, log.decisions[k].supersedes));
        } else {
            let k = landing.index_of(d);
            assert(landing[k] == landed(file.decisions[k]));
            assert(file.decisions[k].task_id matches Some(id) ==> task_known(log, file, id));
        }
    }
    assert forall|i: int| 0 <= i < next.invariants.len() implies holds(
        next.decisions,
        #[trigger] next.invariants[i].declared_by,
    ) by {
        let v = next.invariants[i];
        assert(next.invariants.contains(v));
        if log.invariants.contains(v) {
            assert(holds(log.decisions, log.invariants[log.invariants.index_of(v)].declared_by));
        } else {
            let k = file.invariants.index_of(v);
            assert(decision_is_known(log, file, file.invariants[k].declared_by));
        }
    }
}

proof fn missing_tasks_all(log: Log, file: ParsedView, n: int)
    requires
        0 <= n <= file.tasks.len(),
        missing_of_tasks(log, file, n).len() == 0,
    ensures
        forall|k: int|
            0 <= k < n ==> ((#[trigger] file.tasks[k]).parent_task_id matches Some(id) ==> task_known(
                log,
                file,
                id,
            )),
    decreases n,
{
    if n > 0 {
        missing_tasks_all(log, file, n - 1);
    }
}

proof fn missing_decisions_all(log: Log, file: ParsedView, n: int)
    requires
        0 <= n <= file.decisions.len(),
        missing_of_decisions(log, file, n).len() == 0,
    ensures
        forall|k: int|
            0 <= k < n ==> ((#[trigger] file.decisions[k]).task_id matches Some(id) ==> task_known(
                log,
                file,
                id,
            )) && (file.decisions[k].supersedes matches Some(id) ==> decision_is_known(log, file, id)),
    decreases n,
{
    if n > 0 {
        missing_decisions_all(log, file, n - 1);
    }
}

proof fn missing_invariants_all(log: Log, file: ParsedView, n: int)
    requires
        0 <= n <= file.invariants.len(),
        missing_of_invariants(log, file, n).len() == 0,
    ensures
        forall|k: int|
            0 <= k < n ==> decision_is_known(log, file, (#[trigger] file.invariants[k]).declared_by),
    decreases n,
{
    if n > 0 {
        missing_invariants_all(log, file, n - 1);
    }
}

// ---- The command ------------------------------------------------------------

/// The reply.
#[derive(Debug, PartialEq, Eq)]
pub struct ImportResult {
    pub imported: ImportCounts,
    /// Records whose id the store already had.
    pub skipped_existing: usize,
    /// Causes that neither the file nor the store has: the received graph is a fragment,
    /// which is a fact worth reporting.
    pub dangling_caused_by: Vec<String>,
}

/// Why a file is refused, if it is: a faulty line, no header, or dangling references.
pub open spec fn refusal(log: Log, lines: Seq<LineView>) -> Option<AppErrorView> {
    match first_fault(lines, 0) {
        Some(e) => Some(e),
        None => if header_in(lines) is None {
            Some(headless())
        } else if missing_references(log, contents(lines)).len() > 0 {
            Some(dangling_failure(missing_references(log, contents(lines))))
        } else {
            None
        },
    }
}

/// Replays the lines of an export file into the store, all or nothing.
pub fn run(store: &mut Store, lines: &Vec<Line>) -> (r: Result<ImportResult, AppError>)
    requires
        old(store).wf(),
    ensures
        final(store).wf(),
        match refusal(old(store)@, lines.deep_view()) {
            Some(e) => (r matches Err(f) && f@ == e) && final(store).untouched(old(store)),
            None => r matches Ok(reply) && ({
                let file = contents(lines.deep_view());
                let counts = old(store)@.import_counts(file.tasks, file.decisions, file.invariants);
                &&& final(store)@ == old(store)@.imported(file.tasks, file.decisions, file.invariants)
                &&& final(store).saved() == old(store).saved()
                &&& final(store).pending() == old(store).pending() + old(store)@.import_changes(
                    file.tasks,
                    file.decisions,
                    file.invariants,
                )
                &&& (
                    reply.imported.tasks as nat,
                    reply.imported.decisions as nat,
                    reply.imported.invariants as nat,
                ) == counts
                &&& reply.skipped_existing == file.tasks.len() + file.decisions.len()
                    + file.invariants.len() - counts.0 - counts.1 - counts.2
                &&& ascending(reply.dangling_caused_by.deep_view())
                &&& forall|id: Seq<char>| #[trigger]
                    reply.dangling_caused_by.deep_view().contains(id) <==> dangling_cause(
                        old(store)@,
                        file,
                        id,
                    )
            }),
        },
{
    let file = match parse(lines) {
        Ok(file) => file,
        Err(e) => {
            return Err(e);
        },
    };
    let dangling = match validate(store, &file) {
        Ok(causes) => causes,
        Err(e) => {
            return Err(e);
        },
    };
    proof {
        merge_holds(Seq::empty(), tasks_in(lines.deep_view()));
        merge_holds(Seq::empty(), decisions_in(lines.deep_view()));
        merge_holds(Seq::empty(), invariants_in(lines.deep_view()));
        nothing_missing_imports(store@, file@);
        assert forall|k: int| 0 <= k < file@.decisions.len() implies (
        #[trigger] file@.decisions[k]).binding is Some by {
            assert(file@.decisions.contains(file@.decisions[k]));
            faultless_file_is_sealed(lines.deep_view(), file@.decisions[k]);
        }
    }
    let total: usize = lines.len();
    assert(file.tasks.deep_view().len() == file.tasks@.len());
    assert(file.decisions.deep_view().len() == file.decisions@.len());
    assert(file.invariants.deep_view().len() == file.invariants@.len());
    match store.import_all(
        file.tasks.as_slice(),
        file.decisions.as_slice(),
        file.invariants.as_slice(),
    ) {
        Ok((imported, skipped_existing)) => Ok(
            ImportResult { imported, skipped_existing, dangling_caused_by: dangling },
        ),
        Err(e) => Err(AppError::from_store(e)),
    }
}

// ---- Laws -------------------------------------------------------------------

/// The lines that count are those that are not blank, each without white space around it
/// and with its number, in their order.
pub proof fn lines_are_numbered(lines: Seq<Seq<char>>, n: int, k: int)
    requires
        0 <= n <= lines.len(),
        n <= usize::MAX,
    ensures
        0 <= k < framed(lines, n).len() ==> 1 <= framed(lines, n)[k].0 <= n && framed(lines, n)[k].1 == trimmed(
            lines[framed(lines, n)[k].0 - 1],
        ) && framed(lines, n)[k].1.len() > 0,
        1 <= k <= n && trimmed(lines[k - 1]).len() > 0 ==> framed(lines, n).contains(
            (k as usize, trimmed(lines[k - 1])),
        ),
        forall|i: int, j: int|
            #![trigger framed(lines, n)[i], framed(lines, n)[j]]
            0 <= i < j < framed(lines, n).len() ==> framed(lines, n)[i].0 < framed(lines, n)[j].0 <= n,
    decreases n,
{
    let all = framed(lines, n);
    if n > 0 {
        lines_are_numbered(lines, n - 1, k);
        let some = framed(lines, n - 1);
        let line = trimmed(lines[n - 1]);
        if line.len() > 0 {
            assert(all == some.push((n as usize, line)));
            assert(0 <= k < some.len() ==> all[k] == some[k]);
            if 1 <= k <= n && trimmed(lines[k - 1]).len() > 0 {
                if k < n {
                    let m = some.index_of((k as usize, trimmed(lines[k - 1])));
                    assert(all[m] == some[m]);
                } else {
                    assert(all[some.len() as int] == (k as usize, trimmed(lines[k - 1])));
                }
            }
            assert forall|i: int, j: int|
                #![trigger all[i], all[j]]
                0 <= i < j < all.len() implies all[i].0 < all[j].0 <= n by {
                assert(all[i] == some[i]);
                if j < some.len() {
                    assert(all[j] == some[j]);
                } else {
                    lines_are_numbered(lines, n - 1, i);
                }
            }
        }
    }
}

/// A line is in order where it is a header of format 1, a task, an invariant, or a decision
/// that is sealed and names its binding; any other is refused.
pub proof fn sound_lines(line: LineView)
    ensures
        fault(line) is None <==> match line.reading {
            ReadingView::Unreadable(_) => false,
            ReadingView::Record(RecordView::Header(h)) => h.format == 1,
            ReadingView::Record(RecordView::Task(_)) => true,
            ReadingView::Record(RecordView::Decision(d)) => !d.staged && d.binding is Some,
            ReadingView::Record(RecordView::Invariant(_)) => true,
        },
{
}

/// The fault that is reported is that of the first line that has one.
pub proof fn first_fault_is_first(lines: Seq<LineView>, from: int, i: int)
    requires
        0 <= from <= i < lines.len(),
        fault(lines[i]) is Some,
        forall|j: int| from <= j < i ==> fault(#[trigger] lines[j]) is None,
    ensures
        first_fault(lines, from) == fault(lines[i]),
    decreases i - from,
{
    if from < i {
        first_fault_is_first(lines, from + 1, i);
    }
}

/// A file holds each record that stands on one of its lines, of those with the same id the
/// first, and nothing else.
pub proof fn contents_are_the_records(lines: Seq<LineView>, i: int)
    requires
        0 <= i < lines.len(),
    ensures
        lines[i].reading matches ReadingView::Record(RecordView::Task(t)) ==> holds(contents(lines).tasks, t.id),
        lines[i].reading matches ReadingView::Record(RecordView::Decision(d)) ==> holds(
            contents(lines).decisions,
            d.id,
        ),
        lines[i].reading matches ReadingView::Record(RecordView::Invariant(v)) ==> holds(
            contents(lines).invariants,
            v.id,
        ),
        forall|t: TaskRecordView| #[trigger]
            contents(lines).tasks.contains(t) ==> on_a_line(lines, RecordView::Task(t)),
        forall|d: StoredDecisionView| #[trigger]
            contents(lines).decisions.contains(d) ==> on_a_line(lines, RecordView::Decision(d)),
        forall|v: InvariantRecordView| #[trigger]
            contents(lines).invariants.contains(v) ==> on_a_line(lines, RecordView::Invariant(v)),
        lines[i].reading matches ReadingView::Record(RecordView::Header(h)) ==> contents(lines).header is Some,
{
    records_are_on_lines(lines);
    line_is_recorded(lines, i);
    merge_holds(Seq::empty(), tasks_in(lines));
    merge_holds(Seq::empty(), decisions_in(lines));
    merge_holds(Seq::empty(), invariants_in(lines));
    match lines[i].reading {
        ReadingView::Record(RecordView::Task(t)) => {
            let k = tasks_in(lines).index_of(t);
            assert(tasks_in(lines)[k].key() == t.id);
        },
        ReadingView::Record(RecordView::Decision(d)) => {
            let k = decisions_in(lines).index_of(d);
            assert(decisions_in(lines)[k].key() == d.id);
        },
        ReadingView::Record(RecordView::Invariant(v)) => {
            let k = invariants_in(lines).index_of(v);
            assert(invariants_in(lines)[k].key() == v.id);
        },
        _ => {},
    }
}

/// Some line is this record.
pub open spec fn on_a_line(lines: Seq<LineView>, record: RecordView) -> bool {
    exists|i: int| 0 <= i < lines.len() && (#[trigger] lines[i]).reading == ReadingView::Record(record)
}

proof fn later_line(lines: Seq<LineView>, record: RecordView)
    requires
        lines.len() > 0,
        on_a_line(lines.drop_last(), record),
    ensures
        on_a_line(lines, record),
{
    let front = lines.drop_last();
    let i = choose|i: int| 0 <= i < front.len() && (#[trigger] front[i]).reading == ReadingView::Record(record);
    assert(lines[i] == front[i]);
}

proof fn records_are_on_lines(lines: Seq<LineView>)
    ensures
        forall|t: TaskRecordView| #[trigger]
            tasks_in(lines).contains(t) ==> on_a_line(lines, RecordView::Task(t)),
        forall|d: StoredDecisionView| #[trigger]
            decisions_in(lines).contains(d) ==> on_a_line(lines, RecordView::Decision(d)),
        forall|v: InvariantRecordView| #[trigger]
            invariants_in(lines).contains(v) ==> on_a_line(lines, RecordView::Invariant(v)),
    decreases lines.len(),
{
    if lines.len() > 0 {
        let front = lines.drop_last();
        records_are_on_lines(front);
        assert(lines[lines.len() - 1] == lines.last());
        assert forall|t: TaskRecordView| #[trigger] tasks_in(lines).contains(t) implies on_a_line(
            lines,
            RecordView::Task(t),
        ) by {
            if tasks_in(front).contains(t) {
                later_line(lines, RecordView::Task(t));
            } else {
                let k = tasks_in(lines).index_of(t);
                assert(k < tasks_in(front).len() ==> tasks_in(front)[k] == t);
                assert(lines[lines.len() - 1].reading == ReadingView::Record(RecordView::Task(t)));
            }
        }
        assert forall|d: StoredDecisionView| #[trigger] decisions_in(lines).contains(d) implies on_a_line(
            lines,
            RecordView::Decision(d),
        ) by {
            if decisions_in(front).contains(d) {
                later_line(lines, RecordView::Decision(d));
            } else {
                let k = decisions_in(lines).index_of(d);
                assert(k < decisions_in(front).len() ==> decisions_in(front)[k] == d);
                assert(lines[lines.len() - 1].reading == ReadingView::Record(RecordView::Decision(d)));
            }
        }
        assert forall|v: InvariantRecordView| #[trigger] invariants_in(lines).contains(v) implies on_a_line(
            lines,
            RecordView::Invariant(v),
        ) by {
            if invariants_in(front).contains(v) {
                later_line(lines, RecordView::Invariant(v));
            } else {
                let k = invariants_in(lines).index_of(v);
                assert(k < invariants_in(front).len() ==> invariants_in(front)[k] == v);
                assert(lines[lines.len() - 1].reading == ReadingView::Record(RecordView::Invariant(v)));
            }
        }
    }
}

proof fn line_is_recorded(lines: Seq<LineView>, i: int)
    requires
        0 <= i < lines.len(),
    ensures
        lines[i].reading matches ReadingView::Record(RecordView::Task(t)) ==> tasks_in(lines).contains(t),
        lines[i].reading matches ReadingView::Record(RecordView::Decision(d)) ==> decisions_in(lines).contains(d),
        lines[i].reading matches ReadingView::Record(RecordView::Invariant(v)) ==> invariants_in(lines).contains(
            v,
        ),
        lines[i].reading matches ReadingView::Record(RecordView::Header(h)) ==> header_in(lines) is Some,
    decreases lines.len(),
{
    let front = lines.drop_last();
    if i < front.len() {
        line_is_recorded(front, i);
        match lines[i].reading {
            ReadingView::Record(RecordView::Task(t)) => {
                let k = tasks_in(front).index_of(t);
                assert(tasks_in(lines)[k] == t);
            },
            ReadingView::Record(RecordView::Decision(d)) => {
                let k = decisions_in(front).index_of(d);
                assert(decisions_in(lines)[k] == d);
            },
            ReadingView::Record(RecordView::Invariant(v)) => {
                let k = invariants_in(front).index_of(v);
                assert(invariants_in(lines)[k] == v);
            },
            _ => {},
        }
    } else {
        match lines[i].reading {
            ReadingView::Record(RecordView::Task(t)) => {
                assert(tasks_in(lines)[tasks_in(front).len() as int] == t);
            },
            ReadingView::Record(RecordView::Decision(d)) => {
                assert(decisions_in(lines)[decisions_in(front).len() as int] == d);
            },
            ReadingView::Record(RecordView::Invariant(v)) => {
                assert(invariants_in(lines)[invariants_in(front).len() as int] == v);
            },
            _ => {},
        }
    }
}

/// A task with this id is in the file or in the log.
pub open spec fn task_somewhere(log: Log, file: ParsedView, id: Seq<char>) -> bool {
    (exists|t: TaskRecordView| #[trigger] file.tasks.contains(t) && t.id == id) || exists|t: TaskRecordView| #[trigger]
        log.tasks.contains(t) && t.id == id
}

/// A decision with this id is in the file or in the log.
pub open spec fn decision_somewhere(log: Log, file: ParsedView, id: Seq<char>) -> bool {
    (exists|d: StoredDecisionView| #[trigger] file.decisions.contains(d) && d.id == id) || exists|d: StoredDecisionView| #[trigger]
        log.decisions.contains(d) && d.id == id
}

/// A file is refused for its references exactly where one of them names nothing: the task
/// above a task, the task of a decision, what a decision supersedes, or what declared an
/// invariant.
pub proof fn refused_where_dangling(log: Log, file: ParsedView)
    ensures
        missing_references(log, file).len() == 0 <==> {
            &&& forall|t: TaskRecordView| #[trigger]
                file.tasks.contains(t) ==> (t.parent_task_id matches Some(id) ==> task_somewhere(log, file, id))
            &&& forall|d: StoredDecisionView| #[trigger]
                file.decisions.contains(d) ==> (d.task_id matches Some(id) ==> task_somewhere(log, file, id)) && (
                d.supersedes matches Some(id) ==> decision_somewhere(log, file, id))
            &&& forall|v: InvariantRecordView| #[trigger]
                file.invariants.contains(v) ==> decision_somewhere(log, file, v.declared_by)
        },
{
    assert forall|id: Seq<char>| #[trigger] task_known(log, file, id) <==> task_somewhere(log, file, id) by {
        held_is_contained(file.tasks, id);
        held_is_contained(log.tasks, id);
        if task_somewhere(log, file, id) {
            if exists|t: TaskRecordView| #[trigger] file.tasks.contains(t) && t.id == id {
                let t = choose|t: TaskRecordView| #[trigger] file.tasks.contains(t) && t.id == id;
                assert(t.key() == id);
            } else {
                let t = choose|t: TaskRecordView| #[trigger] log.tasks.contains(t) && t.id == id;
                assert(t.key() == id);
            }
        }
        if holds(file.tasks, id) {
            let t = choose|t: TaskRecordView| #[trigger] file.tasks.contains(t) && t.key() == id;
            assert(t.id == id);
        } else if holds(log.tasks, id) {
            let t = choose|t: TaskRecordView| #[trigger] log.tasks.contains(t) && t.key() == id;
            assert(t.id == id);
        }
    }
    assert forall|id: Seq<char>| #[trigger] decision_is_known(log, file, id) <==> decision_somewhere(
        log,
        file,
        id,
    ) by {
        held_is_contained(file.decisions, id);
        held_is_contained(log.decisions, id);
        if decision_somewhere(log, file, id) {
            if exists|d: StoredDecisionView| #[trigger] file.decisions.contains(d) && d.id == id {
                let d = choose|d: StoredDecisionView| #[trigger] file.decisions.contains(d) && d.id == id;
                assert(d.key() == id);
            } else {
                let d = choose|d: StoredDecisionView| #[trigger] log.decisions.contains(d) && d.id == id;
                assert(d.key() == id);
            }
        }
        if holds(file.decisions, id) {
            let d = choose|d: StoredDecisionView| #[trigger] file.decisions.contains(d) && d.key() == id;
            assert(d.id == id);
        } else if holds(log.decisions, id) {
            let d = choose|d: StoredDecisionView| #[trigger] log.decisions.contains(d) && d.key() == id;
            assert(d.id == id);
        }
    }
    if missing_references(log, file).len() == 0 {
        missing_tasks_all(log, file, file.tasks.len() as int);
        missing_decisions_all(log, file, file.decisions.len() as int);
        missing_invariants_all(log, file, file.invariants.len() as int);
        assert forall|t: TaskRecordView| #[trigger] file.tasks.contains(t) implies (t.parent_task_id matches Some(
            id,
        ) ==> task_somewhere(log, file, id)) by {
            let k = file.tasks.index_of(t);
            assert(file.tasks[k] == t);
            if let Some(id) = t.parent_task_id {
                assert(task_known(log, file, id));
            }
        }
        assert forall|d: StoredDecisionView| #[trigger] file.decisions.contains(d) implies (d.task_id matches Some(
            id,
        ) ==> task_somewhere(log, file, id)) && (d.supersedes matches Some(id) ==> decision_somewhere(
            log,
            file,
            id,
        )) by {
            let k = file.decisions.index_of(d);
            assert(file.decisions[k] == d);
            if let Some(id) = d.task_id {
                assert(task_known(log, file, id));
            }
            if let Some(id) = d.supersedes {
                assert(decision_is_known(log, file, id));
            }
        }
        assert forall|v: InvariantRecordView| #[trigger] file.invariants.contains(v) implies decision_somewhere(
            log,
            file,
            v.declared_by,
        ) by {
            let k = file.invariants.index_of(v);
            assert(file.invariants[k] == v);
            assert(decision_is_known(log, file, v.declared_by));
        }
    } else {
        something_is_missing(log, file);
    }
}

proof fn held_is_contained<V: Keyed>(s: Seq<V>, id: Seq<char>)
    ensures
        holds(s, id) <==> exists|v: V| #[trigger] s.contains(v) && v.key() == id,
{
    if holds(s, id) {
        let k = choose|k: int| 0 <= k < s.len() && #[trigger] s[k].key() == id;
        assert(s.contains(s[k]));
    }
    if exists|v: V| #[trigger] s.contains(v) && v.key() == id {
        let v = choose|v: V| #[trigger] s.contains(v) && v.key() == id;
        assert(s[s.index_of(v)].key() == id);
    }
}

proof fn something_is_missing(log: Log, file: ParsedView)
    requires
        missing_references(log, file).len() > 0,
    ensures
        (exists|t: TaskRecordView| #[trigger]
            file.tasks.contains(t) && (t.parent_task_id matches Some(id) && !task_known(log, file, id))) || (
        exists|d: StoredDecisionView| #[trigger]
            file.decisions.contains(d) && ((d.task_id matches Some(id) && !task_known(log, file, id)) || (
            d.supersedes matches Some(id) && !decision_is_known(log, file, id)))) || exists|
            v: InvariantRecordView,
        | #[trigger]
            file.invariants.contains(v) && !decision_is_known(log, file, v.declared_by),
{
    if missing_of_tasks(log, file, file.tasks.len() as int).len() > 0 {
        let k = missing_task(log, file, file.tasks.len() as int);
        assert(file.tasks.contains(file.tasks[k]));
    } else if missing_of_decisions(log, file, file.decisions.len() as int).len() > 0 {
        let k = missing_decision(log, file, file.decisions.len() as int);
        assert(file.decisions.contains(file.decisions[k]));
    } else {
        let k = missing_invariant(log, file, file.invariants.len() as int);
        assert(file.invariants.contains(file.invariants[k]));
    }
}

proof fn missing_task(log: Log, file: ParsedView, n: int) -> (k: int)
    requires
        n <= file.tasks.len(),
        missing_of_tasks(log, file, n).len() > 0,
    ensures
        0 <= k < n,
        file.tasks[k].parent_task_id matches Some(id) && !task_known(log, file, id),
    decreases n,
{
    if missing_of_tasks(log, file, n - 1).len() > 0 {
        missing_task(log, file, n - 1)
    } else {
        n - 1
    }
}

proof fn missing_decision(log: Log, file: ParsedView, n: int) -> (k: int)
    requires
        n <= file.decisions.len(),
        missing_of_decisions(log, file, n).len() > 0,
    ensures
        0 <= k < n,
        (file.decisions[k].task_id matches Some(id) && !task_known(log, file, id)) || (
        file.decisions[k].supersedes matches Some(id) && !decision_is_known(log, file, id)),
    decreases n,
{
    if missing_of_decisions(log, file, n - 1).len() > 0 {
        missing_decision(log, file, n - 1)
    } else {
        n - 1
    }
}

proof fn missing_invariant(log: Log, file: ParsedView, n: int) -> (k: int)
    requires
        n <= file.invariants.len(),
        missing_of_invariants(log, file, n).len() > 0,
    ensures
        0 <= k < n,
        !decision_is_known(log, file, file.invariants[k].declared_by),
    decreases n,
{
    if missing_of_invariants(log, file, n - 1).len() > 0 {
        missing_invariant(log, file, n - 1)
    } else {
        n - 1
    }
}

/// A cause dangles where a decision of the file names it and neither the file nor the log
/// has it.
pub proof fn causes_dangle(log: Log, file: ParsedView, id: Seq<char>)
    ensures
        dangling_cause(log, file, id) <==> !decision_somewhere(log, file, id) && exists|d: StoredDecisionView| #[trigger]
            file.decisions.contains(d) && d.caused_by.contains(id),
{
    held_is_contained(file.decisions, id);
    held_is_contained(log.decisions, id);
    assert(decision_is_known(log, file, id) <==> decision_somewhere(log, file, id)) by {
        if holds(file.decisions, id) {
            let d = choose|d: StoredDecisionView| #[trigger] file.decisions.contains(d) && d.key() == id;
            assert(d.id == id);
        } else if holds(log.decisions, id) {
            let d = choose|d: StoredDecisionView| #[trigger] log.decisions.contains(d) && d.key() == id;
            assert(d.id == id);
        }
        if exists|d: StoredDecisionView| #[trigger] file.decisions.contains(d) && d.id == id {
            let d = choose|d: StoredDecisionView| #[trigger] file.decisions.contains(d) && d.id == id;
            assert(d.key() == id);
        }
        if exists|d: StoredDecisionView| #[trigger] log.decisions.contains(d) && d.id == id {
            let d = choose|d: StoredDecisionView| #[trigger] log.decisions.contains(d) && d.id == id;
            assert(d.key() == id);
        }
    }
    if exists|i: int| 0 <= i < file.decisions.len() && (#[trigger] file.decisions[i]).caused_by.contains(id) {
        let i = choose|i: int|
            0 <= i < file.decisions.len() && (#[trigger] file.decisions[i]).caused_by.contains(id);
        assert(file.decisions.contains(file.decisions[i]));
    }
    if exists|d: StoredDecisionView| #[trigger] file.decisions.contains(d) && d.caused_by.contains(id) {
        let d = choose|d: StoredDecisionView| #[trigger] file.decisions.contains(d) && d.caused_by.contains(id);
        assert(file.decisions[file.decisions.index_of(d)].caused_by.contains(id));
    }
}

} // verus!
