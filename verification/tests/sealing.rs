//! Sealing, tasks, export and import.
use dlog::cli::{BindArgs, CommitArgs, ExportArgs, TaskArgs, TaskCommand};
use dlog::commands::bind;
use dlog::commands::commit::{self, seal_to_commit, GitCommit};
use dlog::commands::export::{self, collect};
use dlog::commands::import::{parse, record_lines, validate, Line, Reading};
use dlog::commands::share::{
    days_from_civil, days_in_month, is_leap, parse_since, parse_utc_date_ms, Header, Record,
    FORMAT_VERSION,
};
use dlog::commands::task::{self, done, list, start, TaskReply};
use dlog::commands::import;
use dlog::ids::{id_parts, is_id, mint};
use dlog::log::{Change, InvariantRecord, TaskRecord};
use dlog::model::{Agent, Anchor, Binding, NewDecision, StoredDecision};
use dlog::store::{ImportCounts, SinceBound, Store};

fn decision(rationale: &str, file: &str) -> NewDecision {
    NewDecision {
        task_id: None,
        agent: Agent {
            role: "implementer".into(),
            model: "model-test".into(),
            session_id: None,
            author: None,
        },
        conversation_id: None,
        rationale: rationale.into(),
        rejected: vec![],
        caused_by: vec![],
        supersedes: None,
        anchors: vec![Anchor {
            file: file.into(),
            symbol_path: None,
            node_kind: None,
            structural_hash: None,
            line_span: None,
            recorded_at_sha: None,
        }],
    }
}

fn stage(store: &mut Store, task_id: Option<&str>, rationale: &str) -> String {
    let mut d = decision(rationale, "src/auth.rs");
    d.task_id = task_id.map(str::to_string);
    store.stage_decision(&d).unwrap()
}

fn bind_args() -> BindArgs {
    BindArgs { sha: None, none: false, decisions: vec![], db: None }
}

#[test]
fn bind_seals_all_staged_to_commit() {
    let mut store = Store::open_in_memory();
    let (a, b) = (stage(&mut store, None, "one"), stage(&mut store, None, "two"));

    let mut args = bind_args();
    args.sha = Some("a3f9".into());
    let reply = bind::run(&mut store, &args).unwrap();
    assert_eq!(reply.count, 2);
    assert_eq!(reply.binding, Binding::Commit { sha: "a3f9".into() });

    for id in [&a, &b] {
        let d = store.get_decision(id).unwrap();
        assert!(!d.staged);
        assert_eq!(d.binding, Some(Binding::Commit { sha: "a3f9".into() }));
    }
    assert_eq!(store.status().staging_count, 0);
}

#[test]
fn bind_none_seals_without_a_commit() {
    let mut store = Store::open_in_memory();
    let id = stage(&mut store, None, "investigation only");

    let mut args = bind_args();
    args.none = true;
    bind::run(&mut store, &args).unwrap();

    let d = store.get_decision(&id).unwrap();
    assert_eq!(d.binding, Some(Binding::NoCommit));
}

#[test]
fn bind_can_target_specific_decisions() {
    let mut store = Store::open_in_memory();
    let (a, b) = (stage(&mut store, None, "first"), stage(&mut store, None, "second"));

    let mut args = bind_args();
    args.sha = Some("c0ffee".into());
    args.decisions = vec![a.clone()];
    bind::run(&mut store, &args).unwrap();

    assert!(!store.get_decision(&a).unwrap().staged);
    assert!(store.get_decision(&b).unwrap().staged, "b untouched");

    // One that is sealed already refuses the whole request.
    args.decisions = vec![b.clone(), a];
    let err = bind::run(&mut store, &args).unwrap_err();
    assert_eq!((err.code.as_str(), err.message.as_str()), ("store_error", "Query changed 0 rows"));
    assert!(store.get_decision(&b).unwrap().staged);
}

#[test]
fn bind_neither_sha_nor_none_errors() {
    let mut store = Store::open_in_memory();
    let err = bind::run(&mut store, &bind_args()).unwrap_err();
    assert_eq!(err.code, "missing_binding");
}

#[test]
fn bind_empty_staging_is_a_no_op() {
    let mut store = Store::open_in_memory();
    let mut args = bind_args();
    args.none = true;
    bind::run(&mut store, &args).unwrap(); // fresh store, nothing staged
    assert_eq!(store.status().staging_count, 0);
}

#[test]
fn seal_to_commit_binds_all_staged_to_the_sha() {
    let mut store = Store::open_in_memory();
    let a = stage(&mut store, None, "one");
    let b = stage(&mut store, None, "two");

    let result = seal_to_commit(&mut store, "deadbeef", None).unwrap();
    assert_eq!(result.sha, "deadbeef");
    assert_eq!(result.count, 2);

    for id in [&a, &b] {
        let d = store.get_decision(id).unwrap();
        assert!(!d.staged);
        assert_eq!(d.binding, Some(Binding::Commit { sha: "deadbeef".into() }));
    }
    assert_eq!(store.status().staging_count, 0);
}

#[test]
fn seal_to_commit_empty_staging_is_a_no_op() {
    let mut store = Store::open_in_memory();
    let result = seal_to_commit(&mut store, "abc123", None).unwrap();
    assert_eq!(result.count, 0);
    assert!(result.sealed.is_empty());
}

#[test]
fn nothing_is_sealed_to_a_commit_that_did_not_happen() {
    let mut store = Store::open_in_memory();
    let id = stage(&mut store, None, "one");
    let args = CommitArgs { decisions: vec![], db: None, git_args: vec![] };
    let cases = vec![
        (GitCommit::Unavailable("no git".into()), "git_unavailable", "no git"),
        (GitCommit::Failed(" \n".into()), "git_commit_failed", "git commit failed"),
        (GitCommit::Failed("nothing to commit\n".into()), "git_commit_failed", "nothing to commit"),
        (GitCommit::Done(None), "git_no_head", "could not read HEAD after commit"),
        (GitCommit::Done(Some("\n".into())), "git_no_head", "could not read HEAD after commit"),
    ];
    for (git, code, message) in cases {
        let err = commit::run(&mut store, &args, &git).unwrap_err();
        assert_eq!((err.code.as_str(), err.message.as_str()), (code, message));
        assert!(store.get_decision(&id).unwrap().staged);
    }
    let reply = commit::run(&mut store, &args, &GitCommit::Done(Some("abc\n".into()))).unwrap();
    assert_eq!((reply.sha.as_str(), reply.count), ("abc", 1));
}

// ---- Tasks ------------------------------------------------------------------

#[test]
fn start_returns_an_id_and_records_the_hierarchy() {
    let mut store = Store::open_in_memory();

    let root = start(&mut store, None, Some("make the client resilient")).unwrap();
    assert!(root.parent_task_id.is_none());
    assert_eq!(root.instruction.as_deref(), Some("make the client resilient"));

    let child = start(&mut store, Some(&root.id), None).unwrap();
    assert_eq!(child.parent_task_id.as_deref(), Some(root.id.as_str()));
    assert!(child.instruction.is_none());
    assert!(store.task_exists(&child.id));
}

#[test]
fn start_rejects_an_unknown_parent() {
    let mut store = Store::open_in_memory();
    let err = start(&mut store, Some("01NOPE"), None).unwrap_err();
    assert_eq!(err.code, "unknown_task");
    assert_eq!(err.message, "no task `01NOPE` in the store");
}

#[test]
fn done_seals_only_the_finishing_tasks_decisions() {
    // Finishing must not touch what another agent still has in flight.
    let mut store = Store::open_in_memory();
    let subagent = start(&mut store, None, None).unwrap().id;
    let parent = start(&mut store, None, None).unwrap().id;

    let mine = stage(&mut store, Some(&subagent), "investigated the flake");
    let theirs = stage(&mut store, Some(&parent), "still deciding");
    let orphan = stage(&mut store, None, "recorded without a task");

    let result = done(&mut store, &subagent).unwrap();
    assert_eq!(result.count, 1);
    assert_eq!(result.sealed, vec![mine.clone()]);
    assert_eq!(result.binding, Binding::NoCommit);

    let sealed = store.get_decision(&mine).unwrap();
    assert!(!sealed.staged);
    assert_eq!(sealed.binding, Some(Binding::NoCommit));

    for untouched in [&theirs, &orphan] {
        let d = store.get_decision(untouched).unwrap();
        assert!(d.staged, "{untouched} must still be staged");
        assert!(d.binding.is_none());
    }
    assert!(store.get_task(&subagent).unwrap().completed_at_ms.is_some());
    assert!(store.get_task(&parent).unwrap().completed_at_ms.is_none());
}

#[test]
fn done_with_nothing_staged_is_a_success_not_an_error() {
    // A subagent that investigated and recorded nothing still ends its task;
    // failing here would train agents to skip the call.
    let mut store = Store::open_in_memory();
    let task = start(&mut store, None, None).unwrap().id;

    let result = done(&mut store, &task).unwrap();
    assert_eq!(result.count, 0);
    assert!(result.sealed.is_empty());

    // And it stays a no-op when called twice.
    stage(&mut store, Some(&task), "one decision");
    assert_eq!(done(&mut store, &task).unwrap().count, 1);
    assert_eq!(done(&mut store, &task).unwrap().count, 0);
}

#[test]
fn done_rejects_an_unknown_task() {
    let mut store = Store::open_in_memory();
    stage(&mut store, None, "staged, but not under any task");

    let err = done(&mut store, "01NOPE").unwrap_err();
    assert_eq!(err.code, "unknown_task");
}

#[test]
fn finishing_a_task_notes_what_it_writes() {
    let mut store = Store::open_in_memory();
    let id = start(&mut store, None, None).unwrap().id;
    let first = stage(&mut store, Some(&id), "one");
    stage(&mut store, None, "other");
    store.take_changes();
    let args = TaskArgs { command: TaskCommand::Done { id: id.clone() }, db: None };
    task::run(&mut store, &args).unwrap();
    let completed_at_ms = store.get_task(&id).unwrap().completed_at_ms.unwrap();
    assert_eq!(
        store.take_changes(),
        vec![
            Change::Seal { id: first, binding: Binding::NoCommit },
            Change::CompleteTask { id: id.clone(), completed_at_ms },
        ]
    );
    // A second time only what was staged since is written.
    let later = stage(&mut store, Some(&id), "two");
    store.take_changes();
    task::run(&mut store, &args).unwrap();
    assert_eq!(store.take_changes(), vec![Change::Seal { id: later, binding: Binding::NoCommit }]);
    assert!(list(&store, false, None).is_empty());
}

#[test]
fn task_lists_summarise_the_instruction() {
    let mut store = Store::open_in_memory();
    let root = start(&mut store, None, Some("first line\nsecond line")).unwrap().id;
    let child = start(&mut store, Some(&root), None).unwrap().id;
    stage(&mut store, Some(&child), "open");
    let rows = list(&store, false, Some(&root));
    assert_eq!(rows.len(), 1);
    assert_eq!((rows[0].id.as_str(), rows[0].staged_count), (child.as_str(), 1));
    let args = TaskArgs { command: TaskCommand::Done { id: child.clone() }, db: None };
    match task::run(&mut store, &args).unwrap() {
        TaskReply::Finished(reply) => assert_eq!(reply.task, child),
        other => panic!("unexpected {other:?}"),
    }
    let args = TaskArgs { command: TaskCommand::List { all: false, parent: None }, db: None };
    match task::run(&mut store, &args).unwrap() {
        TaskReply::Listed(rows) => {
            assert_eq!(rows.len(), 1);
            assert_eq!(rows[0].id, root);
            assert_eq!(rows[0].instruction_summary.as_deref(), Some("first line"));
        }
        other => panic!("unexpected {other:?}"),
    }
    let command = TaskCommand::Start { parent: Some("01NOPE".into()), instruction: None };
    assert!(task::run(&mut store, &TaskArgs { command, db: None }).is_err());
}

// ---- Export -----------------------------------------------------------------

fn new_decision(rationale: &str) -> NewDecision {
    decision(rationale, "src/net/client.rs")
}

#[test]
fn staged_decisions_are_never_exported() {
    let mut store = Store::open_in_memory();
    let sealed = store.stage_decision(&new_decision("sealed")).unwrap();
    store.seal(&sealed, &Binding::NoCommit).unwrap();
    let _staged = store.stage_decision(&new_decision("still working")).unwrap();

    let (_, decisions, _) = collect(&store, None);
    assert_eq!(decisions.len(), 1);
    assert_eq!(decisions[0].id, sealed);
}

#[test]
fn everything_is_ascending_by_id() {
    let mut store = Store::open_in_memory();
    for i in 0..5 {
        let id = store.stage_decision(&new_decision(&format!("d{i}"))).unwrap();
        store.seal(&id, &Binding::NoCommit).unwrap();
    }
    let (_, decisions, _) = collect(&store, None);
    let ids: Vec<&str> = decisions.iter().map(|d| d.id.as_str()).collect();
    let mut sorted = ids.clone();
    sorted.sort_unstable();
    assert_eq!(ids, sorted);
    assert_eq!(ids.len(), 5);
}

fn store_with_history() -> (Store, String, String, String, String) {
    let mut store = Store::open_in_memory();

    // An old task with a child, an old decision under the child, and a new
    // decision that supersedes the old one.
    let parent = store.insert_task(None, Some("parent work")).unwrap();
    let child = store.insert_task(Some(&parent), Some("child work")).unwrap();

    let mut old = new_decision("original call");
    old.task_id = Some(child.clone());
    store.stage_decision_as("01AAAAAAAAAAAAAAAAAAAAAAAA", 1, &old).unwrap();
    let old_id = "01AAAAAAAAAAAAAAAAAAAAAAAA".to_string();
    store.seal(&old_id, &Binding::NoCommit).unwrap();
    store.insert_invariant(&old_id, "tokens never persist", None).unwrap();

    let mut new = new_decision("reversal");
    new.supersedes = Some(old_id.clone());
    let new_id = store.stage_decision(&new).unwrap();
    store.seal(&new_id, &Binding::NoCommit).unwrap();
    (store, parent, child, old_id, new_id)
}

#[test]
fn since_still_carries_what_the_cut_needs() {
    let (store, parent, child, old_id, new_id) = store_with_history();

    // Cut so that only the reversal is selected.
    let since = SinceBound::Id(new_id.clone());
    let (tasks, decisions, invariants) = collect(&store, Some(&since));

    let ids: Vec<&str> = decisions.iter().map(|d| d.id.as_str()).collect();
    assert!(ids.contains(&new_id.as_str()));
    assert!(
        ids.contains(&old_id.as_str()),
        "the superseded decision is pulled in by the FK closure"
    );
    // ...and with it, its task, that task's parent, and its invariant.
    let task_ids: Vec<&str> = tasks.iter().map(|t| t.id.as_str()).collect();
    assert!(task_ids.contains(&child.as_str()));
    assert!(task_ids.contains(&parent.as_str()));
    assert_eq!(invariants.len(), 1);
    assert_eq!(invariants[0].declared_by, old_id);
}

#[test]
fn an_export_of_an_export_is_the_same() {
    let (store, _, _, _, new_id) = store_with_history();
    for since in [None, Some(SinceBound::Id(new_id.clone()))] {
        let out = collect(&store, since.as_ref());
        let mut other = Store::open_in_memory();
        other.import_all(&out.0, &out.1, &out.2).unwrap();
        assert_eq!(collect(&other, None), out);
    }
}

#[test]
fn a_cut_above_everything_exports_nothing() {
    let mut store = Store::open_in_memory();
    let id = store.stage_decision(&new_decision("only one")).unwrap();
    store.seal(&id, &Binding::NoCommit).unwrap();

    // The maximum ULID, so the bound is above the decision whatever
    // millisecond it landed in.
    let later = SinceBound::Id("7ZZZZZZZZZZZZZZZZZZZZZZZZZ".into());
    let (tasks, decisions, invariants) = collect(&store, Some(&later));
    assert!(tasks.is_empty() && decisions.is_empty() && invariants.is_empty());
}

#[test]
fn an_export_is_read_back_row_for_row() {
    let (store, ..) = store_with_history();
    let args = ExportArgs { since: None, out: "log.jsonl".into(), db: None };
    let (records, reply) = export::run(&store, &args).unwrap();
    assert_eq!(reply.path, "log.jsonl");
    assert_eq!(reply.format, FORMAT_VERSION);
    assert_eq!((reply.exported.tasks, reply.exported.decisions, reply.exported.invariants), (2, 2, 1));
    assert!(matches!(&records[0], Record::Header(h) if h.format == 1 && h.schema_version == 3));
    assert_eq!(records.len(), 6);

    let lines: Vec<Line> = records
        .into_iter()
        .enumerate()
        .map(|(i, r)| Line { line_no: i + 1, reading: Reading::Record(r) })
        .collect();
    let mut other = Store::open_in_memory();
    let reply = import::run(&mut other, &lines).unwrap();
    assert_eq!((reply.imported.tasks, reply.imported.decisions, reply.imported.invariants), (2, 2, 1));
    assert_eq!(collect(&other, None), collect(&store, None));
    // A second time everything is known.
    let reply = import::run(&mut other, &lines).unwrap();
    assert_eq!(reply.imported, ImportCounts::default());
    assert_eq!(reply.skipped_existing, 5);
}

#[test]
fn a_bad_bound_refuses_the_export() {
    let store = Store::open_in_memory();
    let args = ExportArgs { since: Some(" soon\n".into()), out: "x".into(), db: None };
    let err = export::run(&store, &args).unwrap_err();
    assert_eq!(err.code, "invalid_since");
    assert_eq!(
        err.message,
        "--since must be a decision id (ULID) or a YYYY-MM-DD date, got \"soon\""
    );
    assert!(parse_since("a\"b").unwrap_err().message.ends_with("got \"a\\\"b\""));
}

// ---- Import -----------------------------------------------------------------

fn header() -> Record {
    Record::Header(Header { format: FORMAT_VERSION, schema_version: 3, exported_at: 1 })
}

fn stored(id: &str) -> StoredDecision {
    StoredDecision {
        id: id.into(),
        task_id: None,
        agent: Agent {
            role: "implementer".into(),
            model: "model-test".into(),
            session_id: None,
            author: Some("lee@example.com".into()),
        },
        conversation_id: None,
        rationale: "retry three times".into(),
        rejected: vec![],
        caused_by: vec![],
        supersedes: None,
        anchors: vec![Anchor {
            file: "src/net/client.rs".into(),
            symbol_path: Some("Client::send".into()),
            node_kind: Some("function_item".into()),
            structural_hash: Some("h_1".into()),
            line_span: Some((40, 58)),
            recorded_at_sha: Some("a3f".into()),
        }],
        staged: false,
        binding: Some(Binding::Commit { sha: "a3f".into() }),
        created_at_ms: 1,
    }
}

fn lines_of(records: Vec<Record>) -> Vec<Line> {
    records
        .into_iter()
        .enumerate()
        .map(|(i, r)| Line { line_no: i + 1, reading: Reading::Record(r) })
        .collect()
}

fn file_of(decisions: Vec<StoredDecision>) -> Vec<Line> {
    let mut records = vec![header()];
    for d in decisions {
        records.push(Record::Decision(Box::new(d)));
    }
    lines_of(records)
}

#[test]
fn imports_then_skips_on_a_second_run() {
    let mut store = Store::open_in_memory();
    let file = file_of(vec![stored("01AAAAAAAAAAAAAAAAAAAAAAAA")]);

    let parsed = parse(&file).unwrap();
    validate(&store, &parsed).unwrap();
    let (counts, skipped) =
        store.import_all(&parsed.tasks, &parsed.decisions, &parsed.invariants).unwrap();
    assert_eq!(counts.decisions, 1);
    assert_eq!(skipped, 0);

    // The row landed in the main log, with its anchor and its author.
    let got = store.get_decision("01AAAAAAAAAAAAAAAAAAAAAAAA").unwrap();
    assert!(!got.staged);
    assert_eq!(got.binding, Some(Binding::Commit { sha: "a3f".into() }));
    assert_eq!(got.anchors.len(), 1);
    assert_eq!(got.agent.author.as_deref(), Some("lee@example.com"));
    // It is searchable immediately.
    assert_eq!(store.search("retry").unwrap(), vec!["01AAAAAAAAAAAAAAAAAAAAAAAA".to_string()]);

    let parsed = parse(&file).unwrap();
    let (counts, skipped) =
        store.import_all(&parsed.tasks, &parsed.decisions, &parsed.invariants).unwrap();
    assert_eq!(counts, ImportCounts::default());
    assert_eq!(skipped, 1);
}

#[test]
fn a_staged_or_unbound_record_is_refused() {
    let mut staged = stored("01AAAAAAAAAAAAAAAAAAAAAAAA");
    staged.staged = true;
    let err = parse(&file_of(vec![staged])).unwrap_err();
    assert_eq!(err.code, "invalid_export");
    assert_eq!(
        err.message,
        "line 2: decision 01AAAAAAAAAAAAAAAAAAAAAAAA is staged; only sealed decisions can be shared"
    );

    let mut unbound = stored("01AAAAAAAAAAAAAAAAAAAAAAAA");
    unbound.binding = None;
    let err = parse(&file_of(vec![unbound])).unwrap_err();
    assert_eq!(err.code, "invalid_export");
    assert_eq!(
        err.message,
        "line 2: decision 01AAAAAAAAAAAAAAAAAAAAAAAA has no binding; a main-log decision always carries one"
    );
}

#[test]
fn a_file_without_a_header_or_with_an_unknown_format_is_refused() {
    let lone = vec![Record::Decision(Box::new(stored("01AAAAAAAAAAAAAAAAAAAAAAAA")))];
    let err = parse(&lines_of(lone)).unwrap_err();
    assert_eq!(err.code, "invalid_export");
    assert!(err.message.contains("{\"type\":\"header\",...} first"));

    let future = vec![Record::Header(Header {
        format: FORMAT_VERSION + 1,
        schema_version: 99,
        exported_at: 1,
    })];
    let err = parse(&lines_of(future)).unwrap_err();
    assert_eq!(err.code, "unsupported_format");
    assert_eq!(
        err.message,
        "export format 2 is not supported by this dlog (expected 1); upgrade dlog to read it"
    );
}

#[test]
fn the_first_faulty_line_is_reported() {
    let lines = vec![
        Line { line_no: 1, reading: Reading::Record(header()) },
        Line { line_no: 4, reading: Reading::Unreadable("expected value".into()) },
        Line {
            line_no: 5,
            reading: Reading::Record(Record::Header(Header {
                format: 9,
                schema_version: 1,
                exported_at: 1,
            })),
        },
    ];
    let err = parse(&lines).unwrap_err();
    assert_eq!(err.code, "invalid_export");
    assert_eq!(err.message, "line 4 is not a dlog export record: expected value");
}

#[test]
fn lines_are_numbered_and_blank_ones_skipped() {
    let got = record_lines("  {a} \r\n\n \t\n{b}");
    assert_eq!(got, vec![(1, "{a}".to_string()), (4, "{b}".to_string())]);
}

#[test]
fn a_dangling_supersedes_stops_the_whole_import() {
    let mut store = Store::open_in_memory();
    let mut d = stored("01BBBBBBBBBBBBBBBBBBBBBBBB");
    d.supersedes = Some("01MISSINGMISSINGMISSINGMI".into());

    let file = file_of(vec![d, stored("01CCCCCCCCCCCCCCCCCCCCCCCC")]);
    let parsed = parse(&file).unwrap();
    let err = validate(&store, &parsed).unwrap_err();
    assert_eq!(err.code, "dangling_reference");
    // Nothing was written: validation runs before anything else.
    assert!(import::run(&mut store, &file).is_err());
    assert!(!store.decision_exists("01BBBBBBBBBBBBBBBBBBBBBBBB"));
    assert!(!store.decision_exists("01CCCCCCCCCCCCCCCCCCCCCCCC"));
}

#[test]
fn every_dangling_reference_is_named() {
    let store = Store::open_in_memory();
    let mut d = stored("D");
    d.task_id = Some("t".into());
    d.supersedes = Some("p".into());
    let records = vec![
        header(),
        Record::Task(TaskRecord {
            id: "T".into(),
            parent_task_id: Some("q".into()),
            instruction: None,
            created_at_ms: 1,
            completed_at_ms: None,
        }),
        Record::Decision(Box::new(d)),
        Record::Invariant(InvariantRecord {
            id: "I".into(),
            declared_by: "x".into(),
            statement: "never".into(),
            scope: None,
            retired: false,
            created_at_ms: 1,
        }),
    ];
    let err = validate(&store, &parse(&lines_of(records)).unwrap()).unwrap_err();
    assert_eq!(
        err.message,
        "export references 4 record(s) that are in neither the file nor this store, so nothing was \
         imported: task T -> parent_task_id q; decision D -> task_id t; decision D -> supersedes p; \
         invariant I -> declared_by x"
    );
}

#[test]
fn a_dangling_caused_by_imports_and_is_reported() {
    let mut store = Store::open_in_memory();
    let mut d = stored("01BBBBBBBBBBBBBBBBBBBBBBBB");
    d.caused_by = vec!["01MISSINGMISSINGMISSINGMI".into()];

    let parsed = parse(&file_of(vec![d])).unwrap();
    let dangling = validate(&store, &parsed).unwrap();
    assert_eq!(dangling, vec!["01MISSINGMISSINGMISSINGMI".to_string()]);

    let (counts, _) =
        store.import_all(&parsed.tasks, &parsed.decisions, &parsed.invariants).unwrap();
    assert_eq!(counts.decisions, 1);
}

#[test]
fn concatenated_exports_parse_as_one_file() {
    // `cat a.jsonl b.jsonl` is the obvious way to combine two exports, so a
    // repeated header and a repeated decision must both be tolerated.
    let mut lines = file_of(vec![stored("01CCCCCCCCCCCCCCCCCCCCCCCC")]);
    lines.extend(file_of(vec![
        stored("01AAAAAAAAAAAAAAAAAAAAAAAA"),
        stored("01CCCCCCCCCCCCCCCCCCCCCCCC"),
    ]));
    let parsed = parse(&lines).unwrap();
    let ids: Vec<&str> = parsed.decisions.iter().map(|d| d.id.as_str()).collect();
    assert_eq!(ids, vec!["01AAAAAAAAAAAAAAAAAAAAAAAA", "01CCCCCCCCCCCCCCCCCCCCCCCC"]);
}

// ---- Bounds -----------------------------------------------------------------

#[test]
fn since_accepts_a_ulid_or_a_date() {
    let id = ulid::Ulid::new().to_string();
    assert_eq!(parse_since(&id).unwrap(), SinceBound::Id(id.clone()));

    // 2026-07-01T00:00:00Z.
    assert_eq!(parse_since("2026-07-01").unwrap(), SinceBound::Ms(1_782_864_000_000));
    assert_eq!(parse_since("1970-01-01").unwrap(), SinceBound::Ms(0));
    // Leap day is a real date; the 30th of February is not.
    assert!(matches!(parse_since("2024-02-29").unwrap(), SinceBound::Ms(_)));

    for bad in ["july", "2026-13-01", "2026-02-30", "2026-7-1", "", "01ZZ"] {
        assert!(parse_since(bad).is_err(), "{bad:?} should be rejected");
    }
}

#[test]
fn the_calendar_is_gregorian() {
    assert!(is_leap(2000) && is_leap(2024) && !is_leap(1900) && !is_leap(2023));
    assert!(is_leap(-4) && !is_leap(-100) && is_leap(-400));
    assert_eq!((1..=12).map(|m| days_in_month(2023, m)).sum::<u32>(), 365);
    assert_eq!(days_in_month(2024, 2), 29);
    assert_eq!(days_in_month(2024, 13), 0);
    assert_eq!(days_from_civil(1970, 1, 1), 0);
    assert_eq!(days_from_civil(1969, 12, 31), -1);
    assert_eq!(days_from_civil(2000, 3, 1), 11_017);
    assert_eq!(days_from_civil(0, 3, 1), -719_468);
    assert_eq!(days_from_civil(-1, 12, 31), days_from_civil(0, 1, 1) - 1);
    assert_eq!(parse_utc_date_ms("1969-12-31"), Some(-86_400_000));
    // One by one across the ends of months and years, as far as a machine number counts.
    for (last, first) in [((2024, 2, 29), (2024, 3, 1)), ((1999, 12, 31), (2000, 1, 1))] {
        let day = |(y, m, d)| days_from_civil(y, m, d);
        assert_eq!(day(first), day(last) + 1);
    }
    assert!(days_from_civil(25_252_734_927_766_399, 12, 31) > 0);
    assert!(days_from_civil(-25_252_734_927_764_399, 1, 1) < 0);
    // A sign is no digit.
    for bad in ["+999-01-01", "2024-+1-05", "2026-+7-01", "2026-07-+1"] {
        assert_eq!(parse_utc_date_ms(bad), None, "{bad}");
    }
}

// ---- Ids --------------------------------------------------------------------

#[test]
fn ids_are_the_text_and_time_of_ulids() {
    for bits in [0u128, 1, 31, 32, u128::MAX, 0x0192_aabb_ccdd_0000_1111_2222_3333_4444] {
        let (text, ms) = id_parts(bits);
        assert_eq!(text, ulid::Ulid(bits).to_string());
        assert_eq!(ms, (bits >> 80) as i64);
        assert!(is_id(&text) && is_id(&text.to_lowercase()));
    }
    assert_eq!(id_parts(u128::MAX).0, "7ZZZZZZZZZZZZZZZZZZZZZZZZZ");
    let (id, ms) = mint();
    assert_eq!(ulid::Ulid::from_string(&id).unwrap().timestamp_ms() as i64, ms);
    // A later millisecond sorts later, whatever the random bits.
    let early = id_parts((7u128 << 80) | ((1u128 << 80) - 1)).0;
    let late = id_parts(8u128 << 80).0;
    assert!(early < late);
    for bad in ["", "I1850M2GA1850M2GA1850M2GA1", "21850M2GA1850M2GA1850M2GA", "21850M2GA1850M2GA1850M2G\u{e4}"] {
        assert!(!is_id(bad), "{bad}");
    }
}
