//! The store: staging, sealing, queries, import.
use dlog::commands::AppError;
use dlog::log::{Change, InvariantRecord, TaskRecord};
use dlog::model::{Agent, Anchor, Binding, NewDecision, Rejected, StoredDecision};
use dlog::store::{
    migrations_due, path_covers, schema_version_of, ImportCounts, OpenError, SinceBound, Store,
    StoreError, SCHEMA_VERSION,
};

fn agent() -> Agent {
    Agent {
        role: "implementer".into(),
        model: "model-test".into(),
        session_id: Some("sess-1".into()),
        author: None,
    }
}

fn minimal(rationale: &str) -> NewDecision {
    // Minimal required surface: rationale + one anchor + agent.
    NewDecision {
        task_id: None,
        agent: agent(),
        conversation_id: None,
        rationale: rationale.into(),
        rejected: vec![],
        caused_by: vec![],
        supersedes: None,
        anchors: vec![Anchor {
            file: "src/auth.rs".into(),
            symbol_path: Some("AuthService::authenticate".into()),
            node_kind: Some("function".into()),
            structural_hash: Some("h_abc".into()),
            line_span: Some((10, 45)),
            recorded_at_sha: Some("deadbeef".into()),
        }],
    }
}

#[test]
fn sealed_decision_ids_skip_staging_and_honour_the_bound() {
    let mut store = Store::open_in_memory();
    let first = store.stage_decision(&minimal("first")).unwrap();
    store.seal(&first, &Binding::NoCommit).unwrap();
    let second = store.stage_decision(&minimal("second")).unwrap();
    store.seal(&second, &Binding::NoCommit).unwrap();
    let staged = store.stage_decision(&minimal("still working")).unwrap();

    // Sorted, not "in the order they were recorded": two ULIDs minted in the
    // same millisecond differ only in random bits, so mint order and id order
    // are the same thing only across millisecond boundaries.
    let all = store.sealed_decision_ids(None);
    let mut expected = vec![first, second];
    expected.sort();
    assert_eq!(all, expected, "ascending by id");
    assert!(!all.contains(&staged), "staging never leaves the store");

    // An id bound means "that decision onwards", inclusive.
    let last = expected.last().unwrap().clone();
    let from_last = store
        .sealed_decision_ids(Some(&SinceBound::Id(last.clone())));
    assert_eq!(from_last, vec![last]);

    // A time bound compares record time; 0 passes everything.
    assert_eq!(
        store.sealed_decision_ids(Some(&SinceBound::Ms(0))),
        all
    );
    assert!(
        store
            .sealed_decision_ids(Some(&SinceBound::Ms(i64::MAX)))
            .is_empty()
    );
}

#[test]
fn import_all_is_atomic_and_skips_ids_it_already_has() {
    let mut store = Store::open_in_memory();

    let task = TaskRecord {
        id: "01TASK".into(),
        parent_task_id: None,
        instruction: Some("shared work".into()),
        created_at_ms: 1,
        completed_at_ms: Some(2),
    };
    let mut decision = {
        let id = store.stage_decision(&minimal("template")).unwrap();
        let d = store.get_decision(&id).unwrap();
        store.seal(&id, &Binding::NoCommit).unwrap();
        d
    };
    decision.id = "01DECISION".into();
    decision.task_id = Some(task.id.clone());
    decision.staged = false;
    decision.binding = Some(Binding::Commit { sha: "a3f".into() });
    let invariant = InvariantRecord {
        id: "01INV".into(),
        declared_by: decision.id.clone(),
        statement: "never log tokens".into(),
        scope: None,
        retired: false,
        created_at_ms: 3,
    };

    let tasks = vec![task];
    let decisions = vec![decision.clone()];
    let invariants = vec![invariant];
    let (counts, skipped) = store.import_all(&tasks, &decisions, &invariants).unwrap();
    assert_eq!(counts.tasks, 1);
    assert_eq!(counts.decisions, 1);
    assert_eq!(counts.invariants, 1);
    assert_eq!(skipped, 0);

    // The decision arrives sealed, with its anchors and its binding intact.
    let stored = store.get_decision("01DECISION").unwrap();
    assert!(!stored.staged);
    assert_eq!(stored.binding, Some(Binding::Commit { sha: "a3f".into() }));
    assert_eq!(stored.anchors, decision.anchors);

    // Re-running writes nothing.
    let (counts, skipped) = store.import_all(&tasks, &decisions, &invariants).unwrap();
    assert_eq!(counts, ImportCounts::default());
    assert_eq!(skipped, 3);

    // A decision whose foreign key cannot resolve takes the whole batch with
    // it — the command layer catches this first, the transaction is the
    // backstop.
    let mut orphan = decision.clone();
    orphan.id = "01ORPHAN".into();
    orphan.task_id = Some("01NOSUCHTASK".into());
    assert!(store.import_all(&[], &[orphan], &[]).is_err());
    assert!(!store.decision_exists("01ORPHAN"));
}

#[test]
fn import_does_not_depend_on_write_order() {
    // Ids order FK edges only to millisecond resolution: two ULIDs minted in
    // the same millisecond sort randomly, so a decision can legitimately sort
    // *before* the one it supersedes. Foreign keys are deferred to commit for
    // exactly this case — here forced by importing the pair backwards.
    let mut store = Store::open_in_memory();
    let template = {
        let id = store.stage_decision(&minimal("template")).unwrap();
        let d = store.get_decision(&id).unwrap();
        store.seal(&id, &Binding::NoCommit).unwrap();
        d
    };

    let mut original = template.clone();
    original.id = "01ZORIGINAL".into();
    original.staged = false;
    original.binding = Some(Binding::NoCommit);

    let mut reversal = template;
    reversal.id = "01AREVERSAL".into();
    reversal.supersedes = Some(original.id.clone());
    reversal.staged = false;
    reversal.binding = Some(Binding::NoCommit);

    // Sorted ascending, the reversal comes first — before its referent.
    let (counts, _) = store
        .import_all(&[], &[reversal, original], &[])
        .expect("deferred foreign keys let the referent arrive second");
    assert_eq!(counts.decisions, 2);
}

#[test]
fn complete_task_keeps_the_first_completion_time() {
    let mut store = Store::open_in_memory();
    let task = store
        .insert_task(None, Some("investigate the flake"))
        .unwrap();
    assert!(
        store.list_tasks(false, None)[0]
            .completed_at_ms
            .is_none()
    );

    let first = store.complete_task(&task).unwrap();
    // A second `task done` is a follow-up seal, not a re-completion.
    let again = store.complete_task(&task).unwrap();
    assert_eq!(first, again);

    // Completed tasks drop out of the open list but stay in the full one.
    assert!(store.list_tasks(false, None).is_empty());
    let all = store.list_tasks(true, None);
    assert_eq!(all.len(), 1);
    assert_eq!(all[0].completed_at_ms, Some(first));
}

#[test]
fn list_tasks_filters_by_state_and_parent_with_staged_counts() {
    let mut store = Store::open_in_memory();
    let parent = store.insert_task(None, Some("ship it")).unwrap();
    let child = store.insert_task(Some(&parent), None).unwrap();
    let other = store.insert_task(None, None).unwrap();

    store
        .stage_decision(&NewDecision {
            task_id: Some(child.clone()),
            ..minimal("still in flight")
        })
        .unwrap();
    let sealed = store
        .stage_decision(&NewDecision {
            task_id: Some(child.clone()),
            ..minimal("already sealed")
        })
        .unwrap();
    store.seal(&sealed, &Binding::NoCommit).unwrap();
    store.complete_task(&other).unwrap();

    // Open only: the completed one is gone, and rows come back newest-first.
    let open = store.list_tasks(false, None);
    let ids: Vec<&str> = open.iter().map(|t| t.id.as_str()).collect();
    assert_eq!(ids.len(), 2);
    assert!(ids.contains(&child.as_str()) && ids.contains(&parent.as_str()));
    assert!(ids.windows(2).all(|w| w[0] > w[1]), "descending by id");

    let row = |id: &str| open.iter().find(|t| t.id == id).unwrap().clone();
    // Only unsealed decisions count towards staged_count.
    assert_eq!(row(&child).staged_count, 1);
    assert_eq!(row(&parent).staged_count, 0);
    assert_eq!(row(&child).parent_task_id.as_deref(), Some(parent.as_str()));
    assert_eq!(row(&parent).instruction.as_deref(), Some("ship it"));

    assert_eq!(store.list_tasks(true, None).len(), 3);
    // --parent narrows to that task's children.
    let kids = store.list_tasks(true, Some(&parent));
    assert_eq!(kids.len(), 1);
    assert_eq!(kids[0].id, child);
    assert!(store.list_tasks(true, Some("01NOPE")).is_empty());
}

#[test]
fn stranded_tasks_are_unfinished_ones_holding_staging() {
    let mut store = Store::open_in_memory();
    let stranded = store.insert_task(None, Some("left behind")).unwrap();
    let finished = store.insert_task(None, None).unwrap();
    let quiet = store.insert_task(None, None).unwrap();

    store
        .stage_decision(&NewDecision {
            task_id: Some(stranded.clone()),
            ..minimal("never sealed")
        })
        .unwrap();
    store
        .stage_decision(&NewDecision {
            task_id: Some(finished.clone()),
            ..minimal("sealed at task end")
        })
        .unwrap();
    // `quiet` is open but has nothing staged; task-less staging is invisible
    // here by construction (it belongs to no task).
    store.stage_decision(&minimal("no task at all")).unwrap();

    let ids = store.staged_decision_ids_for_task(&finished);
    store.seal_staged(&Binding::NoCommit, Some(&ids)).unwrap();
    store.complete_task(&finished).unwrap();

    let rows = store.stranded_tasks(20);
    assert_eq!(rows.len(), 1);
    assert_eq!(rows[0].task, stranded);
    assert_eq!(rows[0].instruction.as_deref(), Some("left behind"));
    assert_eq!(rows[0].staged_count, 1);
    assert!(rows[0].oldest_staged_ms > 0);
    assert_eq!(store.status().stranded_task_count, 1);
    assert!(!quiet.is_empty());

    // The cap is honoured.
    assert!(store.stranded_tasks(0).is_empty());
}

#[test]
fn stage_then_read_roundtrips_as_pending() {
    let mut store = Store::open_in_memory();
    let id = store
        .stage_decision(&minimal("add retry around flaky API"))
        .unwrap();

    let d = store.get_decision(&id).expect("decision exists");
    assert!(d.staged);
    assert!(d.binding.is_none());
    assert_eq!(d.rationale, "add retry around flaky API");
    assert_eq!(d.agent, agent());
    assert_eq!(d.anchors.len(), 1);
    assert_eq!(
        d.anchors[0].symbol_path.as_deref(),
        Some("AuthService::authenticate")
    );
    assert_eq!(d.anchors[0].line_span, Some((10, 45)));
}

#[test]
fn seal_commit_moves_to_immutable_main_log() {
    let mut store = Store::open_in_memory();
    let id = store.stage_decision(&minimal("seal me")).unwrap();

    store
        .seal(&id, &Binding::Commit { sha: "a3f9".into() })
        .unwrap();

    let d = store.get_decision(&id).unwrap();
    assert!(!d.staged);
    assert_eq!(d.binding, Some(Binding::Commit { sha: "a3f9".into() }));

    // Re-sealing a sealed decision is rejected (already out of staging).
    assert!(store.seal(&id, &Binding::NoCommit).is_err());
}

#[test]
fn seal_none_for_non_code_decisions() {
    let mut store = Store::open_in_memory();
    let id = store
        .stage_decision(&minimal("investigation only"))
        .unwrap();
    store.seal(&id, &Binding::NoCommit).unwrap();
    let d = store.get_decision(&id).unwrap();
    assert_eq!(d.binding, Some(Binding::NoCommit));
}

#[test]
fn staged_ids_are_scoped_to_their_task() {
    let mut store = Store::open_in_memory();
    let mine = store.insert_task(None, Some("resilience")).unwrap();
    let theirs = store.insert_task(None, None).unwrap();

    let a = store
        .stage_decision(&NewDecision {
            task_id: Some(mine.clone()),
            ..minimal("mine, staged")
        })
        .unwrap();
    let sealed = store
        .stage_decision(&NewDecision {
            task_id: Some(mine.clone()),
            ..minimal("mine, already sealed")
        })
        .unwrap();
    store.seal(&sealed, &Binding::NoCommit).unwrap();
    store
        .stage_decision(&NewDecision {
            task_id: Some(theirs.clone()),
            ..minimal("another agent's, still in flight")
        })
        .unwrap();
    store.stage_decision(&minimal("no task at all")).unwrap();

    // Only the task's *staged* decisions — not sealed ones, not another
    // task's, not the task-less ones.
    assert_eq!(store.staged_decision_ids_for_task(&mine), vec![a]);
    assert_eq!(
        store.staged_decision_ids_for_task("nope"),
        Vec::<String>::new()
    );

    assert!(store.task_exists(&mine));
    assert!(store.task_exists(&theirs));
    assert!(!store.task_exists("nope"));
}

#[test]
fn file_level_anchor_has_no_symbol() {
    let mut store = Store::open_in_memory();
    let mut d = minimal("doc decision");
    d.anchors = vec![Anchor {
        file: "README.md".into(),
        symbol_path: None,
        node_kind: None,
        structural_hash: None,
        line_span: None,
        recorded_at_sha: None,
    }];
    let id = store.stage_decision(&d).unwrap();
    let got = store.get_decision(&id).unwrap();
    assert_eq!(got.anchors[0].file, "README.md");
    assert!(got.anchors[0].symbol_path.is_none());
}

#[test]
fn rejected_and_caused_by_roundtrip() {
    let mut store = Store::open_in_memory();
    let mut d = minimal("with extras");
    d.rejected = vec![Rejected {
        approach: "polling".into(),
        reason: "wasteful".into(),
    }];
    let first = store.stage_decision(&minimal("first")).unwrap();
    d.caused_by = vec![first.clone()];
    d.supersedes = Some(first.clone());
    let id = store.stage_decision(&d).unwrap();

    let got = store.get_decision(&id).unwrap();
    assert_eq!(got.rejected.len(), 1);
    assert_eq!(got.rejected[0].approach, "polling");
    assert_eq!(got.caused_by, vec![first.clone()]);
    assert_eq!(got.supersedes.as_deref(), Some(first.as_str()));
}

#[test]
fn invariant_records_provenance_and_survives() {
    let mut store = Store::open_in_memory();
    let dec = store.stage_decision(&minimal("declares inv")).unwrap();
    let inv = store
        .insert_invariant(&dec, "tokens never logged", Some("src/auth"))
        .unwrap();

    let live = store.live_invariants();
    assert_eq!(live, vec![(inv, "tokens never logged".to_string())]);
}

#[test]
fn fts_finds_decision_by_rationale() {
    let mut store = Store::open_in_memory();
    let id = store
        .stage_decision(&minimal("switch to exponential backoff for retries"))
        .unwrap();
    store
        .stage_decision(&minimal("unrelated styling tweak"))
        .unwrap();

    let hits = store.search("backoff").unwrap();
    assert_eq!(hits, vec![id]);
}

#[test]
fn fts_query_with_special_chars_does_not_error() {
    let mut store = Store::open_in_memory();
    let id = store
        .stage_decision(&minimal("use exponential backoff on errors"))
        .unwrap();

    // Operators / punctuation / unbalanced quotes must not raise a syntax
    // error — they are normalised to literal terms.
    store.search("backoff OR (retry)").unwrap();
    store.search("\"unbalanced").unwrap();
    store.search(":*foo").unwrap();

    // Whitespace-only yields no results.
    assert!(store.search("   ").unwrap().is_empty());

    // A plain term still matches; multiple terms are implicit AND.
    assert_eq!(store.search("backoff").unwrap(), vec![id.clone()]);
    assert_eq!(store.search("backoff errors").unwrap(), vec![id]);
    assert!(store.search("backoff missingword").unwrap().is_empty());
}

#[test]
fn status_counts_staging_and_reports_version() {
    let mut store = Store::open_in_memory();
    let a = store.stage_decision(&minimal("one")).unwrap();
    store.stage_decision(&minimal("two")).unwrap();
    store.seal(&a, &Binding::NoCommit).unwrap();

    let status = store.status();
    assert_eq!(status.staging_count, 1); // one sealed, one still staged
    assert!(status.oldest_staged_ms.is_some());
    assert_eq!(status.schema_version, SCHEMA_VERSION);
    // Neither decision belongs to a task, so nothing is stranded per-task.
    assert_eq!(status.stranded_task_count, 0);
}

#[test]
fn author_round_trips_and_is_absent_when_unset() {
    let mut store = Store::open_in_memory();

    let anonymous = store.stage_decision(&minimal("no author")).unwrap();
    let d = store.get_decision(&anonymous).unwrap();
    assert!(d.agent.author.is_none());

    let mut attributed = minimal("with author");
    attributed.agent.author = Some("lee@example.com".into());
    let id = store.stage_decision(&attributed).unwrap();
    let d = store.get_decision(&id).unwrap();
    assert_eq!(d.agent.author.as_deref(), Some("lee@example.com"));
}

#[test]
fn export_reads_carry_what_the_query_shapes_drop() {
    let mut store = Store::open_in_memory();
    let parent = store.insert_task(None, Some("parent")).unwrap();
    let child = store.insert_task(Some(&parent), Some("child")).unwrap();

    let task = store.get_task(&child).unwrap();
    assert_eq!(task.parent_task_id.as_deref(), Some(parent.as_str()));
    assert_eq!(task.instruction.as_deref(), Some("child"));
    assert!(task.completed_at_ms.is_none());
    store.complete_task(&child).unwrap();
    assert!(store.get_task(&child).unwrap().completed_at_ms.is_some());
    assert!(store.get_task("01NOSUCHTASK").is_none());

    let decision = store.stage_decision(&minimal("declares things")).unwrap();
    // A retired invariant: the list of live ones does not show it, but an export must
    // still carry it, or importing would resurrect a constraint that was dropped.
    let retired = InvariantRecord {
        id: "01INV".into(),
        declared_by: decision.clone(),
        statement: "tokens never persist".into(),
        scope: Some("src".into()),
        retired: true,
        created_at_ms: 7,
    };
    store.import_all(&[], &[], &[retired]).unwrap();
    assert!(store.list_live_invariants().is_empty());

    let records = store.invariant_records_declared_by(&decision);
    assert_eq!(records.len(), 1);
    assert!(records[0].retired);
    assert_eq!(records[0].scope.as_deref(), Some("src"));
    assert!(records[0].created_at_ms > 0);
}

#[test]
fn migrate_is_idempotent_and_records_version() {
    let store = Store::open_in_memory();
    assert_eq!(store.schema_version(), SCHEMA_VERSION);
    // A store at the current version has nothing to apply.
    let recorded = SCHEMA_VERSION.to_string();
    assert_eq!(migrations_due(Some(&recorded)).unwrap(), None);
    assert_eq!(schema_version_of(Some(&recorded)), SCHEMA_VERSION);
}

#[test]
fn migrates_a_v1_store_up_without_touching_its_rows() {
    // Version 1 lacks what the later migrations add, and only those are due.
    assert_eq!(migrations_due(Some("1")).unwrap(), Some(1));
    assert_eq!(migrations_due(Some("2")).unwrap(), Some(2));

    let old_task = TaskRecord {
        id: "01OLDTASK".into(),
        parent_task_id: None,
        instruction: Some("legacy work".into()),
        created_at_ms: 1,
        completed_at_ms: None,
    };
    let mut template = sealed_template();
    template.id = "01OLDDEC".into();
    template.rationale = "legacy call".into();
    let store = Store::restore(vec![old_task], vec![template], vec![]).unwrap();
    let open = store.list_tasks(false, None);
    assert_eq!(open.len(), 1);
    assert_eq!(open[0].id, "01OLDTASK");
    assert_eq!(open[0].instruction.as_deref(), Some("legacy work"));
    assert!(open[0].completed_at_ms.is_none());

    let old = store.get_decision("01OLDDEC").unwrap();
    assert_eq!(old.rationale, "legacy call");
    assert!(old.agent.author.is_none());
}

#[test]
fn refuses_a_store_from_a_newer_dlog() {
    match migrations_due(Some("999")) {
        Err(OpenError::SchemaTooNew { found, supported }) => {
            assert_eq!(found, 999);
            assert_eq!(supported, SCHEMA_VERSION);
        }
        Err(other) => panic!("expected SchemaTooNew, got {other:?}"),
        Ok(_) => panic!("a newer store must not open"),
    }
    let error = migrations_due(Some("999")).unwrap_err();
    assert_eq!(
        error.message(),
        "store schema version 999 is newer than this dlog supports (up to 3); upgrade dlog to read it"
    );
    assert_eq!(AppError::from_open(&error).code, "schema_too_new");
    let broken = OpenError::Sqlite("disk I/O error".into());
    assert_eq!(broken.message(), "disk I/O error");
    assert_eq!(AppError::from_open(&broken).code, "store_error");
}

#[test]
fn a_fresh_store_applies_every_migration() {
    assert_eq!(migrations_due(None).unwrap(), Some(0));
    // What does not read as a version counts as none, and so does one below zero.
    assert_eq!(migrations_due(Some("soon")).unwrap(), Some(0));
    assert_eq!(migrations_due(Some("-4")).unwrap(), Some(0));
    let mut store = Store::open_in_memory();
    assert_eq!(store.schema_version(), SCHEMA_VERSION);
    let task = store.insert_task(None, None).unwrap();
    assert!(store.complete_task(&task).is_ok());
}

#[test]
fn insert_task_records_the_hierarchy() {
    let mut store = Store::open_in_memory();
    let parent = store.insert_task(None, Some("ship the feature")).unwrap();
    let child = store.insert_task(Some(&parent), None).unwrap();

    let got = store.get_task(&child).unwrap();
    assert_eq!(got.parent_task_id.as_deref(), Some(parent.as_str()));
    assert_eq!(got.instruction, None);
}

#[test]
fn main_log_is_append_only() {
    let mut store = Store::open_in_memory();
    let id = store.stage_decision(&minimal("locked")).unwrap();
    store.seal(&id, &Binding::NoCommit).unwrap();
    let before = store.get_decision(&id).unwrap();

    // Nothing that writes reaches a sealed row: not a seal, not an import under its id.
    assert_eq!(
        store.seal(&id, &Binding::Commit { sha: "b00".into() }),
        Err(StoreError::NothingChanged)
    );
    let mut tampered = before.clone();
    tampered.rationale = "tampered".into();
    let (counts, skipped) = store.import_all(&[], &[tampered], &[]).unwrap();
    assert_eq!(counts, ImportCounts::default());
    assert_eq!(skipped, 1);
    assert_eq!(store.get_decision(&id).unwrap(), before);
}

fn sealed_template() -> StoredDecision {
    let mut store = Store::open_in_memory();
    let id = store.stage_decision(&minimal("template")).unwrap();
    store.seal(&id, &Binding::NoCommit).unwrap();
    store.get_decision(&id).unwrap()
}

#[test]
fn refused_writes_leave_the_log_as_it_was() {
    let mut store = Store::open_in_memory();
    assert_eq!(store.insert_task(Some("nope"), None), Err(StoreError::MissingReference));
    let task = store.insert_task(None, None).unwrap();
    assert_eq!(store.insert_task_as(&task, 1, None, None), Err(StoreError::DuplicateTask));
    assert_eq!(store.complete_task("nope"), Err(StoreError::NoRows));
    assert_eq!(store.seal("nope", &Binding::NoCommit), Err(StoreError::NothingChanged));
    let mut orphan = minimal("orphan");
    orphan.supersedes = Some("nope".into());
    assert_eq!(store.stage_decision(&orphan), Err(StoreError::MissingReference));
    assert_eq!(store.insert_invariant("nope", "never", None), Err(StoreError::MissingReference));
    store.stage_decision_as("01D", 5, &minimal("one")).unwrap();
    assert_eq!(
        store.stage_decision_as("01D", 6, &minimal("two")),
        Err(StoreError::DuplicateDecision)
    );
    store.insert_invariant_as("01I", 5, "01D", "never", None).unwrap();
    assert_eq!(
        store.insert_invariant_as("01I", 6, "01D", "never", None),
        Err(StoreError::DuplicateInvariant)
    );
    assert_eq!(store.get_decision("01D").unwrap().rationale, "one");
    assert_eq!(store.take_changes().len(), 3, "refused writes are not noted");
    assert!(store.take_changes().is_empty());
    let words: Vec<String> = vec![
        StoreError::NothingChanged.message(),
        StoreError::NoRows.message(),
        StoreError::DuplicateTask.message(),
        StoreError::MissingReference.message(),
    ];
    assert_eq!(
        words,
        vec![
            "Query changed 0 rows",
            "Query returned no rows",
            "UNIQUE constraint failed: task.id",
            "FOREIGN KEY constraint failed"
        ]
    );
}

#[test]
fn sealing_is_all_or_nothing() {
    let mut store = Store::open_in_memory();
    let a = store.stage_decision(&minimal("a")).unwrap();
    let b = store.stage_decision(&minimal("b")).unwrap();
    let with_unknown = vec![a.clone(), "nope".to_string()];
    assert!(store.seal_staged(&Binding::NoCommit, Some(&with_unknown)).is_err());
    let twice = vec![b.clone(), b.clone()];
    assert!(store.seal_staged(&Binding::NoCommit, Some(&twice)).is_err());
    assert!(store.get_decision(&a).unwrap().staged);
    assert!(store.get_decision(&b).unwrap().staged);
    let both = vec![b.clone(), a.clone()];
    assert_eq!(store.seal_staged(&Binding::NoCommit, Some(&both)).unwrap(), both);
    assert!(!store.get_decision(&a).unwrap().staged);
    assert_eq!(store.seal_staged(&Binding::NoCommit, None).unwrap(), Vec::<String>::new());
}

#[test]
fn restore_refuses_rows_that_do_not_fit_together() {
    let d = sealed_template();
    let mut earlier = d.clone();
    earlier.id = "00".into();
    assert_eq!(
        Store::restore(vec![], vec![d.clone(), earlier.clone()], vec![]).err(),
        Some(StoreError::Malformed),
        "rows come ascending"
    );
    let mut unbound = d.clone();
    unbound.binding = None;
    assert_eq!(
        Store::restore(vec![], vec![unbound], vec![]).err(),
        Some(StoreError::Malformed),
        "a sealed decision is bound"
    );
    let mut dangling = d.clone();
    dangling.task_id = Some("nope".into());
    assert_eq!(
        Store::restore(vec![], vec![dangling], vec![]).err(),
        Some(StoreError::MissingReference)
    );
    let mut store = Store::restore(vec![], vec![earlier, d], vec![]).unwrap();
    assert!(store.take_changes().is_empty());
    assert_eq!(store.sealed_decision_ids(None).len(), 2);
}

#[test]
fn noted_writes_replay_to_the_same_rows() {
    let mut store = Store::open_in_memory();
    let task = store.insert_task(None, Some("work")).unwrap();
    let mut d = minimal("why");
    d.task_id = Some(task.clone());
    let id = store.stage_decision(&d).unwrap();
    store.seal(&id, &Binding::Commit { sha: "a3f".into() }).unwrap();
    let done = store.complete_task(&task).unwrap();
    let changes = store.take_changes();
    assert_eq!(changes.len(), 4);
    assert!(matches!(&changes[0], Change::AddTask(t) if t.id == task));
    assert!(matches!(&changes[1], Change::AddDecision(x) if x.id == id && x.staged));
    assert!(matches!(&changes[2], Change::Seal { id: sealed, .. } if *sealed == id));
    assert!(
        matches!(&changes[3], Change::CompleteTask { id, completed_at_ms } if *id == task && *completed_at_ms == done)
    );
}

#[test]
fn ensure_task_sets_the_instruction_once() {
    let mut store = Store::open_in_memory();
    store.ensure_task("tsk", Some("first"));
    store.ensure_task("tsk", Some("second"));
    assert_eq!(store.get_task("tsk").unwrap().instruction.as_deref(), Some("first"));
    assert_eq!(store.list_tasks(true, None).len(), 1);
}

#[test]
fn paths_cover_whole_components() {
    assert!(path_covers("src/auth", "src/auth"));
    assert!(path_covers("src/auth", "src/auth/login.rs"));
    assert!(!path_covers("src/au", "src/auth/login.rs"));
    assert!(path_covers(".", "/elsewhere/x"));
    assert!(!path_covers("a_b", "axb/c"));
    assert!(!path_covers("a%", "abc/d"));
    // Letters match as they are spelled.
    assert!(!path_covers("SRC/auth", "src/auth/login.rs"));
    assert!(!path_covers("src/Auth", "src/auth/login.rs"));
    assert!(!path_covers("SRC/auth", "src/auth"));
}

#[test]
fn hashes_and_causes_are_looked_up() {
    let mut store = Store::open_in_memory();
    let a = store.stage_decision(&minimal("a")).unwrap();
    let mut other = minimal("b");
    other.anchors[0].symbol_path = Some("Other::name".into());
    other.caused_by = vec![a.clone()];
    let b = store.stage_decision(&other).unwrap();
    assert_eq!(
        store.symbol_paths_for_hash("h_abc"),
        vec!["AuthService::authenticate", "Other::name"]
    );
    assert!(store.symbol_paths_for_hash("h_none").is_empty());
    assert_eq!(store.decision_ids_caused_by(&a), vec![b.clone()]);
    assert!(store.decision_ids_caused_by(&b).is_empty());
    let mut newest_first = vec![a, b];
    newest_first.sort();
    newest_first.reverse();
    assert_eq!(store.decision_ids_by_hash("h_abc"), newest_first);
    assert_eq!(store.decision_ids_by_file("src/auth.rs"), newest_first);
    assert_eq!(store.decision_ids_under_path("src"), newest_first);
    assert_eq!(store.anchors_under_path("src").len(), 2);
}

#[test]
fn anchors_and_invariants_are_looked_up_by_id() {
    let mut store = Store::open_in_memory();
    let id = store.stage_decision(&minimal("anchored")).unwrap();
    assert_eq!(store.anchors_for(&id), minimal("anchored").anchors);
    assert!(store.anchors_for("nope").is_empty());
    let inv = store.insert_invariant(&id, "never", None).unwrap();
    assert!(store.invariant_exists(&inv));
    assert!(!store.invariant_exists("nope"));
    assert_eq!(
        store.invariants_declared_by(&id),
        vec![(inv, "never".to_string(), None)]
    );
}

#[test]
fn an_import_makes_no_binding_up() {
    let mut store = Store::open_in_memory();
    let template = {
        let id = store.stage_decision(&minimal("template")).unwrap();
        store.get_decision(&id).unwrap()
    };
    let bare = StoredDecision { id: "01D".into(), staged: false, binding: None, ..template.clone() };
    let bound = StoredDecision {
        id: "01E".into(),
        staged: false,
        binding: Some(Binding::NoCommit),
        ..template.clone()
    };
    let before = store.sealed_decision_ids(None);
    let err = store.import_all(&[], &[bound.clone(), bare.clone()], &[]).unwrap_err();
    assert_eq!(err, StoreError::Malformed);
    assert!(!store.decision_exists("01D") && !store.decision_exists("01E"));
    assert_eq!(store.sealed_decision_ids(None), before);
    // Without the record that names none, the batch goes in as it is.
    let (counts, _) = store.import_all(&[], &[bound], &[]).unwrap();
    assert_eq!(counts.decisions, 1);
    assert_eq!(store.get_decision("01E").unwrap().binding, Some(Binding::NoCommit));
    // Of records with the same id the first counts.
    let twice = |a: &StoredDecision, b: &StoredDecision| {
        [a.clone(), b.clone()].map(|d| StoredDecision { id: "01F".into(), ..d })
    };
    let named = store.get_decision("01E").unwrap();
    let err = store.import_all(&[], &twice(&bare, &named), &[]).unwrap_err();
    assert_eq!(err, StoreError::Malformed);
    let (counts, skipped) = store.import_all(&[], &twice(&named, &bare), &[]).unwrap();
    assert_eq!((counts.decisions, skipped), (1, 1));
    assert_eq!(store.get_decision("01F").unwrap().binding, Some(Binding::NoCommit));
    // One that the log has already is skipped, whatever it names.
    let known = StoredDecision { id: "01E".into(), ..bare };
    assert_eq!(store.import_all(&[], &[known], &[]).unwrap(), (ImportCounts::default(), 1));
}
