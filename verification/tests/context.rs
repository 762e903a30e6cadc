//! The summary of a file or directory.
use dlog::cli::ContextArgs;
use dlog::commands::compact::CompactRow;
use dlog::commands::context::{
    invariants_for, run, ContextEnvelope, ContextRows, FileRollup, INVARIANT_CAP,
};
use dlog::commands::{RootSource, Workspace};
use dlog::model::{Agent, Anchor, NewDecision};
use dlog::store::Store;

/// A workspace rooted at `/proj`, so path normalization is exercised without
/// depending on the process cwd.
fn workspace() -> Workspace {
    Workspace::rooted("/proj", RootSource::Dlog, None)
}

fn root() -> &'static str {
    "/proj"
}

fn seed(store: &mut Store, file: &str, rationale: &str) -> String {
    // Ids in the order of seeding: two made in one millisecond would sort by chance.
    let n = store.status().staging_count;
    let id = format!("01D{n:04}");
    store
        .stage_decision_as(
            &id,
            n as i64,
            &NewDecision {
                task_id: None,
                agent: Agent {
                    role: "implementer".into(),
                    model: "model-test".into(),
                    session_id: None,
                    author: None,
                },
                conversation_id: None,
                rationale: rationale.into(),
                rejected: vec![],
                caused_by: vec![],
                supersedes: None,
                anchors: vec![Anchor {
                    file: file.into(),
                    symbol_path: None,
                    node_kind: None,
                    structural_hash: None,
                    line_span: None,
                    recorded_at_sha: None,
                }],
            },
        )
        .unwrap();
    id
}

fn context_args(path: &str) -> ContextArgs {
    ContextArgs {
        path: path.into(),
        rollup: false,
        // Tests that predate the rollup assert on the decision stream.
        flat: true,
        no_invariants: true,
        include_superseded: false,
        limit: 20,
        budget: 0,
        db: None,
    }
}

fn flat_rows(env: &ContextEnvelope) -> &Vec<CompactRow> {
    match &env.results {
        ContextRows::Flat(rows) => rows,
        ContextRows::Rollup(_) => panic!("expected flat results"),
    }
}

fn rollup_rows(env: &ContextEnvelope) -> &Vec<FileRollup> {
    match &env.results {
        ContextRows::Rollup(rows) => rows,
        ContextRows::Flat(_) => panic!("expected rollup results"),
    }
}

fn ids(env: &ContextEnvelope) -> Vec<String> {
    flat_rows(env).iter().map(|r| r.id.clone()).collect()
}

#[test]
fn directory_aggregates_decisions_under_it() {
    let mut store = Store::open_in_memory();
    let login = seed(&mut store, "src/auth/login.rs", "a");
    let token = seed(&mut store, "src/auth/token.rs", "b");
    seed(&mut store, "src/net/client.rs", "c");

    let env = run(&store, &workspace(), root(), &context_args("src/auth"));
    let got = ids(&env);
    assert_eq!(got.len(), 2);
    assert!(got.contains(&login) && got.contains(&token));
}

#[test]
fn exact_file_path_matches_that_file() {
    let mut store = Store::open_in_memory();
    let c = seed(&mut store, "src/net/client.rs", "c");
    seed(&mut store, "src/auth/login.rs", "a");

    let env = run(&store, &workspace(), root(), &context_args("src/net/client.rs"));
    assert_eq!(ids(&env), vec![c]);
}

#[test]
fn respects_path_component_boundary() {
    // `src/au` must not match `src/auth/...` (the `/` boundary).
    let mut store = Store::open_in_memory();
    seed(&mut store, "src/auth/login.rs", "a");

    let env = run(&store, &workspace(), root(), &context_args("src/au"));
    assert!(flat_rows(&env).is_empty());
}

#[test]
fn dot_at_the_root_covers_the_whole_workspace() {
    let mut store = Store::open_in_memory();
    seed(&mut store, "src/auth/login.rs", "a");
    seed(&mut store, "README.md", "b");

    let env = run(&store, &workspace(), root(), &context_args("."));
    assert_eq!(flat_rows(&env).len(), 2);
    assert_eq!(env.query.path, ".");

    // From a subdirectory, `.` means that subdirectory.
    let env = run(&store, &workspace(), "/proj/src", &context_args("."));
    assert_eq!(flat_rows(&env).len(), 1);
    assert_eq!(env.query.path, "src");
}

#[test]
fn like_metacharacters_in_path_match_literally() {
    // An underscore in the query must not act as a LIKE wildcard.
    let mut store = Store::open_in_memory();
    seed(&mut store, "src/aXb/f.rs", "wild");
    let literal = seed(&mut store, "src/a_b/f.rs", "literal");

    let env = run(&store, &workspace(), root(), &context_args("src/a_b"));
    assert_eq!(
        ids(&env),
        vec![literal],
        "_ must be literal, not a wildcard"
    );
}

#[test]
fn a_directory_rolls_up_per_file_by_default() {
    let mut store = Store::open_in_memory();
    seed(&mut store, "src/auth/login.rs", "first login");
    seed(&mut store, "src/auth/token.rs", "token");
    let newest_login = seed(&mut store, "src/auth/login.rs", "second login");

    let mut args = context_args("src/auth");
    args.flat = false;
    let env = run(&store, &workspace(), root(), &args);

    assert_eq!(env.query.mode, "rollup");
    let rows = rollup_rows(&env);
    assert_eq!(rows.len(), 2, "one row per file");
    // Newest-first across files: login.rs holds the newest decision.
    assert_eq!(rows[0].file, "src/auth/login.rs");
    assert_eq!(rows[0].count, 2);
    assert_eq!(rows[0].latest.id, newest_login);
    assert_eq!(rows[1].file, "src/auth/token.rs");
    assert_eq!(rows[1].count, 1);
}

#[test]
fn a_single_file_answers_flat_and_flat_forces_the_stream() {
    let mut store = Store::open_in_memory();
    seed(&mut store, "src/auth/login.rs", "a");
    seed(&mut store, "src/auth/login.rs", "b");

    // Everything under the path lives in one file -> nothing to group.
    let mut args = context_args("src/auth");
    args.flat = false;
    let env = run(&store, &workspace(), root(), &args);
    assert_eq!(env.query.mode, "flat");
    assert_eq!(flat_rows(&env).len(), 2);

    // ...but `--rollup` still groups it explicitly.
    args.rollup = true;
    let env = run(&store, &workspace(), root(), &args);
    assert_eq!(env.query.mode, "rollup");
    assert_eq!(rollup_rows(&env)[0].count, 2);

    // And `--flat` on a multi-file directory keeps the old stream.
    seed(&mut store, "src/auth/token.rs", "c");
    let env = run(&store, &workspace(), root(), &context_args("src/auth"));
    assert_eq!(env.query.mode, "flat");
    assert_eq!(flat_rows(&env).len(), 3);
}

#[test]
fn a_decision_spanning_two_files_counts_once_per_file_but_lists_once_flat() {
    let mut store = Store::open_in_memory();
    let both = store
        .stage_decision(&NewDecision {
            task_id: None,
            agent: Agent {
                role: "implementer".into(),
                model: "model-test".into(),
                session_id: None,
                author: None,
            },
            conversation_id: None,
            rationale: "spans two files".into(),
            rejected: vec![],
            caused_by: vec![],
            supersedes: None,
            anchors: vec![
                Anchor {
                    file: "src/auth/login.rs".into(),
                    symbol_path: None,
                    node_kind: None,
                    structural_hash: None,
                    line_span: None,
                    recorded_at_sha: None,
                },
                Anchor {
                    file: "src/auth/token.rs".into(),
                    symbol_path: None,
                    node_kind: None,
                    structural_hash: None,
                    line_span: None,
                    recorded_at_sha: None,
                },
            ],
        })
        .unwrap();

    // Flat: one row, not one per anchor.
    let env = run(&store, &workspace(), root(), &context_args("src/auth"));
    assert_eq!(ids(&env), vec![both]);

    // Rollup: it is a decision about each file, so it appears under both.
    let mut args = context_args("src/auth");
    args.flat = false;
    let env = run(&store, &workspace(), root(), &args);
    assert_eq!(rollup_rows(&env).len(), 2);
}

#[test]
fn rollup_respects_budget_and_reports_elided_files() {
    let mut store = Store::open_in_memory();
    for i in 0..10 {
        seed(&mut store, &format!("src/auth/f{i}.rs"), &"detail ".repeat(40));
    }

    let mut args = context_args("src/auth");
    args.flat = false;
    args.budget = 300;
    let env = run(&store, &workspace(), root(), &args);
    let rows = rollup_rows(&env);
    assert!(!rows.is_empty() && rows.len() < 10);
    assert!(env.truncated);
    assert_eq!(env.elided, 10 - rows.len());
}

#[test]
fn superseded_decisions_are_out_of_the_rollup_count() {
    let mut store = Store::open_in_memory();
    let old = seed(&mut store, "src/auth/login.rs", "old");
    store
        .stage_decision(&NewDecision {
            task_id: None,
            agent: Agent {
                role: "implementer".into(),
                model: "model-test".into(),
                session_id: None,
                author: None,
            },
            conversation_id: None,
            rationale: "replacement".into(),
            rejected: vec![],
            caused_by: vec![],
            supersedes: Some(old.clone()),
            anchors: vec![Anchor {
                file: "src/auth/login.rs".into(),
                symbol_path: None,
                node_kind: None,
                structural_hash: None,
                line_span: None,
                recorded_at_sha: None,
            }],
        })
        .unwrap();
    seed(&mut store, "src/auth/token.rs", "other");

    let mut args = context_args("src/auth");
    args.flat = false;
    let env = run(&store, &workspace(), root(), &args);
    let login = rollup_rows(&env)
        .iter()
        .find(|r| r.file == "src/auth/login.rs")
        .unwrap();
    assert_eq!(login.count, 1, "the superseded decision is out of scope");

    args.include_superseded = true;
    let env = run(&store, &workspace(), root(), &args);
    let login = rollup_rows(&env)
        .iter()
        .find(|r| r.file == "src/auth/login.rs")
        .unwrap();
    assert_eq!(login.count, 2);
}

#[test]
fn every_invariant_is_in_effect_at_the_root() {
    let mut store = Store::open_in_memory();
    let dec = seed(&mut store, "src/auth/login.rs", "a");
    for (id, scope) in [("01A", None), ("01B", Some("src/auth")), ("01C", Some("README.md"))] {
        store.insert_invariant_as(id, 1, &dec, "rule", scope).unwrap();
    }
    let (rows, elided) = invariants_for(&store, ".");
    let ids: Vec<&str> = rows.iter().map(|row| row.id.as_str()).collect();
    assert_eq!((ids, elided), (vec!["01A", "01B", "01C"], 0));
    let (rows, _) = invariants_for(&store, "src");
    assert_eq!(rows.iter().map(|row| row.id.as_str()).collect::<Vec<_>>(), vec!["01A", "01B"]);
}

#[test]
fn decisions_under_a_path_match_letter_for_letter() {
    let mut store = Store::open_in_memory();
    seed(&mut store, "SRC/AUTH/login.rs", "x");
    let y = seed(&mut store, "src/auth/token.rs", "y");
    assert_eq!(store.decision_ids_under_path("src/auth"), vec![y]);
}

#[test]
fn invariants_in_effect_ride_along_unless_suppressed() {
    let mut store = Store::open_in_memory();
    let dec = seed(&mut store, "src/auth/login.rs", "a");
    store.insert_invariant(&dec, "global rule", None).unwrap();
    store
        .insert_invariant(&dec, "auth rule", Some("src/auth"))
        .unwrap();
    store
        .insert_invariant(&dec, "net rule", Some("src/net"))
        .unwrap();

    let mut args = context_args("src/auth");
    args.no_invariants = false;
    let env = run(&store, &workspace(), root(), &args);
    let statements: Vec<String> = env
        .invariants
        .as_ref()
        .unwrap()
        .iter()
        .map(|i| i.statement.clone())
        .collect();
    assert!(statements.contains(&"global rule".to_string()));
    assert!(statements.contains(&"auth rule".to_string()));
    assert!(
        !statements.contains(&"net rule".to_string()),
        "a sibling path's invariant is not in effect here"
    );
    assert_eq!(env.invariants_elided, 0);

    // `--no-invariants` drops the field entirely.
    let env = run(&store, &workspace(), root(), &context_args("src/auth"));
    assert!(env.invariants.is_none());
}

#[test]
fn invariants_are_capped_and_report_what_was_dropped() {
    let mut store = Store::open_in_memory();
    let dec = seed(&mut store, "src/auth/login.rs", "a");
    for i in 0..(INVARIANT_CAP + 3) {
        store
            .insert_invariant(&dec, &format!("rule {i}"), Some("src/auth"))
            .unwrap();
    }

    let mut args = context_args("src/auth");
    args.no_invariants = false;
    let env = run(&store, &workspace(), root(), &args);
    assert_eq!(env.invariants.as_ref().unwrap().len(), INVARIANT_CAP);
    assert_eq!(env.invariants_elided, 3);
}
