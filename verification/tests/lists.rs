//! Compact rows, lists and details.
use dlog::cli::{InvariantsArgs, SearchArgs, ShowArgs, WhyArgs};
use dlog::commands::compact::{
    adaptive_width, collect, row_cost, row_from, row_from_at, summarize, SUMMARY_FLOOR, SUMMARY_MAX,
};
use dlog::commands::invariants::scope_matches;
use dlog::commands::status::stranded;
use dlog::commands::why::{build_query_node, source_wanted};
use dlog::commands::{invariants, search, show, status, why, RootSource, Workspace};
use dlog::fts::fts5_literal_query;
use dlog::model::{Agent, Anchor, Binding, NewDecision, Rejected};
use dlog::output::Resolution;
use dlog::store::Store;

fn decision(rationale: &str, file: &str) -> NewDecision {
    NewDecision {
        task_id: None,
        agent: Agent {
            role: "implementer".into(),
            model: "model-test".into(),
            session_id: None,
            author: None,
        },
        conversation_id: None,
        rationale: rationale.into(),
        rejected: vec![],
        caused_by: vec![],
        supersedes: None,
        anchors: vec![Anchor {
            file: file.into(),
            symbol_path: None,
            node_kind: None,
            structural_hash: None,
            line_span: None,
            recorded_at_sha: None,
        }],
    }
}

fn store_with(n: usize, rationale: &str) -> (Store, Vec<String>) {
    let mut store = Store::open_in_memory();
    let mut ids = Vec::new();
    for _ in 0..n {
        ids.push(store.stage_decision(&decision(rationale, "f.rs")).unwrap());
    }
    // Newest-first, matching how callers order candidates.
    ids.reverse();
    (store, ids)
}

#[test]
fn summarize_caps_at_width() {
    let long = "x".repeat(200);
    assert_eq!(summarize(&long, 10).chars().count(), 11); // 10 + ellipsis
    assert_eq!(summarize("short", 140), "short");
    assert_eq!(summarize("a\nb", 140), "a"); // first line only
    assert_eq!(summarize(&long, 10), "xxxxxxxxxx\u{2026}");
    assert_eq!(summarize("", 3), "");
    assert_eq!(summarize("a\r\nb", 3), "a");
}

#[test]
fn budget_bounds_rows_and_reports_elided() {
    let (store, ids) = store_with(10, &"detail ".repeat(40));
    // Tiny budget keeps far fewer than 10; elided accounts for the rest.
    let (rows, truncated, elided) = collect(&store, &ids, false, 100, 300);
    assert!(rows.len() < 10 && !rows.is_empty());
    assert!(truncated);
    assert_eq!(elided, 10 - rows.len());

    // budget 0 = unbounded: all 10 within the count limit, nothing elided.
    let (rows, truncated, elided) = collect(&store, &ids, false, 100, 0);
    assert_eq!(rows.len(), 10);
    assert!(!truncated);
    assert_eq!(elided, 0);
}

#[test]
fn a_page_is_as_long_as_its_budget() {
    // Four rows of 100 + 96 each.
    let (store, ids) = store_with(4, &"y".repeat(100));
    let (rows, _, _) = collect(&store, &ids, false, 100, 4 * 196);
    assert_eq!(rows.len(), 4);
    let cost: usize = rows.iter().map(row_cost).sum();
    assert_eq!(cost, 4 * 196);
    // However tight the budget, there is one row.
    let (rows, truncated, elided) = collect(&store, &ids, false, 100, 1);
    assert_eq!((rows.len(), truncated, elided), (1, true, 3));
    // Unknown ids have no row, and count as left out.
    let (rows, truncated, elided) = collect(&store, &vec!["nope".to_string()], false, 100, 0);
    assert_eq!((rows.len(), truncated, elided), (0, true, 1));
}

#[test]
fn adaptive_width_shrinks_under_tight_budget() {
    // Many candidates + small budget -> narrow summaries (at the floor);
    // generous budget -> full width.
    assert_eq!(adaptive_width(0, 50), SUMMARY_MAX);
    assert_eq!(adaptive_width(100, 50), SUMMARY_FLOOR);
    assert_eq!(adaptive_width(1_000_000, 1), SUMMARY_MAX);
    let mid = adaptive_width(4096, 10);
    assert!((SUMMARY_FLOOR..=SUMMARY_MAX).contains(&mid));
    assert_eq!(adaptive_width(2000, 10), 104);
    assert_eq!(adaptive_width(200, 0), 104);
}

#[test]
fn limit_still_caps_rows() {
    let (store, ids) = store_with(10, "short");
    let (rows, truncated, elided) = collect(&store, &ids, false, 3, 0);
    assert_eq!(rows.len(), 3);
    assert!(truncated);
    assert_eq!(elided, 7);
}

#[test]
fn rows_carry_the_flags() {
    let mut store = Store::open_in_memory();
    let id = store.stage_decision(&decision("why\nmore", "f.rs")).unwrap();
    let d = store.get_decision(&id).unwrap();
    let row = row_from(&d, true);
    assert_eq!(row.id, id);
    assert_eq!(row.rationale_summary, "why");
    assert!(row.staged && row.superseded && row.binding.is_none());
    assert_eq!(row.ts, d.created_at_ms);
    assert_eq!(row_from_at(&d, false, 2).rationale_summary, "wh\u{2026}");
    assert_eq!(row_cost(&row), 3 + 96);
}

#[test]
fn scope_matching_rules() {
    assert!(scope_matches(&None, "anything")); // global
    assert!(scope_matches(&Some("src/auth".into()), "src/auth"));
    assert!(scope_matches(&Some("src/auth".into()), "src/auth/login.rs")); // ancestor in effect
    assert!(scope_matches(&Some("src/auth/login.rs".into()), "src/auth")); // under subtree
    assert!(!scope_matches(&Some("src/auth".into()), "src/net"));
    assert!(!scope_matches(&Some("src/au".into()), "src/auth"));
}

#[test]
fn a_dot_contains_every_scope() {
    for scope in ["src/auth", "README.md", ".", "/etc/hosts"] {
        assert!(scope_matches(&Some(scope.into()), "."), "{scope}");
        assert!(scope_matches(&Some(".".into()), scope), "{scope}");
    }
    assert!(scope_matches(&None, "."));

    let mut store = Store::open_in_memory();
    let id = store.stage_decision(&decision("rules", "src/lib.rs")).unwrap();
    for scope in [None, Some("src/auth"), Some("README.md")] {
        store.insert_invariant(&id, "holds", scope).unwrap();
    }
    let args = InvariantsArgs { scope: Some(".".into()), db: None };
    let mut scopes: Vec<Option<String>> =
        invariants::run(&store, &args).results.into_iter().map(|row| row.scope).collect();
    scopes.sort();
    assert_eq!(scopes, vec![None, Some("README.md".to_string()), Some("src/auth".to_string())]);
}

#[test]
fn lists_all_then_filters_by_scope() {
    let mut store = Store::open_in_memory();
    let dec = store.stage_decision(&decision("decl", "src/lib.rs")).unwrap();
    store.insert_invariant(&dec, "global rule", None).unwrap();
    store.insert_invariant(&dec, "auth rule", Some("src/auth")).unwrap();
    store.insert_invariant(&dec, "net rule", Some("src/net")).unwrap();

    // No scope -> all three.
    let all = store.list_live_invariants();
    assert_eq!(all.len(), 3);
    assert_eq!(invariants::run(&store, &InvariantsArgs { scope: None, db: None }).results, all);

    // Scope src/auth -> global + auth rule, not net.
    let args = InvariantsArgs { scope: Some("src/auth".into()), db: None };
    let matched: Vec<String> =
        invariants::run(&store, &args).results.iter().map(|row| row.statement.clone()).collect();
    assert!(matched.contains(&"global rule".to_string()));
    assert!(matched.contains(&"auth rule".to_string()));
    assert!(!matched.contains(&"net rule".to_string()));
}

fn search_args(text: &str) -> SearchArgs {
    SearchArgs { text: text.into(), include_superseded: false, limit: 20, budget: 0, db: None }
}

#[test]
fn search_finds_decision_by_rationale_text() {
    let mut store = Store::open_in_memory();
    let id = store
        .stage_decision(&decision("switch to exponential backoff for retries", "src/lib.rs"))
        .unwrap();
    store.stage_decision(&decision("unrelated styling tweak", "src/lib.rs")).unwrap();

    let env = search::run(&store, &search_args("backoff")).unwrap();
    assert_eq!(env.results.len(), 1);
    assert_eq!(env.results[0].id, id);
    assert!(env.resolved.is_none(), "search resolves no anchor");
    assert_eq!(env.query.kind, "search");
    assert_eq!(env.query.text, "backoff");
}

#[test]
fn search_no_match_is_empty() {
    let mut store = Store::open_in_memory();
    store.stage_decision(&decision("something else entirely", "src/lib.rs")).unwrap();
    let env = search::run(&store, &search_args("nonexistentterm")).unwrap();
    assert!(env.results.is_empty());
    assert!(search::run(&store, &search_args(" \t ")).unwrap().results.is_empty());
}

#[test]
fn search_reads_rejected_alternatives_and_hides_superseded() {
    let mut store = Store::open_in_memory();
    let mut d = decision("use a queue", "src/lib.rs");
    d.rejected = vec![Rejected { approach: "polling loop".into(), reason: "wasteful".into() }];
    let old = store.stage_decision(&d).unwrap();
    let env = search::run(&store, &search_args("polling wasteful")).unwrap();
    assert_eq!(env.results[0].id, old);
    let mut newer = decision("use a stream instead of polling", "src/lib.rs");
    newer.supersedes = Some(old.clone());
    let new = store.stage_decision(&newer).unwrap();
    let env = search::run(&store, &search_args("polling")).unwrap();
    assert_eq!(env.results.len(), 1);
    assert_eq!(env.results[0].id, new);
    let mut args = search_args("polling");
    args.include_superseded = true;
    assert_eq!(search::run(&store, &args).unwrap().results.len(), 2);
}

#[test]
fn queries_are_quoted_word_by_word() {
    assert_eq!(fts5_literal_query("  a \"b\"  c*"), "\"a\" \"\"\"b\"\"\" \"c*\"");
    assert_eq!(fts5_literal_query(" \u{a0} "), "");
}

#[test]
fn show_returns_full_record_with_invariants_and_flags_missing() {
    let mut store = Store::open_in_memory();
    let mut d = decision("guard against null token", "src/auth.rs");
    d.anchors[0].symbol_path = Some("AuthService::authenticate".into());
    d.anchors[0].node_kind = Some("method".into());
    d.anchors[0].structural_hash = Some("h1".into());
    d.anchors[0].line_span = Some((10, 20));
    let id = store.stage_decision(&d).unwrap();
    store.insert_invariant(&id, "tokens never logged", Some("src/auth")).unwrap();

    let args = ShowArgs { ids: vec![id.clone(), "missing_id".into()], db: None };
    let reply = show::run(&store, &args);
    assert_eq!(reply.results.len(), 1);
    let shown = &reply.results[0];
    assert_eq!(shown.decision.rationale, "guard against null token");
    assert_eq!(shown.declares_invariants.len(), 1);
    assert_eq!(shown.declares_invariants[0].statement, "tokens never logged");
    assert_eq!(shown.declares_invariants[0].scope.as_deref(), Some("src/auth"));
    assert_eq!(reply.missing, vec!["missing_id"]);
}

fn stage(store: &mut Store, task_id: Option<&str>, rationale: &str) -> String {
    let mut d = decision(rationale, "src/lib.rs");
    d.task_id = task_id.map(str::to_string);
    store.stage_decision(&d).unwrap()
}

#[test]
fn stranded_names_unfinished_tasks_that_still_hold_staging() {
    let mut store = Store::open_in_memory();
    assert!(stranded(&store).is_empty());

    let left_behind = store.insert_task(None, Some("investigate the flake")).unwrap();
    let finished = store.insert_task(None, None).unwrap();
    stage(&mut store, Some(&left_behind), "one");
    stage(&mut store, Some(&left_behind), "two");
    let theirs = stage(&mut store, Some(&finished), "sealed at task end");
    store.seal_staged(&Binding::NoCommit, Some(&[theirs])).unwrap();
    store.complete_task(&finished).unwrap();
    // Task-less staging shows up in staging_count but under no task.
    stage(&mut store, None, "recorded without a task");

    let rows = stranded(&store);
    assert_eq!(rows.len(), 1);
    assert_eq!(rows[0].task, left_behind);
    assert_eq!(rows[0].instruction_summary.as_deref(), Some("investigate the flake"));
    assert_eq!(rows[0].staged_count, 2);
    assert!(rows[0].oldest_staged_ms > 0);

    let status = store.status();
    assert_eq!(status.stranded_task_count, 1);
    assert_eq!(status.staging_count, 3, "the task-less one still counts");
}

#[test]
fn status_runs_against_a_store() {
    let mut store = Store::open_in_memory();
    stage(&mut store, None, "pending");
    let ws = Workspace::rooted("/proj", RootSource::Git, None);
    let reply = status::run(&store, &ws);
    assert_eq!(reply.root, "/proj");
    assert_eq!(reply.db, "/proj/.dlog/dlog.db");
    assert_eq!(reply.root_source, RootSource::Git);
    assert_eq!(reply.store.staging_count, 1);
    assert_eq!(reply.store.schema_version, 3);
    assert!(reply.stranded_tasks.is_empty());
}

// ---- why --------------------------------------------------------------------

fn seed(store: &mut Store, rationale: &str, symbol: Option<&str>, supersedes: Option<&str>) -> String {
    let mut d = decision(rationale, "src/auth.rs");
    d.anchors[0].symbol_path = symbol.map(str::to_string);
    d.supersedes = supersedes.map(str::to_string);
    store.stage_decision(&d).unwrap()
}

fn why_args(target: &str) -> WhyArgs {
    WhyArgs { target: target.into(), include_superseded: false, limit: 20, budget: 0, db: None }
}

fn ws() -> Workspace {
    Workspace::rooted("/proj", RootSource::Dlog, None)
}

#[test]
fn build_query_node_classifies_targets() {
    assert_eq!(
        build_query_node("AuthService::authenticate", &ws(), "/proj", None).symbol_path.as_deref(),
        Some("AuthService::authenticate")
    );
    let file = build_query_node("README.md", &ws(), "/proj", None);
    assert_eq!(file.file.as_deref(), Some("README.md"));
    assert!(file.symbol_path.is_none());
}

#[test]
fn a_line_means_the_definition_around_it() {
    let source = "fn outer() {\n    let x = 1;\n}\n";
    assert_eq!(source_wanted("lib.rs:2").as_deref(), Some("lib.rs"));
    assert_eq!(source_wanted("lib.txt:2"), None);
    assert_eq!(source_wanted("lib.rs"), None);
    let node = build_query_node("lib.rs:2", &ws(), "/proj/src", Some(source));
    assert_eq!(node.file.as_deref(), Some("src/lib.rs"));
    assert_eq!(node.symbol_path.as_deref(), Some("outer"));
    assert!(node.structural_hash.is_some());
    let node = build_query_node("lib.rs:9-12", &ws(), "/proj/src", Some(source));
    assert_eq!(node.file.as_deref(), Some("src/lib.rs"));
    assert!(node.symbol_path.is_none());
    let node = build_query_node("a/b", &ws(), "/proj", None);
    assert_eq!(node.file.as_deref(), Some("a/b"));
    let node = build_query_node("mod.x::y", &ws(), "/proj", None);
    assert_eq!(node.symbol_path.as_deref(), Some("mod.x::y"));
}

#[test]
fn why_symbol_returns_matching_decision_as_drifted() {
    let mut store = Store::open_in_memory();
    let id = seed(&mut store, "add retry with backoff", Some("AuthService::authenticate"), None);

    let env = why::run(&store, &ws(), "/proj", &why_args("AuthService::authenticate"), None);
    // Symbol-only query can't confirm the hash, so it's drifted.
    assert_eq!(env.resolved.as_ref().unwrap().resolution, Resolution::Drifted);
    assert_eq!(env.resolved.as_ref().unwrap().node, "AuthService::authenticate");
    assert_eq!(env.results.len(), 1);
    assert_eq!(env.results[0].id, id);
    assert_eq!(env.results[0].rationale_summary, "add retry with backoff");
    assert!(env.results[0].staged);
}

#[test]
fn why_excludes_superseded_by_default() {
    let mut store = Store::open_in_memory();
    let old = seed(&mut store, "first attempt", Some("svc::f"), None);
    let new = seed(&mut store, "revised", Some("svc::f"), Some(&old));

    let env = why::run(&store, &ws(), "/proj", &why_args("svc::f"), None);
    let ids: Vec<&str> = env.results.iter().map(|r| r.id.as_str()).collect();
    assert_eq!(ids, vec![new.as_str()], "superseded `old` is hidden");

    let mut args = why_args("svc::f");
    args.include_superseded = true;
    let env = why::run(&store, &ws(), "/proj", &args, None);
    assert_eq!(env.results.len(), 2);
    let superseded_row = env.results.iter().find(|r| r.id == old).unwrap();
    assert!(superseded_row.superseded);
}

#[test]
fn why_file_fallback_when_symbol_unknown() {
    let mut store = Store::open_in_memory();
    seed(&mut store, "x", Some("svc::f"), None);

    let env = why::run(&store, &ws(), "/proj", &why_args("totally::unknown"), None);
    assert_eq!(env.resolved.unwrap().resolution, Resolution::FileFallback);
    assert!(env.results.is_empty());
}

#[test]
fn why_takes_paths_from_the_current_directory() {
    let mut store = Store::open_in_memory();
    let id = seed(&mut store, "about the file", None, None);
    let env = why::run(&store, &ws(), "/proj/src", &why_args("auth.rs"), None);
    assert_eq!(env.resolved.as_ref().unwrap().resolution, Resolution::FileFallback);
    assert_eq!(env.resolved.as_ref().unwrap().node, "src/auth.rs");
    assert_eq!(env.results[0].id, id);
}

#[test]
fn why_truncates_and_flags() {
    let mut store = Store::open_in_memory();
    for i in 0..3 {
        seed(&mut store, &format!("decision {i}"), Some("svc::f"), None);
    }
    let mut args = why_args("svc::f");
    args.limit = 2;
    let env = why::run(&store, &ws(), "/proj", &args, None);
    assert_eq!(env.results.len(), 2);
    assert!(env.truncated);
    assert_eq!(env.elided, 1);
}
