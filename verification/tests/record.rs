//! Recording a decision.
use dlog::cli::RecordArgs;
use dlog::commands::record::{
    collect_anchors, enrich_anchor, file_anchor, git_changed_files, is_store_path, parse_anchor,
    parse_porcelain, parse_rejected, resolve_rationale, run, wants_source, RecordInputs,
};
use dlog::commands::{RootSource, Workspace};
use dlog::store::Store;

/// A workspace rooted at `/proj`, so anchor normalization is exercised without depending
/// on the process cwd.
fn workspace() -> Workspace {
    Workspace::rooted("/proj", RootSource::Dlog, None)
}

#[test]
fn parse_anchor_plain_file() {
    let a = parse_anchor("src/lib.rs", &workspace(), "/proj");
    assert_eq!(a.file, "src/lib.rs");
    assert!(a.line_span.is_none());
    assert!(a.symbol_path.is_none());
}

#[test]
fn parse_anchor_single_line_and_range() {
    let (ws, cwd) = (workspace(), "/proj");
    assert_eq!(parse_anchor("src/lib.rs:12", &ws, cwd).line_span, Some((12, 12)));
    assert_eq!(parse_anchor("src/lib.rs:10-45", &ws, cwd).line_span, Some((10, 45)));
}

#[test]
fn parse_anchor_non_line_suffix_is_part_of_path() {
    // A trailing colon that isn't a line spec stays in the path.
    let a = parse_anchor("weird:name", &workspace(), "/proj");
    assert_eq!(a.file, "weird:name");
    assert!(a.line_span.is_none());
}

#[test]
fn parse_anchor_normalizes_against_the_workspace_root() {
    let ws = workspace();
    // Recorded from a subdirectory: stored as if recorded from the root.
    let a = parse_anchor("lib.rs:12", &ws, "/proj/src");
    assert_eq!(a.file, "src/lib.rs");
    assert_eq!(a.line_span, Some((12, 12)));

    // An absolute path inside the root collapses to the same anchor.
    let a = parse_anchor("/proj/src/lib.rs", &ws, "/proj/src");
    assert_eq!(a.file, "src/lib.rs");

    // Outside the workspace: kept absolute rather than silently rewritten.
    let a = parse_anchor("/etc/hosts", &ws, "/proj/src");
    assert_eq!(a.file, "/etc/hosts");
}

#[test]
fn parse_rejected_with_and_without_reason() {
    let r = parse_rejected("polling :: wasteful");
    assert_eq!(r.approach, "polling");
    assert_eq!(r.reason, "wasteful");

    let r = parse_rejected("just the approach");
    assert_eq!(r.approach, "just the approach");
    assert_eq!(r.reason, "");
}

#[test]
fn store_paths_are_not_anchored() {
    // `.dlog/` shows up as untracked in every repo that uses dlog.
    assert!(is_store_path(".dlog"));
    assert!(is_store_path(".dlog/dlog.db"));
    assert!(!is_store_path(".dlogger/x.rs"));
    assert!(!is_store_path("src/.dlog.rs"));
}

#[test]
fn parse_porcelain_extracts_changed_paths() {
    let text = " M src/a.rs\n?? src/new.rs\nA  src/added.rs\nR  src/old.rs -> src/renamed.rs\n";
    assert_eq!(
        parse_porcelain(text),
        vec!["src/a.rs", "src/new.rs", "src/added.rs", "src/renamed.rs"],
    );
    assert!(parse_porcelain("").is_empty());
}

#[test]
fn porcelain_paths_are_unquoted_and_short_lines_skipped() {
    assert_eq!(
        parse_porcelain("?? \"with space.rs\"\nM\n?? \r\n M  b.rs\r\n"),
        vec!["with space.rs", "b.rs"]
    );
    // The names may hold any letters; what counts is the three bytes in front.
    assert_eq!(parse_porcelain("?? \u{e4}.rs\n"), vec!["\u{e4}.rs"]);
}

#[test]
fn changed_files_are_taken_from_the_git_toplevel() {
    let ws = workspace();
    let porcelain = " M src/a.rs\n?? .dlog/dlog.db\n?? ../up.rs\n";
    assert_eq!(git_changed_files(&ws, "/proj/src", "/proj", porcelain), vec!["src/a.rs", "/up.rs"]);
    assert_eq!(git_changed_files(&ws, "/proj", "/proj/sub", " M x.rs\n"), vec!["sub/x.rs"]);
}

#[test]
fn rationale_is_verbatim_or_piped_and_never_blank() {
    assert_eq!(resolve_rationale(" as is ", "ignored").unwrap(), " as is ");
    assert_eq!(resolve_rationale("-", "piped prose\n\n").unwrap(), "piped prose");
    assert_eq!(resolve_rationale("-", " \n").unwrap_err().code, "empty_rationale");
    assert_eq!(resolve_rationale("\u{2003}", "x").unwrap_err().message, "rationale must not be empty");
}

fn record_args() -> RecordArgs {
    RecordArgs {
        rationale: "switch to exponential backoff for retries".into(),
        files: vec!["src/auth.rs:10-45".into()],
        changed: false,
        agent_role: "implementer".into(),
        agent_model: "model-test".into(),
        agent_session: None,
        author: None,
        conversation_id: None,
        task_id: None,
        instruction: None,
        rejected: vec!["polling :: wasteful".into()],
        caused_by: vec![],
        supersedes: None,
        declares_invariant: vec!["tokens never logged".into()],
        invariant_scope: Some("src/auth".into()),
        db: None,
    }
}

fn inputs(args: &RecordArgs, sources: Vec<Option<String>>) -> RecordInputs {
    RecordInputs {
        rationale: resolve_rationale(&args.rationale, "").unwrap(),
        anchors: collect_anchors(args, &workspace(), "/proj", &vec![]).unwrap(),
        sources,
        sha: Some("deadbeef".into()),
    }
}

#[test]
fn record_stages_decision_with_anchor_rejected_and_invariant() {
    let mut store = Store::open_in_memory();
    let args = record_args();
    let reply = run(&mut store, &args, &inputs(&args, vec![None])).expect("record should succeed");
    assert!(reply.staged);

    let hits = store.search("backoff").unwrap();
    assert_eq!(hits.len(), 1, "decision should be searchable");
    assert_eq!(hits[0], reply.id);

    let d = store.get_decision(&hits[0]).unwrap();
    assert!(d.staged, "freshly recorded decision is staged");
    assert!(d.binding.is_none());
    assert_eq!(d.anchors[0].file, "src/auth.rs");
    assert_eq!(d.anchors[0].line_span, Some((10, 45)));
    assert_eq!(d.anchors[0].recorded_at_sha.as_deref(), Some("deadbeef"));
    assert_eq!(d.rejected[0].approach, "polling");

    let invariants = store.live_invariants();
    assert_eq!(invariants.len(), 1);
    assert_eq!(invariants[0].1, "tokens never logged");
    assert_eq!(reply.declared_invariants, vec![invariants[0].0.clone()]);
}

#[test]
fn record_links_task_and_records_instruction() {
    let mut store = Store::open_in_memory();
    let mut args = record_args();
    args.task_id = Some("tsk_demo".into());
    args.instruction = Some("make the client resilient".into());
    run(&mut store, &args, &inputs(&args, vec![])).expect("record with task should succeed");

    let id = &store.search("backoff").unwrap()[0];
    let d = store.get_decision(id).unwrap();
    assert_eq!(d.task_id.as_deref(), Some("tsk_demo"));
    assert_eq!(
        store.get_task("tsk_demo").unwrap().instruction.as_deref(),
        Some("make the client resilient")
    );
}

#[test]
fn record_enriches_anchor_from_rust_source() {
    let source = "impl AuthService {\n    fn authenticate(&self) -> bool {\n        true\n    }\n}\n";
    let mut store = Store::open_in_memory();
    let mut args = record_args();
    // Line 3 (`true`) is inside AuthService::authenticate.
    args.files = vec!["auth.rs:3".into()];
    run(&mut store, &args, &inputs(&args, vec![Some(source.into())])).expect("record should succeed");

    let id = &store.search("backoff").unwrap()[0];
    let d = store.get_decision(id).unwrap();
    let anchor = &d.anchors[0];
    assert_eq!(anchor.symbol_path.as_deref(), Some("AuthService::authenticate"));
    assert_eq!(anchor.node_kind.as_deref(), Some("method"));
    assert!(anchor.structural_hash.is_some());
    assert_eq!(anchor.line_span, Some((2, 4)));
}

#[test]
fn anchors_that_tell_no_more_stay_as_they_are() {
    let mut anchor = file_anchor("notes.md".into());
    anchor.line_span = Some((3, 3));
    assert!(!wants_source(&anchor));
    assert_eq!(enrich_anchor(&anchor, Some("fn f() {}")), anchor);
    let mut anchor = file_anchor("a.rs".into());
    assert!(!wants_source(&anchor));
    anchor.line_span = Some((9, 9));
    assert!(wants_source(&anchor));
    assert_eq!(enrich_anchor(&anchor, Some("fn f() {}")), anchor, "no definition there");
    assert_eq!(enrich_anchor(&anchor, None), anchor, "nothing to read");
}

#[test]
fn changed_files_join_the_named_ones_once() {
    let mut args = record_args();
    args.changed = true;
    let changed = vec!["src/auth.rs".to_string(), "src/new.rs".to_string(), "src/new.rs".to_string()];
    let anchors = collect_anchors(&args, &workspace(), "/proj", &changed).unwrap();
    let files: Vec<&str> = anchors.iter().map(|a| a.file.as_str()).collect();
    assert_eq!(files, vec!["src/auth.rs", "src/new.rs"]);
    args.changed = false;
    args.files = vec![];
    let e = collect_anchors(&args, &workspace(), "/proj", &changed).unwrap_err();
    assert_eq!(e.code, "missing_anchor");
    assert_eq!(e.message, "record requires an anchor: pass --file or --changed");
}

#[test]
fn a_dangling_supersedes_is_refused_but_the_task_stays() {
    let mut store = Store::open_in_memory();
    let mut args = record_args();
    args.task_id = Some("tsk".into());
    args.supersedes = Some("nope".into());
    let e = run(&mut store, &args, &inputs(&args, vec![])).unwrap_err();
    assert_eq!(e.code, "store_error");
    assert_eq!(e.message, "FOREIGN KEY constraint failed");
    assert!(store.task_exists("tsk"));
    assert_eq!(store.status().staging_count, 0);
}
