//! Query-time anchor resolution.
use dlog::model::{Agent, Anchor, NewDecision};
use dlog::output::Resolution;
use dlog::resolve::{resolve, QueryNode};
use dlog::store::Store;


/// Stage a decision carrying a single anchor with the given observations.
fn seed(store: &mut Store, file: &str, symbol: Option<&str>, hash: Option<&str>) -> String {
    store
        .stage_decision(&NewDecision {
            task_id: None,
            agent: Agent {
                role: "implementer".into(),
                model: "model-test".into(),
                session_id: None,
                author: None,
            },
            conversation_id: None,
            rationale: "seed".into(),
            rejected: vec![],
            caused_by: vec![],
            supersedes: None,
            anchors: vec![Anchor {
                file: file.into(),
                symbol_path: symbol.map(str::to_string),
                node_kind: symbol.map(|_| "function".to_string()),
                structural_hash: hash.map(str::to_string),
                line_span: Some((1, 9)),
                recorded_at_sha: None,
            }],
        })
        .unwrap()
}

fn store_with_seed() -> (Store, String) {
    let mut store = Store::open_in_memory();
    let id = seed(&mut store, "src/a.rs", Some("foo::bar"), Some("hash_1"));
    (store, id)
}

#[test]
fn exact_when_symbol_and_hash_match() {
    let (store, id) = store_with_seed();
    let q = QueryNode {
        file: Some("src/a.rs".into()),
        symbol_path: Some("foo::bar".into()),
        structural_hash: Some("hash_1".into()),
    };
    let got = resolve(&store, &q);
    assert_eq!(got.resolution, Resolution::Exact);
    assert_eq!(got.decisions, vec![id]);
}

#[test]
fn drifted_when_symbol_matches_but_hash_differs() {
    let (store, id) = store_with_seed();
    let q = QueryNode {
        file: Some("src/a.rs".into()),
        symbol_path: Some("foo::bar".into()),
        structural_hash: Some("hash_CHANGED".into()),
    };
    let got = resolve(&store, &q);
    assert_eq!(got.resolution, Resolution::Drifted);
    assert_eq!(got.decisions, vec![id]);
}

#[test]
fn relocated_when_hash_matches_but_symbol_differs() {
    let (store, id) = store_with_seed();
    let q = QueryNode {
        file: Some("src/elsewhere.rs".into()),
        symbol_path: Some("other::renamed".into()),
        structural_hash: Some("hash_1".into()),
    };
    let got = resolve(&store, &q);
    assert_eq!(got.resolution, Resolution::Relocated);
    assert_eq!(got.decisions, vec![id]);
}

#[test]
fn file_fallback_when_neither_axis_matches_but_file_does() {
    let (store, id) = store_with_seed();
    let q = QueryNode {
        file: Some("src/a.rs".into()),
        symbol_path: Some("nope::gone".into()),
        structural_hash: Some("hash_unknown".into()),
    };
    let got = resolve(&store, &q);
    assert_eq!(got.resolution, Resolution::FileFallback);
    assert_eq!(got.decisions, vec![id]);
}

#[test]
fn file_fallback_empty_when_nothing_matches() {
    let (store, _id) = store_with_seed();
    let q = QueryNode::file_level("src/unknown.rs");
    let got = resolve(&store, &q);
    assert_eq!(got.resolution, Resolution::FileFallback);
    assert!(got.decisions.is_empty());
}

#[test]
fn symbol_only_query_without_hash_is_drifted() {
    // A bare symbol query can't confirm the hash, so it can't be exact.
    let (store, id) = store_with_seed();
    let q = QueryNode {
        file: None,
        symbol_path: Some("foo::bar".into()),
        structural_hash: None,
    };
    let got = resolve(&store, &q);
    assert_eq!(got.resolution, Resolution::Drifted);
    assert_eq!(got.decisions, vec![id]);
}

#[test]
fn a_hash_of_two_symbols_is_not_trusted() {
    let mut store = Store::open_in_memory();
    seed(&mut store, "src/a.rs", Some("foo::bar"), Some("hash_1"));
    seed(&mut store, "src/b.rs", Some("foo::baz"), Some("hash_1"));
    let q = QueryNode {
        file: Some("src/b.rs".into()),
        symbol_path: Some("other::renamed".into()),
        structural_hash: Some("hash_1".into()),
    };
    let got = resolve(&store, &q);
    assert_eq!(got.resolution, Resolution::FileFallback);
    assert_eq!(got.decisions.len(), 1);
}

#[test]
fn resolution_names() {
    let names: Vec<&str> = vec![
        Resolution::Exact.as_str(),
        Resolution::Drifted.as_str(),
        Resolution::Relocated.as_str(),
        Resolution::FileFallback.as_str(),
    ];
    assert_eq!(names, vec!["exact", "drifted", "relocated", "file_fallback"]);
}
