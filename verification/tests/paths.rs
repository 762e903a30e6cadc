//! Workspace roots and stored paths.
use dlog::commands::init::{init_at, outer_workspace};
use dlog::commands::{clean_sha, discover_root, parse_line_spec, AppError, RootSource, Workspace};
use dlog::paths::{ancestors, relativize};

#[test]
fn discover_root_prefers_dlog_over_a_nearer_git() {
    // `/root` holds `.dlog`, `/root/vendor/lib` a `.git`.
    let nested = "/root/vendor/lib";
    assert_eq!(ancestors(nested), vec!["/root/vendor/lib", "/root/vendor", "/root", "/"]);
    let dlog = vec![false, false, true, false];
    let git = vec![true, false, false, false];
    let (found, source) = discover_root(nested, &dlog, &git);
    assert_eq!(found, "/root");
    assert_eq!(source, RootSource::Dlog);
    assert_eq!(source.as_str(), "dlog");
}

#[test]
fn discover_root_falls_back_to_git_then_cwd() {
    let nested = "/git-root/src/auth";
    let none = vec![false, false, false, false];
    let git = vec![false, false, true, false];
    let (found, source) = discover_root(nested, &none, &git);
    assert_eq!(found, "/git-root");
    assert_eq!(source, RootSource::Git);
    assert_eq!(source.as_str(), "git");

    // A bare directory with no marker anywhere above it is its own root.
    let bare = "/bare";
    let (found, source) = discover_root(bare, &vec![false, false], &vec![false, false]);
    assert_eq!(found, bare);
    assert_eq!(source, RootSource::Cwd);
    assert_eq!(source.as_str(), "cwd");
}

#[test]
fn relativize_normalizes_against_the_root() {
    let root = "/proj";
    let sub = "/proj/src";

    // The whole point: the same file from a subdirectory and from the root.
    assert_eq!(relativize(root, sub, "auth.rs"), "src/auth.rs");
    assert_eq!(relativize(root, root, "src/auth.rs"), "src/auth.rs");
    // Absolute inside the root, and `.`/`..` folded lexically.
    assert_eq!(relativize(root, sub, "/proj/src/auth.rs"), "src/auth.rs");
    assert_eq!(relativize(root, sub, "./auth.rs"), "src/auth.rs");
    assert_eq!(relativize(root, sub, "../README.md"), "README.md");
    assert_eq!(relativize(root, sub, "../src/../src/a.rs"), "src/a.rs");
    // The root itself is spelled `.` (so `dlog context .` means everything).
    assert_eq!(relativize(root, sub, ".."), ".");
    assert_eq!(relativize(root, root, "."), ".");
    // Outside the workspace: kept absolute rather than rewritten.
    assert_eq!(relativize(root, sub, "/etc/hosts"), "/etc/hosts");
    assert_eq!(relativize(root, sub, "../../elsewhere/x.rs"), "/elsewhere/x.rs");
}

#[test]
fn relativize_does_not_require_the_path_to_exist() {
    // Anchors routinely name files the agent is about to create.
    let root = "/proj";
    assert_eq!(relativize(root, root, "src/not/created/yet.rs"), "src/not/created/yet.rs");
}

#[test]
fn relativize_agrees_with_the_component_rules_of_std() {
    let root = "/proj/";
    assert_eq!(relativize(root, "/proj", "a//b/./c/"), "a/b/c");
    // A sibling that merely starts with the same letters is outside.
    assert_eq!(relativize("/proj", "/proj", "/project/x"), "/project/x");
    // Above the root of the filesystem there is nothing to pop: each `..` is kept.
    assert_eq!(relativize("/proj", "/", "../a"), "/../a");
    assert_eq!(relativize("/proj", "/", "../../a"), "/../../a");
    assert_eq!(relativize("/proj", "/proj", "/../../x"), "/../../x");
    assert_eq!(relativize("/proj", "/", "../b/../../a"), "/../../a");
    assert_eq!(relativize("/proj", "/proj", ""), ".");
    // The stored spelling of a stored spelling is itself, and the same from any directory.
    for (cwd, path) in [("/proj/src", "../x/y.rs"), ("/proj", "/etc/hosts"), ("/proj", ".")] {
        let stored = relativize("/proj", cwd, path);
        assert_eq!(relativize("/proj", "/proj", &stored), stored);
    }
    assert_eq!(
        relativize("/proj", "/proj/src", "auth/x.rs"),
        relativize("/proj", "/proj", "src/auth/x.rs")
    );
}

#[test]
fn a_stored_path_is_clean_and_one_for_each_file() {
    // One file, however it is named.
    for (cwd, path) in [
        ("/proj", "src/auth.rs"),
        ("/proj/src", "auth.rs"),
        ("/proj/src", "./auth.rs"),
        ("/proj/src/net", "../auth.rs"),
        ("/elsewhere", "/proj/./src/../src/auth.rs"),
        ("/proj/src", "../../proj/src/auth.rs"),
    ] {
        assert_eq!(relativize("/proj", cwd, path), "src/auth.rs", "{cwd} {path}");
    }
    // Inside relative, outside absolute, and no `.` or `..` in either.
    for (cwd, path, stored) in [
        ("/proj/a/b", "../../c/./d/../e", "c/e"),
        ("/proj/a", "../..", "/"),
        ("/proj/a", "../../other/./x", "/other/x"),
        ("/proj", "src/..", "."),
    ] {
        assert_eq!(relativize("/proj", cwd, path), stored);
    }
}

#[test]
fn resolve_path_round_trips_a_stored_anchor() {
    let ws = Workspace::rooted("/proj", RootSource::Cwd, None);
    assert_eq!(ws.resolve_path("src/auth.rs"), "/proj/src/auth.rs");
    assert_eq!(ws.resolve_path("."), "/proj");
    assert_eq!(ws.resolve_path("/etc/hosts"), "/etc/hosts");
    assert_eq!(ws.resolve_path(&ws.relativize("/proj/src", "auth.rs")), "/proj/src/auth.rs");
}

#[test]
fn workspace_db_defaults_under_the_root_and_honours_an_override() {
    let ws = Workspace::rooted("/proj", RootSource::Git, None);
    assert_eq!(ws.db, "/proj/.dlog/dlog.db");

    let ws = Workspace::rooted("/proj", RootSource::Git, Some("/elsewhere/other.db"));
    assert_eq!(ws.db, "/elsewhere/other.db");
    assert_eq!(ws.root, "/proj", "--db does not move the root");
}

#[test]
fn init_creates_the_store_and_is_idempotent() {
    let ws = Workspace::rooted("/proj", RootSource::Dlog, None);
    let first = init_at(&ws, false, &vec![false, false]);
    assert!(first.created);
    assert_eq!(first.db, "/proj/.dlog/dlog.db");
    assert!(first.shadows.is_none());
    let again = init_at(&ws, true, &vec![true, false]);
    assert!(!again.created);
    assert!(again.shadows.is_none(), "a root does not shadow itself");
}

#[test]
fn init_reports_an_outer_workspace_it_shadows() {
    let inner = Workspace::rooted("/outer/sub/project", RootSource::Dlog, None);
    let result = init_at(&inner, false, &vec![false, false, true, false]);
    assert_eq!(result.root, "/outer/sub/project");
    assert_eq!(result.shadows.as_deref(), Some("/outer"));
    assert_eq!(outer_workspace("/outer", &vec![true, false]), None);
}

#[test]
fn init_honours_an_explicit_db_path() {
    let ws = Workspace::rooted("/proj", RootSource::Dlog, Some("/proj/custom.db"));
    let result = init_at(&ws, false, &vec![false, false]);
    assert_eq!(result.db, "/proj/custom.db");
    assert!(result.created);
}

#[test]
fn line_specs() {
    assert_eq!(parse_line_spec("12"), Some((12, 12)));
    assert_eq!(parse_line_spec(" 10 - 45 "), Some((10, 45)));
    assert_eq!(parse_line_spec("+7"), Some((7, 7)));
    assert_eq!(parse_line_spec("4294967295"), Some((u32::MAX, u32::MAX)));
    assert_eq!(parse_line_spec("4294967296"), None);
    assert_eq!(parse_line_spec("-5"), None);
    assert_eq!(parse_line_spec("a-5"), None);
    assert_eq!(parse_line_spec(""), None);
}

#[test]
fn current_git_sha_is_hex_when_present() {
    // The printed commit is trimmed; nothing printed means there is none.
    let sha = clean_sha("a3f9c0ffee\n").unwrap();
    assert!(!sha.is_empty());
    assert!(sha.chars().all(|c| c.is_ascii_hexdigit()), "sha should be hex: {sha}");
    assert_eq!(clean_sha(" \n"), None);
}

#[test]
fn failures_carry_a_code_and_a_message() {
    let e = AppError::not_implemented("frobnicate", 42);
    assert_eq!(e.code, "not_implemented");
    assert_eq!(e.message, "`dlog frobnicate` is not implemented yet (tracked in #42)");
    let envelope = e.into_envelope();
    assert_eq!(envelope.error.code, "not_implemented");
}
