//! The post-commit hook, and the shape of commands and failures.
use dlog::cli::{Command, HookAction, SearchArgs, ShowArgs, StatusArgs};
use dlog::commands::hooks::{install, managed_block, run, strip_block, uninstall, HookWrite, BEGIN, END};
use dlog::commands::AppError;
use dlog::output::{ErrorEnvelope, QueryEnvelope, Resolution};

fn content(write: HookWrite) -> String {
    match write {
        HookWrite::Write { content, .. } => content,
        other => panic!("expected a write, got {other:?}"),
    }
}

#[test]
fn install_creates_then_is_idempotent() {
    let (status, write) = install(None, "/usr/bin/dlog", None);
    assert_eq!(status, "installed");
    assert!(matches!(write, HookWrite::Write { executable: true, .. }));
    let content = content(write);
    assert!(content.starts_with("#!/bin/sh"));
    assert!(content.contains(BEGIN) && content.contains(END));
    assert!(content.contains("/usr/bin/dlog"));
    assert!(!content.contains("--db"), "no --db when none configured");

    // Second install is a no-op.
    assert_eq!(
        install(Some(&content), "/usr/bin/dlog", None),
        ("already_installed", HookWrite::Leave)
    );
}

#[test]
fn install_bakes_db_path_when_configured() {
    let content = content(install(None, "/usr/bin/dlog", Some("/abs/store.db")).1);
    assert!(
        content.contains("--db \"/abs/store.db\""),
        "configured store baked into the hook: {content}"
    );
    assert_eq!(
        managed_block("/usr/bin/dlog", Some("/abs/store.db")),
        format!(
            "{BEGIN}\n\"/usr/bin/dlog\" bind --db \"/abs/store.db\" \"$(git rev-parse HEAD)\" \
             >/dev/null 2>&1 || true\n{END}\n"
        )
    );
}

#[test]
fn install_appends_to_existing_hook_and_uninstall_preserves_it() {
    let existing = "#!/bin/sh\necho existing\n";

    let (status, write) = install(Some(existing), "/usr/bin/dlog", None);
    assert_eq!(status, "appended");
    let with_block = content(write);
    assert!(with_block.contains("echo existing"), "user hook preserved");
    assert!(with_block.contains(BEGIN));

    // Uninstall removes only our block, keeping the user's hook + file.
    let (status, write) = uninstall(Some(&with_block));
    assert_eq!(status, "removed");
    assert!(matches!(write, HookWrite::Write { executable: false, .. }));
    let left = content(write);
    assert!(left.contains("echo existing"));
    assert!(!left.contains(BEGIN));
    assert_eq!(left, existing, "as it was");
}

#[test]
fn uninstall_removes_file_when_only_ours() {
    let own = content(install(None, "/usr/bin/dlog", None).1);
    assert_eq!(uninstall(Some(&own)), ("removed", HookWrite::Remove));
}

#[test]
fn uninstall_when_absent_or_unmanaged() {
    assert_eq!(uninstall(None), ("not_installed", HookWrite::Leave));
    assert_eq!(uninstall(Some("#!/bin/sh\necho hi\n")), ("not_installed", HookWrite::Leave));
}

#[test]
fn a_block_in_the_middle_is_cut_out() {
    let block = managed_block("dlog", None);
    let text = format!("a\n\n\n{block}\nb\n");
    assert_eq!(strip_block(&text).unwrap(), "a\n\nb\n");
    assert_eq!(strip_block(&format!("a{END}b")), None);
    // The block ends at the first end marker after its begin marker; without one there is
    // no block.
    assert_eq!(
        strip_block(&format!("{END}\nx\n{BEGIN}\ny\n{END}\n")).unwrap(),
        format!("{END}\nx\n")
    );
    assert_eq!(strip_block(&format!("{END}\nx\n{BEGIN}\ny\n")), None);
    let early = format!("# {END}\necho\n");
    let with_block = content(install(Some(&early), "dlog", None).1);
    assert_eq!(strip_block(&with_block).unwrap(), early);
    // A hook that did not end its last line gains the line break.
    let with_block = content(install(Some("echo"), "dlog", None).1);
    assert_eq!(strip_block(&with_block).unwrap(), "echo\n");
}

#[test]
fn the_reply_names_action_hook_and_status() {
    let (reply, write) = run(HookAction::Uninstall, "h/post-commit", None, "dlog", None);
    assert_eq!((reply.action, reply.hook.as_str(), reply.status), ("uninstall", "h/post-commit", "not_installed"));
    assert_eq!(write, HookWrite::Leave);
    assert_eq!(run(HookAction::Install, "h", None, "dlog", None).0.status, "installed");
}

#[test]
fn commands_are_named_as_typed() {
    let status = Command::Status(StatusArgs { db: None });
    assert_eq!(status.name(), "status");
    let show = Command::Show(ShowArgs { ids: vec!["dec_1".into()], db: None });
    assert_eq!(show.name(), "show");
    let search = Command::Search(SearchArgs {
        text: "t".into(),
        include_superseded: false,
        limit: 20,
        budget: 0,
        db: None,
    });
    assert_eq!(search.name(), "search");
    assert_eq!(HookAction::Install.as_str(), "install");
}

#[test]
fn error_envelope_shape() {
    let env = ErrorEnvelope::new("not_implemented", "nope");
    assert_eq!(env.error.code, "not_implemented");
    assert_eq!(env.error.message, "nope");
}

#[test]
fn resolution_serializes_snake_case() {
    assert_eq!(Resolution::FileFallback.as_str(), "file_fallback");
}

#[test]
fn query_envelope_omits_resolved_when_none() {
    let env: QueryEnvelope<&str, &str> = QueryEnvelope {
        query: "why",
        resolved: None,
        results: vec![],
        truncated: false,
        elided: 0,
    };
    assert!(env.resolved.is_none());
    assert!(!env.truncated);
}

#[test]
fn a_failure_exits_with_its_document() {
    assert_eq!(dlog::run(Ok(())), (0, None));
    let (code, document) = dlog::run(Err(AppError::new("io_error", "gone")));
    assert_eq!(code, 1);
    assert_eq!(document.unwrap(), ErrorEnvelope::new("io_error", "gone"));
}
