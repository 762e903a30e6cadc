//! `dlog record`: writes a decision into staging.
//!
//! Decisions are born before a commit, so recording goes straight to the mutable staging
//! area; binding happens later, at seal time.
use crate::anchor::{
    definition_at_line, innermost_of, language_for_path, path_language, source_definitions,
    DefinitionView,
};
use crate::cli::RecordArgs;
use crate::commands::{failure, line_span_of, parse_line_spec, AppError, Workspace, DLOG_DIR};
use crate::commands::line_specs_read;
use crate::commands::why::{innermost_is_narrowest, is_narrowest, seen_in, spans};
use crate::ids::minted;
use crate::log::{admits_all, resolves, staged_from, ChangeView, Log};
use crate::model::{
    Agent, AgentView, Anchor, AnchorView, NewDecision, NewDecisionView, Rejected, RejectedView,
};
use crate::paths;
use crate::queries::lies_under;
use crate::store::{
    after_all_add, id_taken, new_invariant, new_task, nothing_wrote, one_change, wrote_then, Store, StoreError,
};
use crate::syntax::{slice_bytes, text_between, utf8};
use crate::table::{
    ascending, holds, insert_row, insert_row_keeps, insert_row_lookup, lookup, lookup_sound,
};
use crate::text::facts::{
    blank, numbers_read_back, padding_ends, parted_after, parted_at_mark, rparted_before, trim_undoes_padding,
};
use crate::text::{self, has_prefix, lines_of, trimmed, trimmed_end};
use vstd::prelude::*;

verus! {

// ---- Rationale --------------------------------------------------------------

/// The rationale that an argument names: `-` stands for what was piped in, without
/// trailing white space; anything else is taken verbatim.
pub open spec fn rationale_of(arg: Seq<char>, stdin: Seq<char>) -> Seq<char> {
    if arg == "-"@ {
        trimmed_end(stdin)
    } else {
        arg
    }
}

/// Resolves the rationale. A blank one is refused.
pub fn resolve_rationale(arg: &str, stdin: &str) -> (r: Result<String, AppError>)
    ensures
        match r {
            Ok(s) => s@ == rationale_of(arg@, stdin@) && trimmed(s@).len() > 0,
            Err(e) => trimmed(rationale_of(arg@, stdin@)).len() == 0 && e@ == failure(
                "empty_rationale"@,
                "rationale must not be empty"@,
            ),
        },
{
    let text = if text::same(arg, "-") {
        text::trim_end(stdin)
    } else {
        text::owned(arg)
    };
    if text::is_blank(text.as_str()) {
        return Err(AppError::new("empty_rationale", "rationale must not be empty"));
    }
    Ok(text)
}

// ---- Changed files ----------------------------------------------------------

/// `s` without double quotes in front.
pub open spec fn unquoted_start(s: Seq<char>) -> Seq<char>
    decreases s.len(),
{
    if s.len() > 0 && s[0] == '"' {
        unquoted_start(s.drop_first())
    } else {
        s
    }
}

/// `s` without double quotes at the end.
pub open spec fn unquoted_end(s: Seq<char>) -> Seq<char>
    decreases s.len(),
{
    if s.len() > 0 && s.last() == '"' {
        unquoted_end(s.drop_last())
    } else {
        s
    }
}

/// Drops the double quotes around a text.
fn unquote(s: &str) -> (r: String)
    ensures
        r@ == unquoted_end(unquoted_start(s@)),
{
    let v = text::chars_of(s);
    let mut from: usize = 0;
    assert(s@.skip(0) =~= s@);
    while from < v.len() && v[from] == '"'
        invariant
            from <= v.len(),
            v@ == s@,
            unquoted_start(s@) == unquoted_start(s@.skip(from as int)),
        decreases v.len() - from,
    {
        assert(s@.skip(from as int).drop_first() =~= s@.skip(from + 1));
        from = from + 1;
    }
    let ghost body = unquoted_start(s@);
    assert(body == s@.skip(from as int));
    let mut to: usize = v.len();
    assert(body.take(body.len() as int) =~= body);
    while to > from && v[to - 1] == '"'
        invariant
            from <= to <= v.len(),
            v@ == s@,
            body == s@.skip(from as int),
            unquoted_end(body) == unquoted_end(body.take(to - from)),
        decreases to,
    {
        assert(body.take(to - from).drop_last() =~= body.take(to - 1 - from));
        to = to - 1;
    }
    assert(body.take(to - from) =~= s@.subrange(from as int, to as int));
    text::string_between(&v, from, to)
}

/// The path that a line of `git status --porcelain` names: what follows the two status
/// characters and a space, the new name of a rename, without quotes. A line that is too
/// short names none.
pub open spec fn porcelain_path(line: Seq<char>) -> Option<Seq<char>> {
    if utf8(line).len() < 4 {
        None
    } else {
        match text_between(line, 3, utf8(line).len() as int) {
            None => None,
            Some(rest) => {
                let named = match text::rparted(rest, " -> "@) {
                    Some((_, new)) => new,
                    None => rest,
                };
                let path = unquoted_end(unquoted_start(trimmed(named)));
                if path.len() == 0 {
                    None
                } else {
                    Some(path)
                }
            },
        }
    }
}

/// The paths that the first `n` lines name.
pub open spec fn porcelain_paths(lines: Seq<Seq<char>>, n: int) -> Seq<Seq<char>>
    decreases n,
{
    if n <= 0 {
        Seq::empty()
    } else {
        match porcelain_path(lines[n - 1]) {
            Some(path) => porcelain_paths(lines, n - 1).push(path),
            None => porcelain_paths(lines, n - 1),
        }
    }
}

/// Reads the path out of one line.
fn path_in_line(line: &str) -> (r: Option<String>)
    ensures
        r.deep_view() == porcelain_path(line@),
{
    let end: usize = line.as_bytes().len();
    if end < 4 {
        return None;
    }
    let rest = match slice_bytes(line, 3, end) {
        Some(rest) => rest,
        None => {
            return None;
        },
    };
    let named = match text::rsplit_once(rest.as_str(), " -> ") {
        Some((_, new)) => new,
        None => rest,
    };
    let path = unquote(text::trim(named.as_str()).as_str());
    if text::char_count(path.as_str()) == 0 {
        None
    } else {
        Some(path)
    }
}

/// Reads `git status --porcelain` into changed paths.
pub fn parse_porcelain(text: &str) -> (r: Vec<String>)
    ensures
        r.deep_view() == porcelain_paths(lines_of(text@), lines_of(text@).len() as int),
{
    let lines = text::lines(text);
    let ghost s = lines.deep_view();
    let mut files: Vec<String> = Vec::new();
    assert(files.deep_view() =~= Seq::empty());
    for i in 0..lines.len()
        invariant
            s == lines.deep_view(),
            files.deep_view() == porcelain_paths(s, i as int),
    {
        assert(s[i as int] == lines[i as int]@);
        if let Some(path) = path_in_line(lines[i].as_str()) {
            let ghost before = files.deep_view();
            files.push(path);
            assert(files.deep_view() =~= before.push(path@));
        }
    }
    files
}

/// The store directory itself, or something inside it.
pub open spec fn in_store(path: Seq<char>) -> bool {
    path == DLOG_DIR@ || has_prefix(path, DLOG_DIR@ + "/"@)
}

/// Whether a workspace-relative path is the store directory or inside it.
pub fn is_store_path(path: &str) -> (r: bool)
    ensures
        r == in_store(path@),
{
    text::same(path, DLOG_DIR) || text::starts_with(path, text::cat(DLOG_DIR, "/").as_str())
}

/// The stored spellings of the first `n` changed paths, the store's own left out: it
/// lives inside the tree it records, so git reports it as changed every time.
pub open spec fn changed_anchors(
    root: Seq<char>,
    cwd: Seq<char>,
    toplevel: Seq<char>,
    changed: Seq<Seq<char>>,
    n: int,
) -> Seq<Seq<char>>
    decreases n,
{
    if n <= 0 {
        Seq::empty()
    } else {
        let rest = changed_anchors(root, cwd, toplevel, changed, n - 1);
        let path = paths::relative_to(root, cwd, paths::joined_path(toplevel, changed[n - 1]));
        if in_store(path) {
            rest
        } else {
            rest.push(path)
        }
    }
}

/// The files that git reports as changed, as workspace-relative paths. Git reports them
/// relative to its own toplevel, which need not be the workspace root.
pub fn git_changed_files(workspace: &Workspace, cwd: &str, toplevel: &str, porcelain: &str) -> (r: Vec<
    String,
>)
    ensures
        ({
            let lines = lines_of(porcelain@);
            let changed = porcelain_paths(lines, lines.len() as int);
            r.deep_view() == changed_anchors(
                workspace.root@,
                cwd@,
                toplevel@,
                changed,
                changed.len() as int,
            )
        }),
{
    let changed = parse_porcelain(porcelain);
    let ghost s = changed.deep_view();
    let mut out: Vec<String> = Vec::new();
    assert(out.deep_view() =~= Seq::empty());
    for i in 0..changed.len()
        invariant
            s == changed.deep_view(),
            out.deep_view() == changed_anchors(workspace.root@, cwd@, toplevel@, s, i as int),
    {
        assert(s[i as int] == changed[i as int]@);
        let full = paths::join_path(toplevel, changed[i].as_str());
        let path = workspace.relativize(cwd, full.as_str());
        if !is_store_path(path.as_str()) {
            let ghost before = out.deep_view();
            out.push(path);
            assert(out.deep_view() =~= before.push(path@));
        }
    }
    out
}

// ---- Anchors ----------------------------------------------------------------

/// A bare file-level anchor.
pub open spec fn plain_anchor(file: Seq<char>) -> AnchorView {
    AnchorView {
        file,
        symbol_path: None,
        node_kind: None,
        structural_hash: None,
        line_span: None,
        recorded_at_sha: None,
    }
}

/// The anchor that a spec names: `FILE`, `FILE:LINE` or `FILE:START-END`. What follows
/// the last colon counts as lines only where it reads as such.
pub open spec fn anchor_of(spec: Seq<char>, root: Seq<char>, cwd: Seq<char>) -> AnchorView {
    match text::rparted(spec, ":"@) {
        Some((path, lines)) => match line_span_of(lines) {
            Some(span) => AnchorView {
                line_span: Some(span),
                ..plain_anchor(paths::relative_to(root, cwd, path))
            },
            None => plain_anchor(paths::relative_to(root, cwd, spec)),
        },
        None => plain_anchor(paths::relative_to(root, cwd, spec)),
    }
}

/// A bare file-level anchor on an already normalized path.
pub fn file_anchor(file: String) -> (r: Anchor)
    ensures
        r@ == plain_anchor(file@),
{
    Anchor {
        file,
        symbol_path: None,
        node_kind: None,
        structural_hash: None,
        line_span: None,
        recorded_at_sha: None,
    }
}

/// Reads an anchor spec. The path is normalized to its workspace-relative form.
pub fn parse_anchor(spec: &str, workspace: &Workspace, cwd: &str) -> (r: Anchor)
    ensures
        r@ == anchor_of(spec@, workspace.root@, cwd@),
{
    if let Some((path, lines)) = text::rsplit_once(spec, ":") {
        if let Some(span) = parse_line_spec(lines.as_str()) {
            let mut anchor = file_anchor(workspace.relativize(cwd, path.as_str()));
            anchor.line_span = Some(span);
            return anchor;
        }
    }
    file_anchor(workspace.relativize(cwd, spec))
}

/// Some anchor is on this file.
pub open spec fn anchored_on(anchors: Seq<AnchorView>, file: Seq<char>) -> bool {
    exists|i: int| 0 <= i < anchors.len() && (#[trigger] anchors[i]).file == file
}

/// Anchors with one more for each file that has none yet.
pub open spec fn with_files(anchors: Seq<AnchorView>, files: Seq<Seq<char>>) -> Seq<AnchorView>
    decreases files.len(),
{
    if files.len() == 0 {
        anchors
    } else {
        let so_far = with_files(anchors, files.drop_last());
        if anchored_on(so_far, files.last()) {
            so_far
        } else {
            so_far.push(plain_anchor(files.last()))
        }
    }
}

/// The anchors that a command names: those of its files, and where it asks for them one
/// for each changed file.
pub open spec fn named_anchors(
    files: Seq<Seq<char>>,
    root: Seq<char>,
    cwd: Seq<char>,
    changed: Option<Seq<Seq<char>>>,
) -> Seq<AnchorView> {
    let own = files.map_values(|spec: Seq<char>| anchor_of(spec, root, cwd));
    match changed {
        Some(list) => with_files(own, list),
        None => own,
    }
}

/// Whether some anchor is on this file.
fn is_anchored(anchors: &Vec<Anchor>, file: &str) -> (r: bool)
    ensures
        r == anchored_on(anchors.deep_view(), file@),
{
    for i in 0..anchors.len()
        invariant
            forall|j: int| 0 <= j < i ==> (#[trigger] anchors.deep_view()[j]).file != file@,
    {
        assert(anchors.deep_view()[i as int] == anchors[i as int]@);
        if text::same(anchors[i].file.as_str(), file) {
            return true;
        }
    }
    false
}

/// Collects the anchors of a command: its files, together with the changed files where
/// they are asked for, each path once. At least one is required.
pub fn collect_anchors(args: &RecordArgs, workspace: &Workspace, cwd: &str, changed: &Vec<String>) -> (r:
    Result<Vec<Anchor>, AppError>)
    ensures
        ({
            let anchors = named_anchors(
                args.files.deep_view(),
                workspace.root@,
                cwd@,
                if args.changed {
                    Some(changed.deep_view())
                } else {
                    None
                },
            );
            match r {
                Ok(list) => list.deep_view() == anchors && anchors.len() > 0,
                Err(e) => anchors.len() == 0 && e@ == failure(
                    "missing_anchor"@,
                    "record requires an anchor: pass --file or --changed"@,
                ),
            }
        }),
{
    let ghost f = |spec: Seq<char>| anchor_of(spec, workspace.root@, cwd@);
    let ghost specs = args.files.deep_view();
    let ghost own = specs.map_values(f);
    let mut anchors: Vec<Anchor> = Vec::new();
    assert(anchors.deep_view() =~= own.take(0));
    for i in 0..args.files.len()
        invariant
            specs == args.files.deep_view(),
            f == (|spec: Seq<char>| anchor_of(spec, workspace.root@, cwd@)),
            own == specs.map_values(f),
            anchors.deep_view() == own.take(i as int),
    {
        let ghost before = anchors.deep_view();
        anchors.push(parse_anchor(args.files[i].as_str(), workspace, cwd));
        assert(specs[i as int] == args.files[i as int]@);
        assert(anchors.deep_view() =~= before.push(own[i as int]));
        assert(anchors.deep_view() =~= own.take(i + 1));
    }
    assert(own.take(own.len() as int) =~= own);
    if args.changed {
        let ghost files = changed.deep_view();
        assert(files.take(0) =~= Seq::empty());
        for i in 0..changed.len()
            invariant
                files == changed.deep_view(),
                anchors.deep_view() == with_files(own, files.take(i as int)),
        {
            assert(files.take(i + 1).drop_last() =~= files.take(i as int));
            assert(files.take(i + 1).last() == changed[i as int]@);
            if !is_anchored(&anchors, changed[i].as_str()) {
                let ghost before = anchors.deep_view();
                anchors.push(file_anchor(changed[i].clone()));
                assert(anchors.deep_view() =~= before.push(plain_anchor(changed[i as int]@)));
            }
        }
        assert(files.take(files.len() as int) =~= files);
    }
    assert(anchors.deep_view().len() == anchors@.len());
    if anchors.len() == 0 {
        return Err(
            AppError::new("missing_anchor", "record requires an anchor: pass --file or --changed"),
        );
    }
    Ok(anchors)
}

/// The anchor with what its source shows: the definition around its first line. Without
/// a line, a supported language, a readable source or a definition it stays as it is.
pub open spec fn enriched(anchor: AnchorView, source: Option<Seq<char>>) -> AnchorView {
    match (anchor.line_span, path_language(anchor.file), source) {
        (Some((line, _)), Some(lang), Some(text)) => match innermost_of(
            source_definitions(lang, text),
            line,
        ) {
            Some(d) => AnchorView {
                symbol_path: Some(d.symbol_path),
                node_kind: Some(d.node_kind),
                structural_hash: Some(d.structural_hash),
                line_span: Some(d.line_span),
                ..anchor
            },
            None => anchor,
        },
        _ => anchor,
    }
}

/// Whether an anchor's source can tell more: it has a line, in a supported language.
pub fn wants_source(anchor: &Anchor) -> (r: bool)
    ensures
        r == (anchor@.line_span is Some && path_language(anchor@.file) is Some),
        !r ==> forall|source: Option<Seq<char>>| #[trigger] enriched(anchor@, source) == anchor@,
{
    anchor.line_span.is_some() && language_for_path(anchor.file.as_str()).is_some()
}

/// Fills an anchor's symbol path, kind and structural hash from the definition around
/// its line.
pub fn enrich_anchor(anchor: &Anchor, source: Option<&str>) -> (r: Anchor)
    ensures
        r@ == enriched(anchor@, source.deep_view()),
{
    let mut out = anchor.clone();
    let line: u32 = match anchor.line_span {
        Some((line, _)) => line,
        None => {
            return out;
        },
    };
    let lang = match language_for_path(anchor.file.as_str()) {
        Some(lang) => lang,
        None => {
            return out;
        },
    };
    if let Some(text) = source {
        if let Some(def) = definition_at_line(text, line, &lang) {
            out.symbol_path = Some(def.symbol_path);
            out.node_kind = Some(def.node_kind);
            out.structural_hash = Some(def.structural_hash);
            out.line_span = Some(def.line_span);
        }
    }
    out
}

/// The anchor as it is recorded: with what its source shows, and the commit that was
/// checked out unless it names one.
pub open spec fn observed(anchor: AnchorView, source: Option<Seq<char>>, sha: Option<Seq<char>>) -> AnchorView {
    let seen = enriched(anchor, source);
    if seen.recorded_at_sha is None {
        AnchorView { recorded_at_sha: sha, ..seen }
    } else {
        seen
    }
}

// ---- Rejected alternatives --------------------------------------------------

/// The alternative that `approach :: reason` names. Without `::` the whole is the
/// approach, and the reason is empty.
pub open spec fn rejected_of(spec: Seq<char>) -> RejectedView {
    match text::parted(spec, "::"@) {
        Some((approach, reason)) => RejectedView {
            approach: trimmed(approach),
            reason: trimmed(reason),
        },
        None => RejectedView { approach: trimmed(spec), reason: Seq::empty() },
    }
}

/// Reads a rejected alternative.
pub fn parse_rejected(spec: &str) -> (r: Rejected)
    ensures
        r@ == rejected_of(spec@),
{
    match text::split_once(spec, "::") {
        Some((approach, reason)) => Rejected {
            approach: text::trim(approach.as_str()),
            reason: text::trim(reason.as_str()),
        },
        None => {
            let none = String::new();
            assert(none@ =~= Seq::empty());
            Rejected { approach: text::trim(spec), reason: none }
        },
    }
}

// ---- The command ------------------------------------------------------------

/// The reply.
#[derive(Debug, PartialEq, Eq)]
pub struct RecordResult {
    pub id: String,
    /// Always true: a freshly recorded decision starts in staging.
    pub staged: bool,
    pub declared_invariants: Vec<String>,
}

/// What the caller has read for a command.
#[derive(Debug)]
pub struct RecordInputs {
    pub rationale: String,
    pub anchors: Vec<Anchor>,
    /// The source of each anchor's file, where it was read.
    pub sources: Vec<Option<String>>,
    /// The commit that is checked out.
    pub sha: Option<String>,
}

/// The decision that a command records.
pub open spec fn decision_of(args: RecordArgs, inputs: RecordInputs) -> NewDecisionView {
    let sources = inputs.sources.deep_view();
    NewDecisionView {
        task_id: args.task_id.deep_view(),
        agent: AgentView {
            role: args.agent_role@,
            model: args.agent_model@,
            session_id: args.agent_session.deep_view(),
            author: args.author.deep_view(),
        },
        conversation_id: args.conversation_id.deep_view(),
        rationale: inputs.rationale@,
        rejected: args.rejected.deep_view().map_values(|spec: Seq<char>| rejected_of(spec)),
        caused_by: args.caused_by.deep_view(),
        supersedes: args.supersedes.deep_view(),
        anchors: Seq::new(
            inputs.anchors@.len(),
            |i: int|
                observed(
                    inputs.anchors@[i]@,
                    if i < sources.len() {
                        sources[i]
                    } else {
                        None
                    },
                    inputs.sha.deep_view(),
                ),
        ),
    }
}

/// Builds the decision that a command records.
pub fn build_decision(args: &RecordArgs, inputs: &RecordInputs) -> (r: NewDecision)
    ensures
        r@ == decision_of(*args, *inputs),
{
    let ghost sources = inputs.sources.deep_view();
    let ghost want = decision_of(*args, *inputs);
    let mut anchors: Vec<Anchor> = Vec::new();
    for i in 0..inputs.anchors.len()
        invariant
            sources == inputs.sources.deep_view(),
            want == decision_of(*args, *inputs),
            anchors.len() == i,
            forall|j: int| 0 <= j < i ==> (#[trigger] anchors[j]).deep_view() == want.anchors[j],
    {
        let source = if i < inputs.sources.len() {
            match &inputs.sources[i] {
                Some(text) => Some(text.as_str()),
                None => None,
            }
        } else {
            None
        };
        assert(i < sources.len() ==> sources[i as int] == inputs.sources[i as int].deep_view());
        let mut anchor = enrich_anchor(&inputs.anchors[i], source);
        if anchor.recorded_at_sha.is_none() {
            anchor.recorded_at_sha = inputs.sha.clone();
        }
        anchors.push(anchor);
    }
    let mut rejected: Vec<Rejected> = Vec::new();
    for i in 0..args.rejected.len()
        invariant
            want == decision_of(*args, *inputs),
            rejected.len() == i,
            forall|j: int| 0 <= j < i ==> (#[trigger] rejected[j]).deep_view() == want.rejected[j],
    {
        assert(args.rejected.deep_view()[i as int] == args.rejected[i as int]@);
        rejected.push(parse_rejected(args.rejected[i].as_str()));
    }
    let caused_by = args.caused_by.clone();
    let r = NewDecision {
        task_id: args.task_id.clone(),
        agent: Agent {
            role: args.agent_role.clone(),
            model: args.agent_model.clone(),
            session_id: args.agent_session.clone(),
            author: args.author.clone(),
        },
        conversation_id: args.conversation_id.clone(),
        rationale: inputs.rationale.clone(),
        rejected,
        caused_by,
        supersedes: args.supersedes.clone(),
        anchors,
    };
    assert(r.anchors.deep_view() =~= want.anchors);
    assert(r.rejected.deep_view() =~= want.rejected);
    assert(r.caused_by.deep_view() =~= want.caused_by);
    r
}

/// The write that makes sure of a task, where one is named and not there.
pub open spec fn task_writes(log: Log, task: Option<Seq<char>>, instruction: Option<Seq<char>>, ms: i64) -> Seq<
    ChangeView,
> {
    match task {
        Some(id) => if holds(log.tasks, id) {
            Seq::empty()
        } else {
            seq![ChangeView::AddTask(new_task(id, ms, None, instruction))]
        },
        None => Seq::empty(),
    }
}

/// The writes that declare invariants.
pub open spec fn invariant_writes(
    ids: Seq<Seq<char>>,
    times: Seq<i64>,
    decision: Seq<char>,
    statements: Seq<Seq<char>>,
    scope: Option<Seq<char>>,
) -> Seq<ChangeView> {
    Seq::new(
        ids.len(),
        |i: int|
            ChangeView::AddInvariant(new_invariant(ids[i], times[i], decision, statements[i], scope)),
    )
}

/// Everything that a command writes: its task where that is new, the decision, and the
/// invariants that it declares. Ids and times are those that were made for it.
pub open spec fn record_writes(
    log: Log,
    args: RecordArgs,
    inputs: RecordInputs,
    task_ms: i64,
    id: Seq<char>,
    ms: i64,
    invariants: Seq<Seq<char>>,
    times: Seq<i64>,
) -> Seq<ChangeView> {
    task_writes(log, args.task_id.deep_view(), args.instruction.deep_view(), task_ms) + seq![
        ChangeView::AddDecision(staged_from(decision_of(args, inputs), id, ms)),
    ] + invariant_writes(
        invariants,
        times,
        id,
        args.declares_invariant.deep_view(),
        args.invariant_scope.deep_view(),
    )
}

/// The ids and the times belong together.
pub open spec fn all_minted(ids: Seq<Seq<char>>, times: Seq<i64>) -> bool {
    ids.len() == times.len() && forall|i: int| 0 <= i < ids.len() ==> minted(#[trigger] ids[i], times[i])
}

/// A decision was recorded: the store has everything that the command writes, under the
/// ids that the reply gives, and nothing else was written.
pub open spec fn recorded(
    before: &Store,
    after: &Store,
    args: RecordArgs,
    inputs: RecordInputs,
    reply: RecordResult,
) -> bool {
    &&& reply.staged
    &&& reply.declared_invariants@.len() == args.declares_invariant@.len()
    &&& args.supersedes.deep_view() == Some(reply.id@) || resolves(
        before@.decisions,
        args.supersedes.deep_view(),
    )
    &&& exists|task_ms: i64, ms: i64, times: Seq<i64>|
        recorded_at(before, after, args, inputs, reply, task_ms, ms, times)
}

/// A decision was recorded at the given times.
pub open spec fn recorded_at(
    before: &Store,
    after: &Store,
    args: RecordArgs,
    inputs: RecordInputs,
    reply: RecordResult,
    task_ms: i64,
    ms: i64,
    times: Seq<i64>,
) -> bool {
    let ids = reply.declared_invariants.deep_view();
    &&& task_ms >= 0
    &&& minted(reply.id@, ms)
    &&& all_minted(ids, times)
    &&& after.wrote(
        before,
        record_writes(before@, args, inputs, task_ms, reply.id@, ms, ids, times),
    )
}

/// The decision was refused: its id was taken, or it supersedes what is not there. Its task
/// is there all the same.
pub open spec fn refused_decision(before: &Store, after: &Store, args: RecordArgs, e: AppError) -> bool {
    &&& exists|task_ms: i64|
        task_ms >= 0 && after.wrote(
            before,
            #[trigger] task_writes(
                before@,
                args.task_id.deep_view(),
                args.instruction.deep_view(),
                task_ms,
            ),
        )
    &&& (e@ == failure("store_error"@, StoreError::DuplicateDecision.words()) && id_taken(
        before@.decisions,
    )) || (e@ == failure(
        "store_error"@,
        StoreError::MissingReference.words(),
    ) && !resolves(before@.decisions, args.supersedes.deep_view()))
}

/// An invariant was refused because its id was taken: the decision and the invariants
/// before it are there.
pub open spec fn refused_invariant(
    before: &Store,
    after: &Store,
    args: RecordArgs,
    inputs: RecordInputs,
    e: AppError,
) -> bool {
    &&& e@ == failure("store_error"@, StoreError::DuplicateInvariant.words())
    &&& id_taken(after@.invariants)
    &&& exists|task_ms: i64, id: Seq<char>, ms: i64, ids: Seq<Seq<char>>, times: Seq<i64>|
        task_ms >= 0 && ids.len() < args.declares_invariant@.len() && minted(id, ms) && all_minted(ids, times)
            && after.wrote(
            before,
            #[trigger] record_writes(before@, args, inputs, task_ms, id, ms, ids, times),
        )
}

/// The log has the invariant `id`: this decision declared this statement in this scope,
/// and it is in effect.
pub open spec fn declares(
    log: Log,
    id: Seq<char>,
    decision: Seq<char>,
    statement: Seq<char>,
    scope: Option<Seq<char>>,
) -> bool {
    lookup(log.invariants, id) matches Some(v) && v.declared_by == decision && v.statement == statement
        && v.scope == scope && !v.retired
}

/// What a command wrote is found: the decision with what its arguments named, the
/// invariants, and the task. Every other decision is as it was.
proof fn record_is_found(
    log: Log,
    args: RecordArgs,
    inputs: RecordInputs,
    task_ms: i64,
    id: Seq<char>,
    ms: i64,
    ids: Seq<Seq<char>>,
    times: Seq<i64>,
)
    requires
        log.ordered(),
        admits_all(log, record_writes(log, args, inputs, task_ms, id, ms, ids, times)),
        ids.len() == args.declares_invariant@.len(),
    ensures
        ({
            let next = log.after_all(record_writes(log, args, inputs, task_ms, id, ms, ids, times));
            &&& next.decisions == insert_row(
                log.decisions,
                staged_from(decision_of(args, inputs), id, ms),
            )
            &&& !holds(log.decisions, id)
            &&& lookup(next.decisions, id) == Some(staged_from(decision_of(args, inputs), id, ms))
            &&& forall|other: Seq<char>|
                other != id ==> #[trigger] lookup(next.decisions, other) == lookup(log.decisions, other)
            &&& forall|k: int|
                0 <= k < ids.len() ==> declares(
                    next,
                    #[trigger] ids[k],
                    id,
                    args.declares_invariant.deep_view()[k],
                    args.invariant_scope.deep_view(),
                )
            &&& args.task_id.deep_view() matches Some(task) ==> (if holds(log.tasks, task) {
                lookup(next.tasks, task) == lookup(log.tasks, task)
            } else {
                lookup(next.tasks, task) == Some(
                    new_task(task, task_ms, None, args.instruction.deep_view()),
                )
            })
        }),
{
    let first = task_writes(log, args.task_id.deep_view(), args.instruction.deep_view(), task_ms);
    let row = staged_from(decision_of(args, inputs), id, ms);
    let second = seq![ChangeView::AddDecision(row)];
    let statements = args.declares_invariant.deep_view();
    let scope = args.invariant_scope.deep_view();
    let third = invariant_writes(ids, times, id, statements, scope);
    let all = record_writes(log, args, inputs, task_ms, id, ms, ids, times);
    assert(all =~= (first + second) + third);
    admits_all_split(log, first + second, third);
    admits_all_split(log, first, second);
    after_all_add(log, first + second, third);
    after_all_add(log, first, second);
    let one = log.after_all(first);
    assert(one.decisions == log.decisions && one.invariants == log.invariants && ascending(one.tasks)) by {
        if first.len() > 0 {
            let task = args.task_id.deep_view()->0;
            let t = new_task(task, task_ms, None, args.instruction.deep_view());
            one_change(log, ChangeView::AddTask(t));
            insert_row_keeps(log.tasks, t);
            insert_row_lookup(log.tasks, t, task);
        } else {
            assert(first =~= Seq::empty());
        }
    }
    if let Some(task) = args.task_id.deep_view() {
        if !holds(log.tasks, task) {
            let t = new_task(task, task_ms, None, args.instruction.deep_view());
            one_change(log, ChangeView::AddTask(t));
            insert_row_lookup(log.tasks, t, task);
        } else {
            assert(first =~= Seq::empty());
        }
    }
    one_change(one, ChangeView::AddDecision(row));
    reveal_with_fuel(admits_all, 2);
    assert(second.drop_last() =~= Seq::empty());
    assert(second.last() == ChangeView::AddDecision(row));
    let two = one.after_all(second);
    insert_row_keeps(log.decisions, row);
    insert_row_lookup(log.decisions, row, id);
    assert forall|other: Seq<char>| other != id implies #[trigger] lookup(two.decisions, other) == lookup(
        log.decisions,
        other,
    ) by {
        insert_row_lookup(log.decisions, row, other);
    }
    declared_are_found(two, ids, times, id, statements, scope);
}

proof fn admits_all_split(log: Log, a: Seq<ChangeView>, b: Seq<ChangeView>)
    requires
        admits_all(log, a + b),
    ensures
        admits_all(log, a),
        admits_all(log.after_all(a), b),
    decreases b.len(),
{
    if b.len() > 0 {
        assert((a + b).drop_last() =~= a + b.drop_last());
        assert((a + b).last() == b.last());
        admits_all_split(log, a, b.drop_last());
        after_all_add(log, a, b.drop_last());
    } else {
        assert(a + b =~= a);
    }
}

proof fn declared_are_found(
    log: Log,
    ids: Seq<Seq<char>>,
    times: Seq<i64>,
    decision: Seq<char>,
    statements: Seq<Seq<char>>,
    scope: Option<Seq<char>>,
)
    requires
        ascending(log.invariants),
        admits_all(log, invariant_writes(ids, times, decision, statements, scope)),
    ensures
        ({
            let next = log.after_all(invariant_writes(ids, times, decision, statements, scope));
            &&& next.decisions == log.decisions && next.tasks == log.tasks && ascending(next.invariants)
            &&& forall|k: int|
                0 <= k < ids.len() ==> declares(next, #[trigger] ids[k], decision, statements[k], scope)
        }),
    decreases ids.len(),
{
    let all = invariant_writes(ids, times, decision, statements, scope);
    let next = log.after_all(all);
    if ids.len() > 0 {
        let front = ids.drop_last();
        let some = invariant_writes(front, times, decision, statements, scope);
        assert(all.drop_last() =~= some);
        declared_are_found(log, front, times, decision, statements, scope);
        let last = ids.len() - 1;
        let v = new_invariant(ids[last], times[last], decision, statements[last], scope);
        assert(all.last() == ChangeView::AddInvariant(v));
        let so_far = log.after_all(some);
        insert_row_keeps(so_far.invariants, v);
        assert forall|k: int| 0 <= k < ids.len() implies declares(
            next,
            #[trigger] ids[k],
            decision,
            statements[k],
            scope,
        ) by {
            insert_row_lookup(so_far.invariants, v, ids[k]);
            if k < last {
                assert(front[k] == ids[k]);
                assert(declares(so_far, front[k], decision, statements[k], scope));
                lookup_sound(so_far.invariants, ids[k]);
            }
        }
    }
}

/// Records a decision. Where something refuses it, what was written before stays: the
/// task that it names, or the decision without the invariants that follow.
pub fn run(store: &mut Store, args: &RecordArgs, inputs: &RecordInputs) -> (r: Result<
    RecordResult,
    AppError,
>)
    requires
        old(store).wf(),
    ensures
        final(store).wf(),
        r matches Ok(reply) ==> recorded(old(store), final(store), *args, *inputs, reply),
        r matches Ok(reply) ==> (lookup(final(store)@.decisions, reply.id@) matches Some(d)
            && d.staged && d.binding is None && d.rationale == inputs.rationale@
            && d.caused_by == args.caused_by.deep_view() && d.supersedes == args.supersedes.deep_view()
            && d.task_id == args.task_id.deep_view() && d.conversation_id
            == args.conversation_id.deep_view() && d.agent.role == args.agent_role@ && d.agent.model
            == args.agent_model@ && d.agent.session_id == args.agent_session.deep_view()
            && d.agent.author == args.author.deep_view()),
        r matches Ok(reply) ==> (lookup(final(store)@.decisions, reply.id@) matches Some(d)
            && d.rejected.len() == args.rejected@.len() && d.anchors.len() == inputs.anchors@.len()
            && (forall|k: int|
            0 <= k < d.rejected.len() ==> #[trigger] d.rejected[k] == rejected_of(args.rejected@[k]@)) && (
        forall|k: int|
            0 <= k < d.anchors.len() ==> #[trigger] d.anchors[k] == observed(
                inputs.anchors@[k]@,
                if k < inputs.sources@.len() {
                    inputs.sources@[k].deep_view()
                } else {
                    None
                },
                inputs.sha.deep_view(),
            ))),
        r matches Ok(reply) ==> forall|id: Seq<char>|
            id != reply.id@ ==> #[trigger] lookup(final(store)@.decisions, id) == lookup(
                old(store)@.decisions,
                id,
            ),
        r matches Ok(reply) ==> forall|k: int|
            0 <= k < args.declares_invariant@.len() ==> declares(
                final(store)@,
                #[trigger] reply.declared_invariants@[k]@,
                reply.id@,
                args.declares_invariant@[k]@,
                args.invariant_scope.deep_view(),
            ),
        r matches Ok(reply) ==> (args.task_id matches Some(task) ==> (if holds(
            old(store)@.tasks,
            task@,
        ) {
            lookup(final(store)@.tasks, task@) == lookup(old(store)@.tasks, task@)
        } else {
            lookup(final(store)@.tasks, task@) matches Some(t) && t.instruction
                == args.instruction.deep_view() && t.parent_task_id is None && t.completed_at_ms is None
        })),
        r matches Err(e) ==> refused_decision(old(store), final(store), *args, e) || refused_invariant(
            old(store),
            final(store),
            *args,
            *inputs,
            e,
        ),
{
    let ghost before = store@;
    let decision = build_decision(args, inputs);
    let ghost mut task_ms: i64 = 0;
    if let Some(task) = &args.task_id {
        let instruction = match &args.instruction {
            Some(text) => Some(text.as_str()),
            None => None,
        };
        store.ensure_task(task.as_str(), instruction);
        proof {
            if !holds(before.tasks, task@) {
                let ms = choose|ms: i64|
                    ms >= 0 && #[trigger] store.wrote(
                        old(store),
                        seq![ChangeView::AddTask(new_task(task@, ms, None, instruction.deep_view()))],
                    );
                task_ms = ms;
            }
        }
    }
    let ghost first = task_writes(
        before,
        args.task_id.deep_view(),
        args.instruction.deep_view(),
        task_ms,
    );
    proof {
        if first.len() == 0 {
            assert(first =~= Seq::empty());
            nothing_wrote(old(store), store);
        } else {
            let task = args.task_id.deep_view()->0;
            let row = new_task(task, task_ms, None, args.instruction.deep_view());
            one_change(before, ChangeView::AddTask(row));
            insert_row_keeps(before.tasks, row);
            assert(holds(store@.tasks, task));
        }
    }
    let ghost middle = *store;
    let staged = store.stage_decision(&decision);
    let id = match staged {
        Ok(id) => id,
        Err(e) => {
            assert(store.wrote(old(store), first));
            let refusal = AppError::from_store(e);
            assert(refused_decision(old(store), store, *args, refusal));
            return Err(refusal);
        },
    };
    let ghost ms = choose|ms: i64|
        (#[trigger] minted(id@, ms)) && store.wrote(
            &middle,
            seq![ChangeView::AddDecision(staged_from(decision@, id@, ms))],
        );
    let ghost second = seq![ChangeView::AddDecision(staged_from(decision@, id@, ms))];
    proof {
        wrote_then(old(store), &middle, store, first, second);
        let row = staged_from(decision@, id@, ms);
        one_change(middle@, ChangeView::AddDecision(row));
        insert_row_keeps(middle@.decisions, row);
        assert(holds(store@.decisions, id@));
    }
    let scope = match &args.invariant_scope {
        Some(text) => Some(text.as_str()),
        None => None,
    };
    let mut declared: Vec<String> = Vec::new();
    let ghost mut times: Seq<i64> = Seq::empty();
    let ghost statements = args.declares_invariant.deep_view();
    let ghost lead = first + second;
    proof {
        assert(declared.deep_view() =~= Seq::empty());
        assert(invariant_writes(declared.deep_view(), times, id@, statements, scope.deep_view())
            =~= Seq::empty());
        assert(lead + Seq::<ChangeView>::empty() =~= lead);
    }
    for i in 0..args.declares_invariant.len()
        invariant
            store.wf(),
            holds(store@.decisions, id@),
            before == old(store)@,
            task_ms >= 0,
            minted(id@, ms),
            lead == task_writes(
                before,
                args.task_id.deep_view(),
                args.instruction.deep_view(),
                task_ms,
            ) + seq![ChangeView::AddDecision(staged_from(decision_of(*args, *inputs), id@, ms))],
            scope.deep_view() == args.invariant_scope.deep_view(),
            statements == args.declares_invariant.deep_view(),
            declared.len() == i,
            all_minted(declared.deep_view(), times),
            store.wrote(
                old(store),
                lead + invariant_writes(declared.deep_view(), times, id@, statements, scope.deep_view()),
            ),
    {
        let ghost here = *store;
        let ghost so_far = declared.deep_view();
        let ghost writes = invariant_writes(so_far, times, id@, statements, scope.deep_view());
        assert(statements[i as int] == args.declares_invariant[i as int]@);
        let made = store.insert_invariant(id.as_str(), args.declares_invariant[i].as_str(), scope);
        match made {
            Ok(made_id) => {
                proof {
                    let at = choose|at: i64|
                        (#[trigger] minted(made_id@, at)) && store.wrote(
                            &here,
                            seq![
                                ChangeView::AddInvariant(
                                    new_invariant(made_id@, at, id@, statements[i as int], scope.deep_view()),
                                ),
                            ],
                        );
                    let one = seq![
                        ChangeView::AddInvariant(
                            new_invariant(made_id@, at, id@, statements[i as int], scope.deep_view()),
                        ),
                    ];
                    wrote_then(old(store), &here, store, lead + writes, one);
                    one_change(here@, one[0]);
                    let old_times = times;
                    times = times.push(at);
                    let more = so_far.push(made_id@);
                    assert(invariant_writes(more, times, id@, statements, scope.deep_view())
                        =~= writes + one);
                    assert((lead + writes) + one =~= lead + (writes + one));
                    assert forall|k: int| 0 <= k < more.len() implies minted(
                        #[trigger] more[k],
                        times[k],
                    ) by {
                        if k < so_far.len() {
                            assert(minted(so_far[k], old_times[k]));
                        }
                    }
                }
                declared.push(made_id);
                assert(declared.deep_view() =~= so_far.push(made_id@));
            },
            Err(e) => {
                assert(lead + writes =~= record_writes(
                    before,
                    *args,
                    *inputs,
                    task_ms,
                    id@,
                    ms,
                    so_far,
                    times,
                ));
                let refusal = AppError::from_store(e);
                assert(refused_invariant(old(store), store, *args, *inputs, refusal));
                return Err(refusal);
            },
        }
    }
    proof {
        let writes = record_writes(
            before,
            *args,
            *inputs,
            task_ms,
            id@,
            ms,
            declared.deep_view(),
            times,
        );
        assert(writes =~= lead + invariant_writes(
            declared.deep_view(),
            times,
            id@,
            statements,
            scope.deep_view(),
        ));
        assert(store.wrote(old(store), writes));
        assert(minted(id@, ms));
        assert(declared.deep_view().len() == declared@.len());
    }
    proof {
        admits_all_split(
            old(store).saved(),
            old(store).pending(),
            record_writes(before, *args, *inputs, task_ms, id@, ms, declared.deep_view(), times),
        );
        record_is_found(
            before,
            *args,
            *inputs,
            task_ms,
            id@,
            ms,
            declared.deep_view(),
            times,
        );
        assert forall|k: int| 0 <= k < args.declares_invariant@.len() implies declares(
            store@,
            #[trigger] declared@[k]@,
            id@,
            args.declares_invariant@[k]@,
            args.invariant_scope.deep_view(),
        ) by {
            assert(declared.deep_view()[k] == declared@[k]@);
            assert(statements[k] == args.declares_invariant@[k]@);
        }
    }
    let reply = RecordResult { id, staged: true, declared_invariants: declared };
    assert(recorded_at(old(store), store, *args, *inputs, reply, task_ms, ms, times));
    Ok(reply)
}

// ---- Laws -------------------------------------------------------------------

/// A rationale is taken verbatim, but for a single `-`, which stands for what was piped in,
/// without the white space at its end.
pub proof fn rationale_is_taken(arg: Seq<char>, body: Seq<char>, tail: Seq<char>)
    requires
        blank(tail),
        body.len() > 0 ==> !text::is_space(body.last()),
    ensures
        arg != seq!['-'] ==> rationale_of(arg, body + tail) == arg,
        rationale_of(seq!['-'], body + tail) == body,
{
    reveal_strlit("-");
    assert("-"@ =~= seq!['-']);
    padding_ends(body, tail);
}

/// A spec that ends in lines anchors the file before the colon at those lines; one without
/// a colon anchors the whole as a file. Nothing else is known of the anchor yet.
pub proof fn specs_name_anchors(path: Seq<char>, a: u32, b: u32, root: Seq<char>, cwd: Seq<char>)
    ensures
        ({
            let one = anchor_of(path + seq![':'] + text::decimal_of(a as nat), root, cwd);
            let span = anchor_of(
                path + seq![':'] + (text::decimal_of(a as nat) + seq!['-'] + text::decimal_of(b as nat)),
                root,
                cwd,
            );
            let whole = anchor_of(path, root, cwd);
            let file = paths::relative_to(root, cwd, path);
            &&& one.file == file && one.line_span == Some((a, a)) && nothing_seen(one)
            &&& span.file == file && span.line_span == Some((a, b)) && nothing_seen(span)
            &&& !path.contains(':') ==> whole.file == file && whole.line_span is None && nothing_seen(whole)
        }),
{
    reveal_strlit(":");
    assert(":"@ =~= seq![':']);
    let s = text::decimal_of(a as nat);
    let t = text::decimal_of(b as nat);
    let both = s + seq!['-'] + t;
    numbers_read_back(a);
    numbers_read_back(b);
    line_specs_read(a, b);
    assert(!s.contains(':') && !t.contains(':'));
    assert(!both.contains(':')) by {
        if both.contains(':') {
            let k = both.index_of(':');
            if k < s.len() {
                assert(s[k] == ':');
            } else if k > s.len() {
                assert(t[k - s.len() - 1] == ':');
            }
        }
    }
    parted_at_mark(path, ':', s);
    parted_at_mark(path, ':', both);
}

/// Of an anchor nothing but its file and its lines is known.
pub open spec fn nothing_seen(a: AnchorView) -> bool {
    a.symbol_path is None && a.node_kind is None && a.structural_hash is None && a.recorded_at_sha is None
}

/// The anchors of a command are those of its files, in their order, and then one for each
/// changed file that has none yet; a changed file is anchored as a whole.
pub proof fn anchors_name_files(
    files: Seq<Seq<char>>,
    root: Seq<char>,
    cwd: Seq<char>,
    changed: Seq<Seq<char>>,
    file: Seq<char>,
)
    ensures
        named_anchors(files, root, cwd, None).len() == files.len(),
        forall|k: int|
            0 <= k < files.len() ==> #[trigger] named_anchors(files, root, cwd, None)[k] == anchor_of(
                files[k],
                root,
                cwd,
            ),
        ({
            let own = named_anchors(files, root, cwd, None);
            let all = named_anchors(files, root, cwd, Some(changed));
            &&& own.len() <= all.len()
            &&& forall|k: int| 0 <= k < own.len() ==> #[trigger] all[k] == own[k]
            &&& forall|k: int|
                own.len() <= k < all.len() ==> (#[trigger] all[k]).line_span is None && nothing_seen(all[k])
                    && changed.contains(all[k].file)
            &&& (exists|k: int| 0 <= k < all.len() && (#[trigger] all[k]).file == file) <==> (exists|k: int|
                0 <= k < own.len() && (#[trigger] own[k]).file == file) || changed.contains(file)
            &&& forall|j: int, k: int|
                0 <= j < k < all.len() && own.len() <= k ==> (#[trigger] all[j]).file != (
                #[trigger] all[k]).file
        }),
{
    let own = named_anchors(files, root, cwd, None);
    with_files_adds(own, changed, file);
}

proof fn with_files_adds(own: Seq<AnchorView>, changed: Seq<Seq<char>>, file: Seq<char>)
    ensures
        ({
            let all = with_files(own, changed);
            &&& own.len() <= all.len()
            &&& forall|k: int| 0 <= k < own.len() ==> #[trigger] all[k] == own[k]
            &&& forall|k: int|
                own.len() <= k < all.len() ==> (#[trigger] all[k]).line_span is None && nothing_seen(all[k])
                    && changed.contains(all[k].file)
            &&& anchored_on(all, file) <==> anchored_on(own, file) || changed.contains(file)
            &&& forall|j: int, k: int|
                0 <= j < k < all.len() && own.len() <= k ==> (#[trigger] all[j]).file != (
                #[trigger] all[k]).file
        }),
    decreases changed.len(),
{
    let all = with_files(own, changed);
    if changed.len() > 0 {
        let front = changed.drop_last();
        let last = changed.last();
        with_files_adds(own, front, file);
        let some = with_files(own, front);
        assert(changed[changed.len() - 1] == last);
        assert forall|x: Seq<char>| front.contains(x) implies changed.contains(x) by {
            assert(changed[front.index_of(x)] == x);
        }
        assert forall|k: int| own.len() <= k < all.len() implies (#[trigger] all[k]).line_span is None
            && nothing_seen(all[k]) && changed.contains(all[k].file) by {
            if k < some.len() {
                assert(all[k] == some[k]);
            } else {
                assert(all[k] == plain_anchor(last));
            }
        }
        assert forall|k: int| 0 <= k < own.len() implies #[trigger] all[k] == own[k] by {
            assert(all[k] == some[k]);
        }
        assert forall|j: int, k: int| 0 <= j < k < all.len() && own.len() <= k implies (#[trigger] all[j]).file
            != (#[trigger] all[k]).file by {
            assert(all[j] == some[j]);
            if k < some.len() {
                assert(all[k] == some[k]);
            }
        }
        if anchored_on(some, file) {
            let k = choose|k: int| 0 <= k < some.len() && (#[trigger] some[k]).file == file;
            assert(all[k].file == file);
        }
        if anchored_on(all, file) && !anchored_on(some, file) {
            let k = choose|k: int| 0 <= k < all.len() && (#[trigger] all[k]).file == file;
            assert(k < some.len() ==> some[k].file == file);
        }
        if changed.contains(file) && !front.contains(file) {
            let k = changed.index_of(file);
            assert(k < front.len() ==> front[k] == file);
            assert(file == last);
            if !anchored_on(some, last) {
                assert(all[some.len() as int].file == file);
            }
        }
    }
}

/// An anchor at a line is recorded with the definition around it: of those of its source
/// that enclose the line one that has the fewest lines. It keeps its file, and gets the
/// commit that is checked out unless it names one.
pub proof fn anchors_show_definitions(
    anchor: AnchorView,
    line: u32,
    end: u32,
    source: Option<Seq<char>>,
    sha: Option<Seq<char>>,
)
    requires
        anchor.line_span == Some((line, end)),
    ensures
        ({
            let seen = observed(anchor, source, sha);
            let defs = seen_in(anchor.file, source);
            &&& seen.file == anchor.file
            &&& seen.recorded_at_sha == (if anchor.recorded_at_sha is None {
                sha
            } else {
                anchor.recorded_at_sha
            })
            &&& (forall|j: int| 0 <= j < defs.len() ==> !spans(#[trigger] defs[j], line)) ==> seen.line_span
                == anchor.line_span && seen.symbol_path == anchor.symbol_path && seen.node_kind
                == anchor.node_kind && seen.structural_hash == anchor.structural_hash
            &&& forall|j: int|
                0 <= j < defs.len() && spans(#[trigger] defs[j], line) ==> carries_narrowest(defs, line, seen)
        }),
{
    let seen = observed(anchor, source, sha);
    let defs = seen_in(anchor.file, source);
    innermost_is_narrowest(defs, line);
    if let Some(d) = innermost_of(defs, line) {
        let k = choose|k: int| #[trigger] is_narrowest(defs, line, k) && defs[k] == d;
        assert(seen.symbol_path == Some(defs[k].symbol_path));
        assert(carries_narrowest(defs, line, seen));
    }
}

/// An anchor carries a definition around a line that has the fewest lines: its path, its
/// kind, its hash and its lines.
pub open spec fn carries_narrowest(defs: Seq<DefinitionView>, line: u32, a: AnchorView) -> bool {
    exists|k: int| #[trigger]
        is_narrowest(defs, line, k) && a.symbol_path == Some(defs[k].symbol_path) && a.node_kind == Some(
            defs[k].node_kind,
        ) && a.structural_hash == Some(defs[k].structural_hash) && a.line_span == Some(defs[k].line_span)
}

/// An anchor without lines stays on its file.
pub proof fn whole_files_stay(anchor: AnchorView, source: Option<Seq<char>>, sha: Option<Seq<char>>)
    requires
        anchor.line_span is None,
    ensures
        observed(anchor, source, sha) == (AnchorView {
            recorded_at_sha: if anchor.recorded_at_sha is None {
                sha
            } else {
                anchor.recorded_at_sha
            },
            ..anchor
        }),
{
}

/// An alternative is what stands before the first `::`, with what stands after it as the
/// reason, both without white space around them; without a `::` the whole is the approach.
pub proof fn alternatives_are_read(approach: Seq<char>, reason: Seq<char>)
    requires
        !approach.contains(':'),
    ensures
        rejected_of(approach + seq![':', ':'] + reason).approach == trimmed(approach),
        rejected_of(approach + seq![':', ':'] + reason).reason == trimmed(reason),
        rejected_of(approach).approach == trimmed(approach),
        rejected_of(approach).reason == Seq::<char>::empty(),
{
    reveal_strlit("::");
    assert("::"@ =~= seq![':', ':']);
    assert(seq![':', ':'][0] == ':');
    parted_after(approach, seq![':', ':'], reason);
}

/// Changed files are spelled from the root, in their order; the store's own directory and
/// what is inside it are left out, and nothing else.
pub proof fn changed_files_are_spelled(
    root: Seq<char>,
    cwd: Seq<char>,
    toplevel: Seq<char>,
    changed: Seq<Seq<char>>,
    n: int,
    file: Seq<char>,
)
    requires
        0 <= n <= changed.len(),
    ensures
        changed_anchors(root, cwd, toplevel, changed, n).contains(file) <==> !lies_under(
            file,
            seq!['.', 'd', 'l', 'o', 'g'],
        ) && exists|k: int|
            0 <= k < n && paths::relative_to(root, cwd, paths::joined_path(toplevel, #[trigger] changed[k]))
                == file,
    decreases n,
{
    let all = changed_anchors(root, cwd, toplevel, changed, n);
    store_is_its_directory(file);
    if n > 0 {
        changed_files_are_spelled(root, cwd, toplevel, changed, n - 1, file);
        let some = changed_anchors(root, cwd, toplevel, changed, n - 1);
        let path = paths::relative_to(root, cwd, paths::joined_path(toplevel, changed[n - 1]));
        store_is_its_directory(path);
        if some.contains(file) {
            assert(all[some.index_of(file)] == file);
        }
        if all.contains(file) && !some.contains(file) {
            let k = all.index_of(file);
            assert(k < some.len() ==> some[k] == file);
            assert(file == path);
        }
        if file == path && !in_store(path) {
            assert(all[some.len() as int] == file);
        }
    }
}

proof fn store_is_its_directory(path: Seq<char>)
    ensures
        in_store(path) <==> lies_under(path, seq!['.', 'd', 'l', 'o', 'g']),
{
    reveal_strlit(".dlog");
    reveal_strlit("/");
    let dir = seq!['.', 'd', 'l', 'o', 'g'];
    assert(DLOG_DIR@ =~= dir);
    assert(dir != seq!['.']) by {
        assert(dir.len() == 5);
    }
    crate::queries::covers_is_under(dir, path);
    reveal_strlit(".");
    assert("."@.len() == 1);
}

/// A line of `git status --porcelain` names the path after its two marks and a space; of a
/// rename it names the new path; quotes around a path do not count.
pub proof fn status_lines_name_paths(x: char, y: char, path: Seq<char>, before: Seq<char>)
    requires
        (x as u32) < 0x80 && (y as u32) < 0x80,
        path.len() > 0,
        !text::is_space(path[0]) && !text::is_space(path.last()),
        path[0] != '"' && path.last() != '"',
        !path.contains('>'),
    ensures
        porcelain_path(seq![x, y, ' '] + path) == Some(path),
        porcelain_path(seq![x, y, ' '] + (before + seq![' ', '-', '>', ' '] + path)) == Some(path),
        porcelain_path(seq![x, y, ' '] + (seq!['"'] + path + seq!['"'])) == Some(path),
{
    reveal_strlit(" -> ");
    let arrow = seq![' ', '-', '>', ' '];
    assert(" -> "@ =~= arrow);
    rest_of_status(x, y, path);
    trim_undoes_padding(Seq::empty(), path, Seq::empty());
    assert(Seq::<char>::empty() + path + Seq::<char>::empty() =~= path);
    assert(arrow[0] == ' ' && arrow[1] == '-' && arrow[2] == '>' && arrow[3] == ' ');
    rparted_before(before, arrow, path, 2);
    assert(unquoted_end(unquoted_start(path)) == path);

    let renamed = before + arrow + path;
    rest_of_status(x, y, renamed);

    let quoted = seq!['"'] + path + seq!['"'];
    rest_of_status(x, y, quoted);
    assert(quoted[0] == '"' && quoted.last() == '"');
    assert(!text::is_space('"'));
    trim_undoes_padding(Seq::empty(), quoted, Seq::empty());
    assert(Seq::<char>::empty() + quoted + Seq::<char>::empty() =~= quoted);
    assert(!quoted.contains('>')) by {
        if quoted.contains('>') {
            let k = quoted.index_of('>');
            if 0 < k && k < quoted.len() - 1 {
                assert(path[k - 1] == '>');
            }
        }
    }
    rparted_before(before, arrow, quoted, 2);
    let open = path.push('"');
    assert(quoted.drop_first() =~= open);
    assert(open[0] == path[0]);
    assert(unquoted_start(quoted) == unquoted_start(open));
    assert(unquoted_start(open) == open);
    assert(open.drop_last() =~= path);
    assert(unquoted_end(open) == unquoted_end(path));
}

proof fn rest_of_status(x: char, y: char, rest: Seq<char>)
    requires
        (x as u32) < 0x80 && (y as u32) < 0x80,
        rest.len() > 0,
    ensures
        ({
            let line = seq![x, y, ' '] + rest;
            &&& utf8(line).len() >= 4
            &&& text_between(line, 3, utf8(line).len() as int) == Some(rest)
        }),
{
    let line = seq![x, y, ' '] + rest;
    let two = seq![y, ' '] + rest;
    let one = seq![' '] + rest;
    assert(line.drop_first() =~= two);
    assert(two.drop_first() =~= one);
    assert(one.drop_first() =~= rest);
    ascii_starts(line);
    ascii_starts(two);
    ascii_starts(one);
    let bytes = utf8(line);
    assert(bytes.skip(1) =~= utf8(two));
    assert(utf8(two).skip(1) =~= utf8(one));
    assert(utf8(one).skip(1) =~= utf8(rest));
    assert(bytes.subrange(3, bytes.len() as int) =~= utf8(rest)) by {
        assert forall|k: int| 0 <= k < utf8(rest).len() implies bytes.subrange(3, bytes.len() as int)[k]
            == utf8(rest)[k] by {
            assert(utf8(rest)[k] == utf8(one).skip(1)[k]);
            assert(utf8(one)[k + 1] == utf8(two).skip(1)[k + 1]);
            assert(utf8(two)[k + 2] == bytes.skip(1)[k + 2]);
        }
    }
    vstd::utf8::encode_utf8_decode_utf8(rest);
    vstd::utf8::encode_utf8_valid_utf8(line);
    vstd::utf8::encode_utf8_valid_utf8(rest);
    vstd::utf8::is_char_boundary_start_end_of_seq(bytes);
    assert(utf8(rest).len() > 0) by {
        assert(utf8(rest) == vstd::utf8::encode_scalar(rest[0] as u32) + utf8(rest.drop_first()));
    }
    vstd::utf8::is_char_boundary_start_end_of_seq(utf8(rest));
    vstd::utf8::is_char_boundary_iff_not_is_continuation_byte(utf8(rest), 0);
    assert(bytes[3] == utf8(rest)[0]) by {
        assert(bytes.subrange(3, bytes.len() as int)[0] == bytes[3]);
    }
    vstd::utf8::is_char_boundary_iff_not_is_continuation_byte(bytes, 3);
}

proof fn ascii_starts(s: Seq<char>)
    requires
        s.len() > 0,
        (s[0] as u32) < 0x80,
    ensures
        utf8(s).len() == utf8(s.drop_first()).len() + 1,
        utf8(s).skip(1) == utf8(s.drop_first()),
{
    let head = vstd::utf8::encode_scalar(s[0] as u32);
    assert(head.len() == 1);
    assert(utf8(s) == head + utf8(s.drop_first()));
    assert(utf8(s).skip(1) =~= utf8(s.drop_first()));
}

/// The decision that is recorded says what the arguments named, in their order.
pub proof fn decisions_say_what_was_named(args: RecordArgs, inputs: RecordInputs, k: int)
    ensures
        ({
            let d = decision_of(args, inputs);
            &&& d.rationale == inputs.rationale@
            &&& d.task_id == args.task_id.deep_view()
            &&& d.agent.role == args.agent_role@
            &&& d.agent.model == args.agent_model@
            &&& d.agent.session_id == args.agent_session.deep_view()
            &&& d.agent.author == args.author.deep_view()
            &&& d.conversation_id == args.conversation_id.deep_view()
            &&& d.supersedes == args.supersedes.deep_view()
            &&& d.caused_by.len() == args.caused_by@.len()
            &&& 0 <= k < args.caused_by@.len() ==> d.caused_by[k] == args.caused_by@[k]@
            &&& d.rejected.len() == args.rejected@.len()
            &&& 0 <= k < args.rejected@.len() ==> d.rejected[k] == rejected_of(args.rejected@[k]@)
            &&& d.anchors.len() == inputs.anchors@.len()
            &&& 0 <= k < inputs.anchors@.len() ==> d.anchors[k].file == inputs.anchors@[k].file@
        }),
{
}

} // verus!
