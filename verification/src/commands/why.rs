//! `dlog why`: explains the decisions behind a location or symbol.
//!
//! The target is resolved to a node, the resolver tells which decisions match and at what
//! confidence, and the compact form is returned. Superseded decisions are left out by
//! default; staged ones are shown and flagged.
use crate::anchor::{
    definition_at_line, encloses, innermost_is_least, innermost_of, language_for_path, path_language,
    source_definitions, DefinitionView,
};
use crate::cli::WhyArgs;
use crate::commands::compact::{candidate_rows, collect, costs_of, is_page, live_ids, CompactRow};
use crate::commands::{
    line_span_of, line_specs_read, only_numbers_are_lines, parse_line_spec, Workspace,
};
use crate::output::{QueryEnvelope, Resolved as ResolvedHead};
use crate::paths;
use crate::resolve::{resolution_of, resolve, QueryNode, QueryNodeView};
use crate::store::Store;
use crate::text::facts::{numbers_read_back, parted_at_first, parted_at_mark};
use crate::text::{self, first_at};
use vstd::prelude::*;

verus! {

/// Describes the interpreted query.
#[derive(Debug, PartialEq, Eq)]
pub struct QueryDesc {
    pub kind: &'static str,
    pub target: String,
}

/// What a target names.
#[derive(Debug, PartialEq, Eq)]
pub enum Target {
    /// A line of a file, or the first of a range.
    Line { path: String, line: u32 },
    /// A file.
    File(String),
    /// A symbol path.
    Symbol(String),
}

/// The value of a `Target`.
pub ghost enum TargetView {
    Line { path: Seq<char>, line: u32 },
    File(Seq<char>),
    Symbol(Seq<char>),
}

impl View for Target {
    type V = TargetView;

    open spec fn view(&self) -> TargetView {
        match self {
            Target::Line { path, line } => TargetView::Line { path: path@, line: *line },
            Target::File(path) => TargetView::File(path@),
            Target::Symbol(name) => TargetView::Symbol(name@),
        }
    }
}

/// `file:line` and `file:start-end` name a line; anything else with a slash, or with a
/// dot and no `::`, names a file; the rest names a symbol.
pub open spec fn target_of(s: Seq<char>) -> TargetView {
    let at_line = match text::rparted(s, ":"@) {
        Some((path, lines)) => match line_span_of(lines) {
            Some((start, _)) => Some(TargetView::Line { path, line: start }),
            None => None,
        },
        None => None,
    };
    match at_line {
        Some(t) => t,
        None => if first_at(s, "/"@) is Some || (first_at(s, "."@) is Some && first_at(s, "::"@) is None) {
            TargetView::File(s)
        } else {
            TargetView::Symbol(s)
        },
    }
}

/// Interprets a target.
pub fn read_target(target: &str) -> (r: Target)
    ensures
        r@ == target_of(target@),
{
    if let Some((path, lines)) = text::rsplit_once(target, ":") {
        if let Some((start, _)) = parse_line_spec(lines.as_str()) {
            return Target::Line { path, line: start };
        }
    }
    if text::contains(target, "/") || (text::contains(target, ".") && !text::contains(target, "::")) {
        return Target::File(text::owned(target));
    }
    Target::Symbol(text::owned(target))
}

/// The file whose source would tell which definition a target means.
pub fn source_wanted(target: &str) -> (r: Option<String>)
    ensures
        r.deep_view() == (match target_of(target@) {
            TargetView::Line { path, line } => if path_language(path) is Some {
                Some(path)
            } else {
                None
            },
            _ => None,
        }),
{
    match read_target(target) {
        Target::Line { path, line } => if language_for_path(path.as_str()).is_some() {
            Some(path)
        } else {
            None
        },
        _ => None,
    }
}

/// The node that a target means, given the source of its file: the definition around its
/// line where there is one, else the file, else the symbol. Paths are taken from `cwd` and
/// stored relative to the root.
pub open spec fn query_of(target: Seq<char>, root: Seq<char>, cwd: Seq<char>, source: Option<Seq<char>>) -> QueryNodeView {
    match target_of(target) {
        TargetView::Symbol(name) => QueryNodeView {
            file: None,
            symbol_path: Some(name),
            structural_hash: None,
        },
        TargetView::File(path) => QueryNodeView {
            file: Some(paths::relative_to(root, cwd, path)),
            symbol_path: None,
            structural_hash: None,
        },
        TargetView::Line { path, line } => {
            let file = Some(paths::relative_to(root, cwd, path));
            let found = match (path_language(path), source) {
                (Some(lang), Some(text)) => innermost_of(source_definitions(lang, text), line),
                _ => None,
            };
            match found {
                Some(d) => QueryNodeView {
                    file,
                    symbol_path: Some(d.symbol_path),
                    structural_hash: Some(d.structural_hash),
                },
                None => QueryNodeView { file, symbol_path: None, structural_hash: None },
            }
        },
    }
}

/// The node at a line of a file.
fn node_for_file_line(file: &str, path: &str, line: u32, source: Option<&str>) -> (r: QueryNode)
    ensures
        r@ == (match (match (path_language(path@), source.deep_view()) {
            (Some(lang), Some(text)) => innermost_of(source_definitions(lang, text), line),
            _ => None,
        }) {
            Some(d) => QueryNodeView {
                file: Some(file@),
                symbol_path: Some(d.symbol_path),
                structural_hash: Some(d.structural_hash),
            },
            None => QueryNodeView { file: Some(file@), symbol_path: None, structural_hash: None },
        }),
{
    if let Some(lang) = language_for_path(path) {
        if let Some(text) = source {
            if let Some(def) = definition_at_line(text, line, &lang) {
                return QueryNode::from_definition(file, &def);
            }
        }
    }
    QueryNode::file_level(file)
}

/// Interprets a target into a query.
pub fn build_query_node(target: &str, workspace: &Workspace, cwd: &str, source: Option<&str>) -> (r: QueryNode)
    ensures
        r@ == query_of(target@, workspace.root@, cwd@, source.deep_view()),
{
    match read_target(target) {
        Target::Line { path, line } => {
            let file = workspace.relativize(cwd, path.as_str());
            node_for_file_line(file.as_str(), path.as_str(), line, source)
        },
        Target::File(path) => {
            let file = workspace.relativize(cwd, path.as_str());
            QueryNode::file_level(file.as_str())
        },
        Target::Symbol(name) => QueryNode {
            file: None,
            symbol_path: Some(name),
            structural_hash: None,
        },
    }
}

/// What a query is shown as: its symbol, else its file, else the target.
pub open spec fn node_shown(query: QueryNodeView, target: Seq<char>) -> Seq<char> {
    match (query.symbol_path, query.file) {
        (Some(symbol), _) => symbol,
        (None, Some(file)) => file,
        (None, None) => target,
    }
}

/// The reply for a query that is already interpreted.
pub fn answer(store: &Store, args: &WhyArgs, query: &QueryNode) -> (r: QueryEnvelope<QueryDesc, CompactRow>)
    requires
        store.wf(),
    ensures
        r.query.kind@ == "why"@,
        r.query.target@ == args.target@,
        ({
            let outcome = resolution_of(store@, query@);
            let ids = outcome.decisions;
            let rows = candidate_rows(store@, ids, args.include_superseded, args.budget as nat);
            let n = r.results@.len() as int;
            &&& r.resolved matches Some(head) && head.node@ == node_shown(query@, args.target@)
                && head.resolution == outcome.resolution
            &&& is_page(costs_of(rows), args.limit as nat, args.budget as nat, n)
            &&& r.results.deep_view() == rows.take(n)
            &&& r.elided == live_ids(store@, ids, args.include_superseded).len() - n
            &&& r.truncated == (r.elided > 0)
        }),
{
    let resolved = resolve(store, query);
    let (results, truncated, elided) = collect(
        store,
        &resolved.decisions,
        args.include_superseded,
        args.limit,
        args.budget,
    );
    let node = match (&query.symbol_path, &query.file) {
        (Some(symbol), _) => symbol.clone(),
        (None, Some(file)) => file.clone(),
        (None, None) => args.target.clone(),
    };
    QueryEnvelope {
        query: QueryDesc { kind: "why", target: args.target.clone() },
        resolved: Some(ResolvedHead { node, resolution: resolved.resolution }),
        results,
        truncated,
        elided,
    }
}

/// Explains the decisions behind a location or symbol. `source` is that of the file that
/// the target names, where it was read.
pub fn run(store: &Store, workspace: &Workspace, cwd: &str, args: &WhyArgs, source: Option<&str>) -> (r:
    QueryEnvelope<QueryDesc, CompactRow>)
    requires
        store.wf(),
    ensures
        r.query.kind@ == "why"@,
        r.query.target@ == args.target@,
        ({
            let query = query_of(args.target@, workspace.root@, cwd@, source.deep_view());
            let outcome = resolution_of(store@, query);
            let ids = outcome.decisions;
            let rows = candidate_rows(store@, ids, args.include_superseded, args.budget as nat);
            let n = r.results@.len() as int;
            &&& r.resolved matches Some(head) && head.node@ == node_shown(query, args.target@)
                && head.resolution == outcome.resolution
            &&& is_page(costs_of(rows), args.limit as nat, args.budget as nat, n)
            &&& r.results.deep_view() == rows.take(n)
            &&& r.elided == live_ids(store@, ids, args.include_superseded).len() - n
            &&& r.truncated == (r.elided > 0)
        }),
{
    let query = build_query_node(args.target.as_str(), workspace, cwd, source);
    answer(store, args, &query)
}

// ---- Laws -------------------------------------------------------------------

/// A file and a line ask for the definition around the line: of those that enclose it one
/// that spans the fewest lines, by its path and its hash. Where nothing encloses the line,
/// or the file has no source or no supported language, the file is asked for.
pub proof fn lines_ask_for_definitions(
    path: Seq<char>,
    line: u32,
    root: Seq<char>,
    cwd: Seq<char>,
    source: Option<Seq<char>>,
)
    ensures
        ({
            let query = query_of(path + seq![':'] + text::decimal_of(line as nat), root, cwd, source);
            let defs = seen_in(path, source);
            &&& query.file == Some(paths::relative_to(root, cwd, path))
            &&& (forall|j: int| 0 <= j < defs.len() ==> !spans(#[trigger] defs[j], line))
                ==> query.symbol_path is None && query.structural_hash is None
            &&& forall|j: int|
                0 <= j < defs.len() && spans(#[trigger] defs[j], line) ==> asks_for_narrowest(
                    defs,
                    line,
                    query,
                )
        }),
{
    reveal_strlit(":");
    assert(":"@ =~= seq![':']);
    let lines = text::decimal_of(line as nat);
    numbers_read_back(line);
    assert(!lines.contains(':'));
    line_specs_read(line, line);
    parted_at_mark(path, ':', lines);
    let defs = seen_in(path, source);
    innermost_is_narrowest(defs, line);
    let s = path + seq![':'] + lines;
    assert(target_of(s) == TargetView::Line { path, line });
    let query = query_of(s, root, cwd, source);
    match innermost_of(defs, line) {
        Some(d) => {
            let k = choose|k: int| #[trigger] is_narrowest(defs, line, k) && defs[k] == d;
            assert(query.symbol_path == Some(defs[k].symbol_path));
            assert(asks_for_narrowest(defs, line, query));
            assert(spans(defs[k], line));
        },
        None => {
            assert(query.symbol_path is None && query.structural_hash is None);
        },
    }
}

/// The innermost definition is one around the line that has the fewest lines.
pub proof fn innermost_is_narrowest(defs: Seq<DefinitionView>, line: u32)
    ensures
        match innermost_of(defs, line) {
            Some(d) => exists|k: int| #[trigger] is_narrowest(defs, line, k) && defs[k] == d,
            None => forall|j: int| 0 <= j < defs.len() ==> !spans(#[trigger] defs[j], line),
        },
{
    innermost_is_least(defs, line);
    match innermost_of(defs, line) {
        Some(d) => {
            let k = defs.index_of(d);
            assert(defs[k] == d);
            assert forall|j: int| 0 <= j < defs.len() && spans(#[trigger] defs[j], line) implies defs[k].line_span.1
                - defs[k].line_span.0 <= defs[j].line_span.1 - defs[j].line_span.0 by {
                assert(encloses(defs[j], line));
            }
            assert(is_narrowest(defs, line, k));
        },
        None => {
            assert forall|j: int| 0 <= j < defs.len() implies !spans(#[trigger] defs[j], line) by {
                assert(!encloses(defs[j], line));
            }
        },
    }
}

/// The definitions that the source of a file shows, where it was read and its language is
/// supported.
pub open spec fn seen_in(path: Seq<char>, source: Option<Seq<char>>) -> Seq<DefinitionView> {
    match (path_language(path), source) {
        (Some(lang), Some(text)) => source_definitions(lang, text),
        _ => Seq::empty(),
    }
}

/// A definition spans a line.
pub open spec fn spans(d: DefinitionView, line: u32) -> bool {
    d.line_span.0 <= line && line <= d.line_span.1
}

/// A definition spans a line, and no other that does has fewer lines.
pub open spec fn is_narrowest(defs: Seq<DefinitionView>, line: u32, k: int) -> bool {
    &&& 0 <= k < defs.len()
    &&& spans(defs[k], line)
    &&& forall|j: int|
        0 <= j < defs.len() && spans(#[trigger] defs[j], line) ==> defs[k].line_span.1 - defs[k].line_span.0
            <= defs[j].line_span.1 - defs[j].line_span.0
}

/// A query asks for a definition around a line that has the fewest lines.
pub open spec fn asks_for_narrowest(defs: Seq<DefinitionView>, line: u32, query: QueryNodeView) -> bool {
    exists|k: int| #[trigger]
        is_narrowest(defs, line, k) && query.symbol_path == Some(defs[k].symbol_path)
            && query.structural_hash == Some(defs[k].structural_hash)
}

/// A text with a `/`, or with a dot and no `::`, that does not end in lines asks for that
/// file; any other asks for the symbol of that name.
pub proof fn files_and_symbols_are_told_apart(
    target: Seq<char>,
    root: Seq<char>,
    cwd: Seq<char>,
    source: Option<Seq<char>>,
)
    requires
        target.len() > 0,
        !('0' <= target.last() && target.last() <= '9'),
        target.last() != '-' && target.last() != '+' && target.last() != ':' && !text::is_space(target.last()),
    ensures
        ({
            let query = query_of(target, root, cwd, source);
            let names_file = target.contains('/') || (target.contains('.') && forall|i: int|
                #![trigger target[i]]
                0 <= i < target.len() - 1 ==> !(target[i] == ':' && target[i + 1] == ':'));
            &&& names_file ==> query.file == Some(paths::relative_to(root, cwd, target)) && query.symbol_path is None
                && query.structural_hash is None
            &&& !names_file ==> query.file is None && query.symbol_path == Some(target)
                && query.structural_hash is None
        }),
{
    reveal_strlit(":");
    reveal_strlit("/");
    reveal_strlit(".");
    reveal_strlit("::");
    parted_at_first(target, ":"@);
    if let Some((path, lines)) = text::rparted(target, ":"@) {
        if lines.len() == 0 {
            assert((path + ":"@ + lines).last() == ':');
        } else {
            assert((path + ":"@ + lines).last() == lines.last());
            if line_span_of(lines) is Some {
                only_numbers_are_lines(lines, lines.len() - 1);
            }
        }
    }
    assert("/"@ =~= seq!['/']);
    assert("."@ =~= seq!['.']);
    mark_stands(target, '/', "/"@);
    mark_stands(target, '.', "."@);
    text::first_from_least(target, "::"@, 0);
    if let Some(k) = first_at(target, "::"@) {
        assert(target.subrange(k, k + 2)[0] == target[k]);
        assert(target.subrange(k, k + 2)[1] == target[k + 1]);
        assert("::"@[0] == ':' && "::"@[1] == ':');
    } else {
        assert forall|i: int|
            #![trigger target[i]]
            0 <= i < target.len() - 1 implies !(target[i] == ':' && target[i + 1] == ':') by {
            if target[i] == ':' && target[i + 1] == ':' {
                assert(target.subrange(i, i + 2) =~= "::"@);
                assert(text::occurs_at(target, "::"@, i));
            }
        }
    }
}

proof fn mark_stands(s: Seq<char>, c: char, pat: Seq<char>)
    requires
        pat == seq![c],
    ensures
        first_at(s, pat) is Some <==> s.contains(c),
{
    text::first_from_least(s, pat, 0);
    if let Some(k) = first_at(s, pat) {
        assert(s.subrange(k, k + 1)[0] == s[k]);
        assert(s.contains(s[k]));
    }
    if s.contains(c) {
        let k = s.index_of(c);
        assert(s.subrange(k, k + 1) =~= pat);
        assert(text::occurs_at(s, pat, k));
    }
}

/// A query is shown by its symbol where it has one, and otherwise by its file.
pub proof fn queries_are_shown(query: QueryNodeView, target: Seq<char>)
    ensures
        query.symbol_path matches Some(s) ==> node_shown(query, target) == s,
        query.symbol_path is None ==> (query.file matches Some(f) ==> node_shown(query, target) == f),
        query.symbol_path is None && query.file is None ==> node_shown(query, target) == target,
{
}

} // verus!
