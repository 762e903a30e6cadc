//! Query-time anchor resolution.
//!
//! Identity is not stored, it is judged here. A stored anchor only records what was
//! observed when a decision was made; at query time that is compared with what is
//! asked about, and the confidence is reported as a [`Resolution`]. Resolution never
//! fails: when nothing better matches it degrades to file level.
//!
//! | symbol path | structural hash | resolution      |
//! |-------------|-----------------|-----------------|
//! | match       | match           | `exact`         |
//! | match       | mismatch        | `drifted`       |
//! | mismatch    | match           | `relocated`     |
//! | mismatch    | mismatch        | `file_fallback` |
//!
//! An absent query field cannot match on its axis. A hash that spans more than one
//! symbol is ambiguous and counts as a mismatch.
use crate::anchor::Definition;
use crate::log::{has_anchor, Log};
use crate::model::{AnchorView, StoredDecisionView};
use crate::output::Resolution;
use crate::store::{selection, Store};
use crate::table::{ids_where, Keyed};
use crate::text;
use vstd::prelude::*;

verus! {

/// What the query knows about the node it asks about, observed from the current code.
/// Any field may be absent.
#[derive(Debug, PartialEq, Eq)]
pub struct QueryNode {
    pub file: Option<String>,
    pub symbol_path: Option<String>,
    pub structural_hash: Option<String>,
}

/// The value of a `QueryNode`.
pub ghost struct QueryNodeView {
    pub file: Option<Seq<char>>,
    pub symbol_path: Option<Seq<char>>,
    pub structural_hash: Option<Seq<char>>,
}

impl DeepView for QueryNode {
    type V = QueryNodeView;

    open spec fn deep_view(&self) -> QueryNodeView {
        QueryNodeView {
            file: self.file.deep_view(),
            symbol_path: self.symbol_path.deep_view(),
            structural_hash: self.structural_hash.deep_view(),
        }
    }
}

impl View for QueryNode {
    type V = QueryNodeView;

    open spec fn view(&self) -> QueryNodeView {
        self.deep_view()
    }
}

impl Clone for QueryNode {
    fn clone(&self) -> (r: Self)
        ensures
            r@ == self@,
    {
        QueryNode {
            file: self.file.clone(),
            symbol_path: self.symbol_path.clone(),
            structural_hash: self.structural_hash.clone(),
        }
    }
}

impl QueryNode {
    /// A file-level query (no node resolved), e.g. a non-code path or a line outside
    /// any definition.
    pub fn file_level(file: &str) -> (r: Self)
        ensures
            r@ == (QueryNodeView { file: Some(file@), symbol_path: None, structural_hash: None }),
    {
        QueryNode { file: Some(text::owned(file)), symbol_path: None, structural_hash: None }
    }

    /// A query carrying the node observed at a location.
    pub fn from_definition(file: &str, def: &Definition) -> (r: Self)
        ensures
            r@ == (QueryNodeView {
                file: Some(file@),
                symbol_path: Some(def@.symbol_path),
                structural_hash: Some(def@.structural_hash),
            }),
    {
        QueryNode {
            file: Some(text::owned(file)),
            symbol_path: Some(def.symbol_path.clone()),
            structural_hash: Some(def.structural_hash.clone()),
        }
    }
}

/// The outcome of resolving a query: the confidence tier plus every decision the
/// anchor matches, newest first.
#[derive(Debug, PartialEq, Eq)]
pub struct Resolved {
    pub resolution: Resolution,
    pub decisions: Vec<String>,
}

/// The value of a `Resolved`.
pub ghost struct ResolvedView {
    pub resolution: Resolution,
    pub decisions: Seq<Seq<char>>,
}

impl DeepView for Resolved {
    type V = ResolvedView;

    open spec fn deep_view(&self) -> ResolvedView {
        ResolvedView {
            resolution: self.resolution,
            decisions: self.decisions.deep_view(),
        }
    }
}

impl View for Resolved {
    type V = ResolvedView;

    open spec fn view(&self) -> ResolvedView {
        self.deep_view()
    }
}

impl Clone for Resolved {
    fn clone(&self) -> (r: Self)
        ensures
            r@ == self@,
    {
        let r = Resolved {
            resolution: self.resolution,
            decisions: self.decisions.clone(),
        };
        assert(r.decisions.deep_view() =~= self.decisions.deep_view());
        r
    }
}

/// The decisions with an anchor of this symbol and this hash.
pub open spec fn exact_ids(log: Log, query: QueryNodeView) -> Seq<Seq<char>> {
    match (query.symbol_path, query.structural_hash) {
        (Some(symbol), Some(hash)) => log.anchored_ids(
            |a: AnchorView| a.symbol_path == Some(symbol) && a.structural_hash == Some(hash),
        ),
        _ => Seq::empty(),
    }
}

/// The decisions with an anchor on this symbol.
pub open spec fn symbol_ids(log: Log, query: QueryNodeView) -> Seq<Seq<char>> {
    match query.symbol_path {
        Some(symbol) => log.anchored_ids(|a: AnchorView| a.symbol_path == Some(symbol)),
        None => Seq::empty(),
    }
}

/// Anchors with this hash carry more than one symbol path.
pub open spec fn ambiguous(log: Log, hash: Seq<char>) -> bool {
    exists|a: Seq<char>, b: Seq<char>| a != b && #[trigger] log.hash_names(hash, a) && #[trigger] log.hash_names(hash, b)
}

/// The decisions with an anchor of this hash, unless the hash is ambiguous.
pub open spec fn hash_ids(log: Log, query: QueryNodeView) -> Seq<Seq<char>> {
    match query.structural_hash {
        Some(hash) => if ambiguous(log, hash) {
            Seq::empty()
        } else {
            log.anchored_ids(|a: AnchorView| a.structural_hash == Some(hash))
        },
        None => Seq::empty(),
    }
}

/// The decisions with an anchor on this file.
pub open spec fn file_ids(log: Log, query: QueryNodeView) -> Seq<Seq<char>> {
    match query.file {
        Some(file) => log.anchored_ids(|a: AnchorView| a.file == file),
        None => Seq::empty(),
    }
}

/// The first tier that finds anything, down to the file.
pub open spec fn resolution_of(log: Log, query: QueryNodeView) -> ResolvedView {
    if exact_ids(log, query).len() > 0 {
        ResolvedView { resolution: Resolution::Exact, decisions: exact_ids(log, query) }
    } else if symbol_ids(log, query).len() > 0 {
        ResolvedView { resolution: Resolution::Drifted, decisions: symbol_ids(log, query) }
    } else if hash_ids(log, query).len() > 0 {
        ResolvedView { resolution: Resolution::Relocated, decisions: hash_ids(log, query) }
    } else {
        ResolvedView { resolution: Resolution::FileFallback, decisions: file_ids(log, query) }
    }
}

/// Whether anchors with this hash carry more than one symbol path.
fn is_ambiguous(store: &Store, hash: &str) -> (r: bool)
    ensures
        r == ambiguous(store@, hash@),
{
    let paths = store.symbol_paths_for_hash(hash);
    let ghost s = paths.deep_view();
    proof {
        if s.len() > 1 {
            text::lex_lt_irreflexive(s[0]);
            assert(crate::text::lex_lt(s[0], s[1])) by {
                assert(crate::text::lex_lt(crate::table::Keyed::key(&s[0]), crate::table::Keyed::key(&s[1])));
            }
            assert(s.contains(s[0]) && s.contains(s[1]));
            assert(store@.hash_names(hash@, s[0]) && store@.hash_names(hash@, s[1]));
        }
        if ambiguous(store@, hash@) {
            let (a, b) = choose|a: Seq<char>, b: Seq<char>|
                a != b && #[trigger] store@.hash_names(hash@, a) && #[trigger] store@.hash_names(hash@, b);
            assert(s.contains(a) && s.contains(b));
            assert(s.index_of(a) != s.index_of(b));
        }
    }
    paths.len() > 1
}

/// Resolves a query node against the store.
pub fn resolve(store: &Store, query: &QueryNode) -> (r: Resolved)
    ensures
        r@ == resolution_of(store@, query@),
{
    if let (Some(symbol), Some(hash)) = (&query.symbol_path, &query.structural_hash) {
        let decisions = store.decision_ids_by_symbol_and_hash(symbol.as_str(), hash.as_str());
        if decisions.len() > 0 {
            return Resolved { resolution: Resolution::Exact, decisions };
        }
    }
    if let Some(symbol) = &query.symbol_path {
        let decisions = store.decision_ids_by_symbol(symbol.as_str());
        if decisions.len() > 0 {
            return Resolved { resolution: Resolution::Drifted, decisions };
        }
    }
    if let Some(hash) = &query.structural_hash {
        if !is_ambiguous(store, hash.as_str()) {
            let decisions = store.decision_ids_by_hash(hash.as_str());
            if decisions.len() > 0 {
                return Resolved { resolution: Resolution::Relocated, decisions };
            }
        }
    }
    let decisions = match &query.file {
        Some(file) => store.decision_ids_by_file(file.as_str()),
        None => {
            let none: Vec<String> = Vec::new();
            assert(none.deep_view() =~= Seq::empty());
            none
        },
    };
    Resolved { resolution: Resolution::FileFallback, decisions }
}

// ---- Laws -------------------------------------------------------------------

/// Some anchor of some decision meets `p`.
pub open spec fn some_anchor(log: Log, p: spec_fn(AnchorView) -> bool) -> bool {
    exists|i: int| 0 <= i < log.decisions.len() && has_anchor(#[trigger] log.decisions[i], p)
}

/// An anchor query finds something exactly where some anchor meets it.
pub proof fn found_where_anchored(log: Log, p: spec_fn(AnchorView) -> bool)
    requires
        log.ordered(),
    ensures
        log.anchored_ids(p).len() > 0 <==> some_anchor(log, p),
{
    let q = |d: StoredDecisionView| has_anchor(d, p);
    let kept = log.decisions.filter(q);
    selection(log.decisions, q);
    assert(log.anchored_ids(p).len() == kept.len());
    if kept.len() > 0 {
        assert(kept.contains(kept[0]));
        let i = log.decisions.index_of(kept[0]);
        assert(has_anchor(log.decisions[i], p));
    }
    if some_anchor(log, p) {
        let i = choose|i: int| 0 <= i < log.decisions.len() && has_anchor(#[trigger] log.decisions[i], p);
        assert(log.decisions.contains(log.decisions[i]));
        assert(kept.contains(log.decisions[i]));
        assert(0 <= kept.index_of(log.decisions[i]) < kept.len());
    }
}

/// The table of resolutions: which of the two axes match decides the tier.
pub proof fn resolution_table(log: Log, symbol: Seq<char>, hash: Seq<char>, file: Option<Seq<char>>)
    requires
        log.ordered(),
    ensures
        ({
            let query = QueryNodeView { file, symbol_path: Some(symbol), structural_hash: Some(hash) };
            let both = some_anchor(
                log,
                |a: AnchorView| a.symbol_path == Some(symbol) && a.structural_hash == Some(hash),
            );
            let by_symbol = some_anchor(log, |a: AnchorView| a.symbol_path == Some(symbol));
            let by_hash = !ambiguous(log, hash) && some_anchor(
                log,
                |a: AnchorView| a.structural_hash == Some(hash),
            );
            resolution_of(log, query).resolution == (if both {
                Resolution::Exact
            } else if by_symbol {
                Resolution::Drifted
            } else if by_hash {
                Resolution::Relocated
            } else {
                Resolution::FileFallback
            })
        }),
{
    found_where_anchored(
        log,
        |a: AnchorView| a.symbol_path == Some(symbol) && a.structural_hash == Some(hash),
    );
    found_where_anchored(log, |a: AnchorView| a.symbol_path == Some(symbol));
    found_where_anchored(log, |a: AnchorView| a.structural_hash == Some(hash));
}

/// A query for a symbol alone is never more than drifted, and one for a file alone is
/// always a fallback.
pub proof fn absent_axes_do_not_match(log: Log, query: QueryNodeView)
    requires
        log.ordered(),
    ensures
        query.structural_hash is None ==> resolution_of(log, query).resolution != Resolution::Exact
            && resolution_of(log, query).resolution != Resolution::Relocated,
        query.symbol_path is None ==> resolution_of(log, query).resolution != Resolution::Exact
            && resolution_of(log, query).resolution != Resolution::Drifted,
{
}

/// The log has a decision `id` with an anchor that meets `p`.
pub open spec fn carries(log: Log, id: Seq<char>, p: spec_fn(AnchorView) -> bool) -> bool {
    exists|d: StoredDecisionView, a: AnchorView|
        #![trigger log.decisions.contains(d), d.anchors.contains(a)]
        log.decisions.contains(d) && d.id == id && d.anchors.contains(a) && p(a)
}

/// Each id once, and a later one before an earlier one.
pub open spec fn newest_first(ids: Seq<Seq<char>>) -> bool {
    forall|i: int, j: int| 0 <= i < j < ids.len() ==> text::lex_lt(#[trigger] ids[j], #[trigger] ids[i])
}

/// An anchor query lists the decisions that carry such an anchor, each once, newest first.
pub proof fn anchor_query_is_exact(log: Log, p: spec_fn(AnchorView) -> bool, id: Seq<char>)
    requires
        log.ordered(),
    ensures
        log.anchored_ids(p).contains(id) <==> carries(log, id, p),
        newest_first(log.anchored_ids(p)),
{
    let q = |d: StoredDecisionView| has_anchor(d, p);
    query_is_exact(log, q, id);
    let ids = log.anchored_ids(p);
    if ids.contains(id) {
        let d = choose|d: StoredDecisionView| #[trigger] log.decisions.contains(d) && d.id == id && q(d);
        let k = choose|k: int| 0 <= k < d.anchors.len() && p(#[trigger] d.anchors[k]);
        assert(d.anchors.contains(d.anchors[k]));
    }
    if carries(log, id, p) {
        let (d, a) = choose|d: StoredDecisionView, a: AnchorView|
            #![trigger log.decisions.contains(d), d.anchors.contains(a)]
            log.decisions.contains(d) && d.id == id && d.anchors.contains(a) && p(a);
        let k = d.anchors.index_of(a);
        assert(p(d.anchors[k]));
        assert(q(d));
    }
}

/// A query on decisions, turned round, lists those that meet it, each once, newest first.
pub proof fn query_is_exact(log: Log, q: spec_fn(StoredDecisionView) -> bool, id: Seq<char>)
    requires
        log.ordered(),
    ensures
        ids_where(log.decisions, q).reverse().contains(id) <==> exists|d: StoredDecisionView| #[trigger]
            log.decisions.contains(d) && d.id == id && q(d),
        newest_first(ids_where(log.decisions, q).reverse()),
{
    selection(log.decisions, q);
    let s = log.decisions.filter(q);
    let ids = ids_where(log.decisions, q);
    let back = ids.reverse();
    if back.contains(id) {
        let k = back.index_of(id);
        let d = s[ids.len() - 1 - k];
        assert(s.contains(d));
        assert(log.decisions.contains(d) && d.id == id && q(d));
    }
    if exists|d: StoredDecisionView| #[trigger] log.decisions.contains(d) && d.id == id && q(d) {
        let d = choose|d: StoredDecisionView| #[trigger] log.decisions.contains(d) && d.id == id && q(d);
        assert(s.contains(d));
        let k = s.index_of(d);
        assert(back[ids.len() - 1 - k] == id);
    }
    assert forall|i: int, j: int| 0 <= i < j < back.len() implies text::lex_lt(
        #[trigger] back[j],
        #[trigger] back[i],
    ) by {
        assert(back[j] == s[ids.len() - 1 - j].key());
        assert(back[i] == s[ids.len() - 1 - i].key());
    }
}

/// What is listed is what matched. An exact match has an anchor with the symbol and the
/// hash that were asked for; a drifted one has an anchor with the symbol; a relocated one
/// has an anchor with the hash; and the fallback lists what is anchored to the file. Each
/// decision is listed once, newest first.
pub proof fn listed_is_what_matched(log: Log, query: QueryNodeView, id: Seq<char>)
    requires
        log.ordered(),
    ensures
        ({
            let r = resolution_of(log, query);
            &&& newest_first(r.decisions)
            &&& r.resolution == Resolution::Exact ==> query.symbol_path is Some && query.structural_hash is Some
                && (r.decisions.contains(id) <==> carries(
                log,
                id,
                |a: AnchorView|
                    a.symbol_path == query.symbol_path && a.structural_hash == query.structural_hash,
            ))
            &&& r.resolution == Resolution::Drifted ==> query.symbol_path is Some && (r.decisions.contains(id)
                <==> carries(log, id, |a: AnchorView| a.symbol_path == query.symbol_path))
            &&& r.resolution == Resolution::Relocated ==> query.structural_hash is Some
                && (r.decisions.contains(id) <==> carries(
                log,
                id,
                |a: AnchorView| a.structural_hash == query.structural_hash,
            ))
            &&& r.resolution == Resolution::FileFallback ==> (r.decisions.contains(id) <==> carries(
                log,
                id,
                |a: AnchorView| query.file == Some(a.file),
            ))
        }),
{
    if let (Some(symbol), Some(hash)) = (query.symbol_path, query.structural_hash) {
        let p = |a: AnchorView| a.symbol_path == Some(symbol) && a.structural_hash == Some(hash);
        let q = |a: AnchorView|
            a.symbol_path == query.symbol_path && a.structural_hash == query.structural_hash;
        anchor_query_is_exact(log, p, id);
        same_carriers(log, id, p, q);
    }
    if let Some(symbol) = query.symbol_path {
        let p = |a: AnchorView| a.symbol_path == Some(symbol);
        let q = |a: AnchorView| a.symbol_path == query.symbol_path;
        anchor_query_is_exact(log, p, id);
        same_carriers(log, id, p, q);
    }
    if let Some(hash) = query.structural_hash {
        let p = |a: AnchorView| a.structural_hash == Some(hash);
        let q = |a: AnchorView| a.structural_hash == query.structural_hash;
        anchor_query_is_exact(log, p, id);
        same_carriers(log, id, p, q);
    }
    if let Some(file) = query.file {
        let p = |a: AnchorView| a.file == file;
        let q = |a: AnchorView| query.file == Some(a.file);
        anchor_query_is_exact(log, p, id);
        same_carriers(log, id, p, q);
    }
}

proof fn same_carriers(
    log: Log,
    id: Seq<char>,
    p: spec_fn(AnchorView) -> bool,
    q: spec_fn(AnchorView) -> bool,
)
    requires
        forall|a: AnchorView| #[trigger] p(a) == q(a),
    ensures
        carries(log, id, p) == carries(log, id, q),
{
    if carries(log, id, p) {
        let (d, a) = choose|d: StoredDecisionView, a: AnchorView|
            #![trigger log.decisions.contains(d), d.anchors.contains(a)]
            log.decisions.contains(d) && d.id == id && d.anchors.contains(a) && p(a);
        assert(log.decisions.contains(d) && d.anchors.contains(a) && q(a));
    }
    if carries(log, id, q) {
        let (d, a) = choose|d: StoredDecisionView, a: AnchorView|
            #![trigger log.decisions.contains(d), d.anchors.contains(a)]
            log.decisions.contains(d) && d.id == id && d.anchors.contains(a) && q(a);
        assert(log.decisions.contains(d) && d.anchors.contains(a) && p(a));
    }
}

/// The tier is the best that any decision of the log reaches: exact where some anchor has
/// the symbol and the hash, else drifted where one has the symbol, else relocated where
/// one has the hash and no two anchors of that hash carry different symbols, else the
/// fallback.
pub proof fn best_tier_is_taken(log: Log, query: QueryNodeView)
    requires
        log.ordered(),
    ensures
        ({
            let exact = |a: AnchorView|
                a.symbol_path == query.symbol_path && a.structural_hash == query.structural_hash;
            let by_symbol = |a: AnchorView| a.symbol_path == query.symbol_path;
            let by_hash = |a: AnchorView| a.structural_hash == query.structural_hash;
            let both = query.symbol_path is Some && query.structural_hash is Some && exists|id: Seq<char>| #[trigger]
                carries(log, id, exact);
            let symbol = query.symbol_path is Some && exists|id: Seq<char>| #[trigger]
                carries(log, id, by_symbol);
            let hash = query.structural_hash is Some && exists|id: Seq<char>| #[trigger]
                carries(log, id, by_hash);
            let two_symbols = exists|x: Seq<char>, y: Seq<char>|
                x != y && #[trigger] seen_together(log, x, query.structural_hash->0)
                    && #[trigger] seen_together(log, y, query.structural_hash->0);
            resolution_of(log, query).resolution == (if both {
                Resolution::Exact
            } else if symbol {
                Resolution::Drifted
            } else if hash && !two_symbols {
                Resolution::Relocated
            } else {
                Resolution::FileFallback
            })
        }),
{
    let exact = |a: AnchorView|
        a.symbol_path == query.symbol_path && a.structural_hash == query.structural_hash;
    let by_symbol = |a: AnchorView| a.symbol_path == query.symbol_path;
    let by_hash = |a: AnchorView| a.structural_hash == query.structural_hash;
    if let (Some(symbol), Some(hash)) = (query.symbol_path, query.structural_hash) {
        let p = |a: AnchorView| a.symbol_path == Some(symbol) && a.structural_hash == Some(hash);
        some_carrier(log, p, exact);
    }
    if let Some(symbol) = query.symbol_path {
        let p = |a: AnchorView| a.symbol_path == Some(symbol);
        some_carrier(log, p, by_symbol);
    }
    if let Some(hash) = query.structural_hash {
        let p = |a: AnchorView| a.structural_hash == Some(hash);
        some_carrier(log, p, by_hash);
        two_symbols_are_ambiguous(log, hash);
    }
}

proof fn some_carrier(log: Log, p: spec_fn(AnchorView) -> bool, q: spec_fn(AnchorView) -> bool)
    requires
        log.ordered(),
        forall|a: AnchorView| #[trigger] p(a) == q(a),
    ensures
        log.anchored_ids(p).len() > 0 <==> exists|id: Seq<char>| #[trigger] carries(log, id, q),
{
    let ids = log.anchored_ids(p);
    if ids.len() > 0 {
        assert(ids.contains(ids[0]));
        anchor_query_is_exact(log, p, ids[0]);
        same_carriers(log, ids[0], p, q);
    }
    if exists|id: Seq<char>| #[trigger] carries(log, id, q) {
        let id = choose|id: Seq<char>| #[trigger] carries(log, id, q);
        same_carriers(log, id, p, q);
        anchor_query_is_exact(log, p, id);
        assert(ids.contains(id));
        assert(0 <= ids.index_of(id) < ids.len());
    }
}

proof fn two_symbols_are_ambiguous(log: Log, hash: Seq<char>)
    ensures
        ambiguous(log, hash) <==> exists|x: Seq<char>, y: Seq<char>|
            x != y && #[trigger] seen_together(log, x, hash) && #[trigger] seen_together(log, y, hash),
{
    assert forall|x: Seq<char>| #[trigger] log.hash_names(hash, x) <==> seen_together(log, x, hash) by {
        let p = |a: AnchorView| a.structural_hash == Some(hash) && a.symbol_path == Some(x);
        if log.hash_names(hash, x) {
            let i = choose|i: int| 0 <= i < log.decisions.len() && has_anchor(#[trigger] log.decisions[i], p);
            let d = log.decisions[i];
            let k = choose|k: int| 0 <= k < d.anchors.len() && p(#[trigger] d.anchors[k]);
            assert(log.decisions.contains(d) && d.anchors.contains(d.anchors[k]));
        }
        if seen_together(log, x, hash) {
            let (d, a) = choose|d: StoredDecisionView, a: AnchorView|
                #![trigger log.decisions.contains(d), d.anchors.contains(a)]
                log.decisions.contains(d) && d.anchors.contains(a) && a.symbol_path == Some(x)
                    && a.structural_hash == Some(hash);
            let i = log.decisions.index_of(d);
            let k = d.anchors.index_of(a);
            assert(p(log.decisions[i].anchors[k]));
            assert(has_anchor(log.decisions[i], p));
        }
    }
    if ambiguous(log, hash) {
        let (x, y) = choose|x: Seq<char>, y: Seq<char>|
            x != y && #[trigger] log.hash_names(hash, x) && #[trigger] log.hash_names(hash, y);
        assert(seen_together(log, x, hash) && seen_together(log, y, hash));
    }
    if exists|x: Seq<char>, y: Seq<char>|
        x != y && #[trigger] seen_together(log, x, hash) && #[trigger] seen_together(log, y, hash) {
        let (x, y) = choose|x: Seq<char>, y: Seq<char>|
            x != y && #[trigger] seen_together(log, x, hash) && #[trigger] seen_together(log, y, hash);
        assert(log.hash_names(hash, x) && log.hash_names(hash, y));
    }
}

/// Some anchor of the log has this symbol and this hash.
pub open spec fn seen_together(log: Log, symbol: Seq<char>, hash: Seq<char>) -> bool {
    exists|d: StoredDecisionView, a: AnchorView|
        #![trigger log.decisions.contains(d), d.anchors.contains(a)]
        log.decisions.contains(d) && d.anchors.contains(a) && a.symbol_path == Some(symbol)
            && a.structural_hash == Some(hash)
}

} // verus!
