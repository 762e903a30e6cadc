//! `dlog invariants`: lists the live declared constraints.
//!
//! Invariants outlive the decision that declared them and are queried independently of
//! the decision log. A scope narrows to invariants in effect at, or within, a path;
//! scopeless invariants are global and always returned.
use crate::cli::InvariantsArgs;
use crate::log::{InvariantRecordView, Log};
use crate::queries::{covers_is_under, invariants_are_listed, lies_under, selecting_keeps_order};
use crate::store::{invariant_row, InvariantRow, InvariantRowView, Store};
use crate::text::{self, has_prefix};
use crate::table::Keyed;
use crate::text::lex_lt;
use vstd::prelude::*;

verus! {

/// The reply.
#[derive(Debug, PartialEq, Eq)]
pub struct InvariantsEnvelope {
    pub results: Vec<InvariantRow>,
}

/// An invariant's scope is relevant to a path: it has none, or one of the two contains
/// the other. `.` is the whole workspace, which contains every path.
pub open spec fn applies(scope: Option<Seq<char>>, query: Seq<char>) -> bool {
    match scope {
        None => true,
        Some(s) => s == "."@ || query == "."@ || s == query || has_prefix(query, s + "/"@)
            || has_prefix(s, query + "/"@),
    }
}

/// Whether an invariant's `scope` is relevant to a query path.
pub fn scope_matches(invariant_scope: &Option<String>, query: &str) -> (r: bool)
    ensures
        r == applies(invariant_scope.deep_view(), query@),
{
    match invariant_scope {
        None => true,
        Some(scope) => text::same(scope.as_str(), ".") || text::same(query, ".") || text::same(
            scope.as_str(),
            query,
        ) || text::starts_with(query, text::cat(scope.as_str(), "/").as_str())
            || text::starts_with(scope.as_str(), text::cat(query, "/").as_str()),
    }
}

/// The live invariants relevant to a path, or all of them, ascending.
pub open spec fn in_effect(log: Log, query: Option<Seq<char>>) -> Seq<InvariantRowView> {
    log.live().map_values(|v: InvariantRecordView| invariant_row(v)).filter(
        |row: InvariantRowView| query matches Some(path) ==> applies(row.scope, path),
    )
}

/// Lists the live invariants relevant to a path, or all of them.
pub fn relevant(store: &Store, query: Option<&str>) -> (r: Vec<InvariantRow>)
    ensures
        r.deep_view() == in_effect(store@, query.deep_view()),
{
    let rows = store.list_live_invariants();
    let ghost all = rows.deep_view();
    let ghost q = query.deep_view();
    let ghost p = |row: InvariantRowView| q matches Some(path) ==> applies(row.scope, path);
    let mut out: Vec<InvariantRow> = Vec::new();
    proof {
        reveal(Seq::filter);
    }
    assert(all.take(0) =~= Seq::empty());
    assert(out.deep_view() =~= Seq::empty());
    for i in 0..rows.len()
        invariant
            all == rows.deep_view(),
            q == query.deep_view(),
            p == (|row: InvariantRowView| q matches Some(path) ==> applies(row.scope, path)),
            out.deep_view() == all.take(i as int).filter(p),
    {
        let ghost row = all[i as int];
        let ghost before = out.deep_view();
        assert(all.take(i + 1) =~= all.take(i as int).push(row));
        proof {
            all.take(i as int).lemma_filter_push(row, p);
        }
        assert(row == rows[i as int]@);
        let keep = match query {
            Some(path) => scope_matches(&rows[i].scope, path),
            None => true,
        };
        if keep {
            out.push(rows[i].clone());
            assert(out.deep_view() =~= before.push(row));
        }
    }
    assert(all.take(all.len() as int) =~= all);
    out
}

/// Lists the live invariants in effect at, or within, a path.
pub fn run(store: &Store, args: &InvariantsArgs) -> (r: InvariantsEnvelope)
    ensures
        r.results.deep_view() == in_effect(store@, args.scope.deep_view()),
{
    let query = match &args.scope {
        Some(path) => Some(path.as_str()),
        None => None,
    };
    InvariantsEnvelope { results: relevant(store, query) }
}

/// A scope concerns a path where there is none, or where one of the two lies at or under
/// the other.
pub proof fn scopes_contain(scope: Option<Seq<char>>, query: Seq<char>)
    ensures
        applies(scope, query) <==> (scope matches Some(s) ==> lies_under(query, s) || lies_under(s, query)),
{
    if let Some(s) = scope {
        covers_is_under(s, query);
        covers_is_under(query, s);
        reveal_strlit(".");
    }
}

/// Listed are the invariants that are not retired and whose scope concerns the path, or all
/// that are not retired where no path is named: each as it was declared, in the order of
/// their ids.
pub proof fn listed_are_in_effect(log: Log, query: Option<Seq<char>>, row: InvariantRowView)
    requires
        log.ordered(),
    ensures
        in_effect(log, query).contains(row) <==> (exists|v: InvariantRecordView| #[trigger]
            log.invariants.contains(v) && !v.retired && v.id == row.id && v.statement == row.statement
                && v.scope == row.scope && v.declared_by == row.declared_by) && (query matches Some(path)
            ==> (row.scope matches Some(s) ==> lies_under(path, s) || lies_under(s, path))),
        forall|i: int, j: int|
            #![trigger in_effect(log, query)[i], in_effect(log, query)[j]]
            0 <= i < j < in_effect(log, query).len() ==> lex_lt(
                in_effect(log, query)[i].id,
                in_effect(log, query)[j].id,
            ),
{
    let p = |r: InvariantRowView| query matches Some(path) ==> applies(r.scope, path);
    let live = log.live();
    let rows = live.map_values(|v: InvariantRecordView| invariant_row(v));
    let r = |a: InvariantRowView, b: InvariantRowView| lex_lt(a.id, b.id);
    let none = InvariantRecordView {
        id: row.id,
        declared_by: row.declared_by,
        statement: row.statement,
        scope: row.scope,
        retired: false,
        created_at_ms: 0,
    };
    invariants_are_listed(log, row.declared_by, none);
    assert forall|i: int, j: int| 0 <= i < j < rows.len() implies r(#[trigger] rows[i], #[trigger] rows[j]) by {
        assert(lex_lt(live[i].key(), live[j].key()));
    }
    selecting_keeps_order(rows, p, r);
    let all = in_effect(log, query);
    assert forall|i: int, j: int|
        #![trigger all[i], all[j]]
        0 <= i < j < all.len() implies lex_lt(all[i].id, all[j].id) by {
        assert(r(all[i], all[j]));
    }
    if let Some(path) = query {
        scopes_contain(row.scope, path);
    }
    if rows.contains(row) {
        let v = live[rows.index_of(row)];
        invariants_are_listed(log, row.declared_by, v);
        assert(live.contains(v));
        assert(log.invariants.contains(v));
    }
    if exists|v: InvariantRecordView| #[trigger]
        log.invariants.contains(v) && !v.retired && v.id == row.id && v.statement == row.statement && v.scope
            == row.scope && v.declared_by == row.declared_by {
        let v = choose|v: InvariantRecordView| #[trigger]
            log.invariants.contains(v) && !v.retired && v.id == row.id && v.statement == row.statement
                && v.scope == row.scope && v.declared_by == row.declared_by;
        invariants_are_listed(log, row.declared_by, v);
        assert(live.contains(v));
        assert(rows[live.index_of(v)] == row);
    }
}

} // verus!
