//! `dlog search`: full-text search over decision prose, in the compact form.
use crate::cli::SearchArgs;
use crate::commands::compact::{candidate_rows, collect, costs_of, is_page, live_ids, CompactRow};
use crate::commands::AppError;
use crate::fts::{documents, literal_query, matching, ranked};
use crate::log::Log;
use crate::output::QueryEnvelope;
use crate::store::Store;
use crate::table::holds;
use crate::text::words_of;
use vstd::prelude::*;

verus! {

/// Describes the interpreted query.
#[derive(Debug, PartialEq, Eq)]
pub struct SearchDesc {
    pub kind: &'static str,
    pub text: String,
}

/// What a search may find: each decision whose prose the words of the query match, once,
/// best first, and nothing for blank text.
pub open spec fn is_answer(log: Log, query: Seq<char>, found: Seq<Seq<char>>) -> bool {
    &&& found.no_duplicates()
    &&& forall|id: Seq<char>| #[trigger] found.contains(id) ==> holds(log.decisions, id)
    &&& words_of(query).len() == 0 ==> found.len() == 0
    &&& words_of(query).len() > 0 ==> found.to_set() == matching(
        documents(log.decisions),
        literal_query(query),
    )
    &&& words_of(query).len() > 0 ==> ranked(documents(log.decisions), literal_query(query), found)
}

/// The reply that presents what a search found: a page of its rows.
pub open spec fn presents(
    log: Log,
    args: SearchArgs,
    found: Seq<Seq<char>>,
    reply: QueryEnvelope<SearchDesc, CompactRow>,
) -> bool {
    let rows = candidate_rows(log, found, args.include_superseded, args.budget as nat);
    let n = reply.results@.len() as int;
    &&& reply.query.kind@ == "search"@
    &&& reply.query.text@ == args.text@
    &&& reply.resolved is None
    &&& is_page(costs_of(rows), args.limit as nat, args.budget as nat, n)
    &&& reply.results.deep_view() == rows.take(n)
    &&& reply.elided == live_ids(log, found, args.include_superseded).len() - n
    &&& reply.truncated == (reply.elided > 0)
}

/// The reply for what a search found, best first.
pub fn present(store: &Store, args: &SearchArgs, found: &Vec<String>) -> (r: QueryEnvelope<
    SearchDesc,
    CompactRow,
>)
    requires
        store.wf(),
    ensures
        presents(store@, *args, found.deep_view(), r),
{
    let (results, truncated, elided) = collect(
        store,
        found,
        args.include_superseded,
        args.limit,
        args.budget,
    );
    QueryEnvelope {
        query: SearchDesc { kind: "search", text: args.text.clone() },
        resolved: None,
        results,
        truncated,
        elided,
    }
}

/// Searches decision prose. A text search resolves no anchor. Blank text finds nothing;
/// a failure is SQLite's own.
pub fn run(store: &Store, args: &SearchArgs) -> (r: Result<QueryEnvelope<SearchDesc, CompactRow>, AppError>)
    requires
        store.wf(),
    ensures
        match r {
            Ok(reply) => exists|found: Seq<Seq<char>>| #[trigger]
                is_answer(store@, args.text@, found) && presents(store@, *args, found, reply),
            Err(e) => e@.code == "store_error"@ && words_of(args.text@).len() > 0,
        },
{
    match store.search(args.text.as_str()) {
        Ok(found) => {
            let reply = present(store, args, &found);
            assert(found.deep_view().len() == found@.len());
            assert(is_answer(store@, args.text@, found.deep_view()));
            Ok(reply)
        },
        Err(message) => Err(AppError::new("store_error", message.as_str())),
    }
}

} // verus!
