//! `dlog show`: full decisions by id, the drill-down half of two-stage retrieval.
use crate::cli::ShowArgs;
use crate::log::{InvariantRecordView, Log};
use crate::model::{StoredDecision, StoredDecisionView};
use crate::queries::invariants_are_listed;
use crate::store::Store;
use crate::table::{lookup, lookup_at, lookup_sound};
use vstd::prelude::*;

verus! {

/// An invariant that a decision declares.
#[derive(Debug, PartialEq, Eq)]
pub struct InvariantOut {
    pub id: String,
    pub statement: String,
    pub scope: Option<String>,
}

/// The value of an `InvariantOut`.
pub ghost struct InvariantOutView {
    pub id: Seq<char>,
    pub statement: Seq<char>,
    pub scope: Option<Seq<char>>,
}

impl DeepView for InvariantOut {
    type V = InvariantOutView;

    open spec fn deep_view(&self) -> InvariantOutView {
        InvariantOutView {
            id: self.id@,
            statement: self.statement@,
            scope: self.scope.deep_view(),
        }
    }
}

impl View for InvariantOut {
    type V = InvariantOutView;

    open spec fn view(&self) -> InvariantOutView {
        self.deep_view()
    }
}

impl Clone for InvariantOut {
    fn clone(&self) -> (r: Self)
        ensures
            r@ == self@,
    {
        InvariantOut {
            id: self.id.clone(),
            statement: self.statement.clone(),
            scope: self.scope.clone(),
        }
    }
}

/// A full decision.
#[derive(Debug, PartialEq, Eq)]
pub struct ShowDecision {
    pub decision: StoredDecision,
    pub declares_invariants: Vec<InvariantOut>,
}

/// The value of a `ShowDecision`.
pub ghost struct ShowDecisionView {
    pub decision: StoredDecisionView,
    pub declares_invariants: Seq<InvariantOutView>,
}

impl DeepView for ShowDecision {
    type V = ShowDecisionView;

    open spec fn deep_view(&self) -> ShowDecisionView {
        ShowDecisionView {
            decision: self.decision.deep_view(),
            declares_invariants: self.declares_invariants.deep_view(),
        }
    }
}

impl View for ShowDecision {
    type V = ShowDecisionView;

    open spec fn view(&self) -> ShowDecisionView {
        self.deep_view()
    }
}

impl Clone for ShowDecision {
    fn clone(&self) -> (r: Self)
        ensures
            r@ == self@,
    {
        let r = ShowDecision {
            decision: self.decision.clone(),
            declares_invariants: self.declares_invariants.clone(),
        };
        assert(r.declares_invariants.deep_view() =~= self.declares_invariants.deep_view());
        r
    }
}

/// The reply.
#[derive(Debug, PartialEq, Eq)]
pub struct ShowEnvelope {
    pub results: Vec<ShowDecision>,
    /// Ids that were requested but not found.
    pub missing: Vec<String>,
}

/// A decision with the invariants that it declares, retired ones too.
pub open spec fn shown(log: Log, d: StoredDecisionView) -> ShowDecisionView {
    ShowDecisionView {
        decision: d,
        declares_invariants: log.declared(d.id).map_values(
            |v: InvariantRecordView|
                InvariantOutView { id: v.id, statement: v.statement, scope: v.scope },
        ),
    }
}

/// The decisions that the first `n` ids find, in the order of asking.
pub open spec fn found(log: Log, ids: Seq<Seq<char>>, n: int) -> Seq<ShowDecisionView>
    decreases n,
{
    if n <= 0 {
        Seq::empty()
    } else {
        match lookup(log.decisions, ids[n - 1]) {
            Some(d) => found(log, ids, n - 1).push(shown(log, d)),
            None => found(log, ids, n - 1),
        }
    }
}

/// Those of the first `n` ids that find nothing, in the order of asking.
pub open spec fn not_found(log: Log, ids: Seq<Seq<char>>, n: int) -> Seq<Seq<char>>
    decreases n,
{
    if n <= 0 {
        Seq::empty()
    } else {
        match lookup(log.decisions, ids[n - 1]) {
            Some(_) => not_found(log, ids, n - 1),
            None => not_found(log, ids, n - 1).push(ids[n - 1]),
        }
    }
}

/// Adds the invariants that a decision declares.
fn build_one(store: &Store, decision: StoredDecision) -> (r: ShowDecision)
    ensures
        r@ == shown(store@, decision@),
{
    let rows = store.invariants_declared_by(decision.id.as_str());
    let ghost s = rows.deep_view();
    let mut declares_invariants: Vec<InvariantOut> = Vec::new();
    for i in 0..rows.len()
        invariant
            s == rows.deep_view(),
            declares_invariants.len() == i,
            forall|j: int|
                0 <= j < i ==> (#[trigger] declares_invariants[j]).deep_view() == (InvariantOutView {
                    id: s[j].0,
                    statement: s[j].1,
                    scope: s[j].2,
                }),
    {
        let row = &rows[i];
        assert(s[i as int] == (row.0@, row.1@, row.2.deep_view()));
        declares_invariants.push(
            InvariantOut { id: row.0.clone(), statement: row.1.clone(), scope: row.2.clone() },
        );
    }
    proof {
        let want = shown(store@, decision@).declares_invariants;
        let have = declares_invariants.deep_view();
        let records = store@.declared(decision@.id);
        assert(s == records.map_values(|v: InvariantRecordView| (v.id, v.statement, v.scope)));
        assert(s.len() == records.len() && have.len() == s.len());
        assert forall|i: int| 0 <= i < want.len() implies have[i] == #[trigger] want[i] by {
            assert(s[i] == (records[i].id, records[i].statement, records[i].scope));
            assert(have[i] == declares_invariants[i].deep_view());
        }
        assert(have =~= want);
    }
    ShowDecision { decision, declares_invariants }
}

/// Fetches whole records.
pub fn run(store: &Store, args: &ShowArgs) -> (r: ShowEnvelope)
    requires
        store.wf(),
    ensures
        r.results.deep_view() == found(store@, args.ids.deep_view(), args.ids@.len() as int),
        r.missing.deep_view() == not_found(store@, args.ids.deep_view(), args.ids@.len() as int),
{
    let ghost ids = args.ids.deep_view();
    let mut results: Vec<ShowDecision> = Vec::new();
    let mut missing: Vec<String> = Vec::new();
    assert(results.deep_view() =~= Seq::empty());
    assert(missing.deep_view() =~= Seq::empty());
    for i in 0..args.ids.len()
        invariant
            store.wf(),
            ids == args.ids.deep_view(),
            results.deep_view() == found(store@, ids, i as int),
            missing.deep_view() == not_found(store@, ids, i as int),
    {
        let ghost a = results.deep_view();
        let ghost b = missing.deep_view();
        assert(ids[i as int] == args.ids[i as int]@);
        match store.get_decision(args.ids[i].as_str()) {
            Some(d) => {
                let one = build_one(store, d);
                results.push(one);
                assert(results.deep_view() =~= a.push(one@));
            },
            None => {
                missing.push(args.ids[i].clone());
                assert(missing.deep_view() =~= b.push(ids[i as int]));
            },
        }
    }
    ShowEnvelope { results, missing }
}

/// Every id that is asked for is answered once: with its decision, or as missing.
pub proof fn every_id_is_answered(log: Log, ids: Seq<Seq<char>>, n: int)
    requires
        0 <= n <= ids.len(),
    ensures
        found(log, ids, n).len() + not_found(log, ids, n).len() == n,
    decreases n,
{
    if n > 0 {
        every_id_is_answered(log, ids, n - 1);
    }
}

/// What is shown of an id that the log has is its whole decision, with every invariant that
/// it declared; an id that the log does not have is named as missing. Answers come in the
/// order of asking.
pub proof fn whole_records_are_shown(log: Log, ids: Seq<Seq<char>>, n: int)
    requires
        log.ordered(),
        0 < n <= ids.len(),
    ensures
        ({
            let id = ids[n - 1];
            &&& forall|d: StoredDecisionView| #[trigger]
                log.decisions.contains(d) && d.id == id ==> not_found(log, ids, n) == not_found(
                    log,
                    ids,
                    n - 1,
                ) && found(log, ids, n) == found(log, ids, n - 1).push(found(log, ids, n).last())
                    && found(log, ids, n).last().decision == d && declares_all(
                    log,
                    id,
                    found(log, ids, n).last().declares_invariants,
                )
            &&& (forall|d: StoredDecisionView| #[trigger] log.decisions.contains(d) ==> d.id != id)
                ==> found(log, ids, n) == found(log, ids, n - 1) && not_found(log, ids, n) == not_found(
                log,
                ids,
                n - 1,
            ).push(id)
        }),
        found(log, ids, 0) == Seq::<ShowDecisionView>::empty(),
        not_found(log, ids, 0) == Seq::<Seq<char>>::empty(),
{
    let id = ids[n - 1];
    lookup_sound(log.decisions, id);
    assert forall|d: StoredDecisionView| #[trigger] log.decisions.contains(d) && d.id == id implies lookup(
        log.decisions,
        id,
    ) == Some(d) by {
        lookup_at(log.decisions, log.decisions.index_of(d));
    }
    if let Some(d) = lookup(log.decisions, id) {
        let rows = shown(log, d).declares_invariants;
        let all = log.declared(id);
        assert(declares_all(log, id, rows)) by {
            assert forall|v: InvariantRecordView| #[trigger]
                log.invariants.contains(v) && v.declared_by == id implies rows.contains(
                (InvariantOutView { id: v.id, statement: v.statement, scope: v.scope }),
            ) by {
                invariants_are_listed(log, id, v);
                assert(all.contains(v));
                let k = all.index_of(v);
                assert(rows[k] == (InvariantOutView { id: v.id, statement: v.statement, scope: v.scope }));
            }
            assert forall|k: int| 0 <= k < rows.len() implies was_declared(log, id, #[trigger] rows[k]) by {
                let v = all[k];
                assert(all.contains(v));
                invariants_are_listed(log, id, v);
                assert(log.invariants.contains(v));
            }
        }
    }
}

/// The rows are the invariants that a decision declared, retired ones too, and no others.
pub open spec fn declares_all(log: Log, id: Seq<char>, rows: Seq<InvariantOutView>) -> bool {
    &&& forall|v: InvariantRecordView| #[trigger]
        log.invariants.contains(v) && v.declared_by == id ==> rows.contains(
            (InvariantOutView { id: v.id, statement: v.statement, scope: v.scope }),
        )
    &&& forall|k: int| 0 <= k < rows.len() ==> was_declared(log, id, #[trigger] rows[k])
}

/// The log has this invariant, and this decision declared it.
pub open spec fn was_declared(log: Log, id: Seq<char>, row: InvariantOutView) -> bool {
    exists|v: InvariantRecordView| #[trigger]
        log.invariants.contains(v) && v.declared_by == id && v.id == row.id && v.statement == row.statement
            && v.scope == row.scope
}

} // verus!
