//! What holds of the log whatever is done to it.
use crate::log::{
    admits, admits_all, complete_in, fresh_of, landed, merge, merge_holds, seal_in, ChangeView, InvariantRecordView,
    Log, TaskRecordView,
};
use crate::model::{BindingView, StoredDecisionView};
use crate::store::Store;
use crate::table::{
    ascending, holds, insert_row, insert_row_keeps, insert_row_lookup, keys_unique, lookup, lookup_at,
    lookup_sound, Keyed,
};
use crate::text::{lex_lt, lex_lt_asymmetric};
use vstd::prelude::*;

verus! {

// ---- Append-only ------------------------------------------------------------

/// Sealing finds every decision where it was, and changes the pending ones among
/// `ids` alone.
pub proof fn seal_in_lookup(
    s: Seq<StoredDecisionView>,
    ids: Seq<Seq<char>>,
    binding: BindingView,
    id: Seq<char>,
)
    requires
        ascending(s),
    ensures
        ascending(seal_in(s, ids, binding)),
        holds(seal_in(s, ids, binding), id) <==> holds(s, id),
        lookup(seal_in(s, ids, binding), id) == (match lookup(s, id) {
            Some(d) => Some(
                if d.staged && ids.contains(id) {
                    crate::log::sealed(d, binding)
                } else {
                    d
                },
            ),
            None => None,
        }),
{
    let t = seal_in(s, ids, binding);
    assert forall|i: int, j: int| 0 <= i < j < t.len() implies lex_lt(
        #[trigger] t[i].key(),
        #[trigger] t[j].key(),
    ) by {
        assert(lex_lt(s[i].key(), s[j].key()));
    }
    lookup_sound(s, id);
    lookup_sound(t, id);
    if holds(s, id) {
        let k = s.index_of(lookup(s, id)->0);
        assert(t[k].key() == id);
        lookup_at(t, k);
    }
    if holds(t, id) {
        let k = t.index_of(lookup(t, id)->0);
        assert(s[k].key() == id);
        lookup_at(s, k);
    }
}

/// The main log is append-only: no write changes or removes a sealed decision.
pub proof fn sealed_is_final(log: Log, change: ChangeView, id: Seq<char>)
    requires
        log.ordered(),
        admits(log, change),
        log.is_sealed(id),
    ensures
        lookup(log.after(change).decisions, id) == lookup(log.decisions, id),
        log.after(change).is_sealed(id),
{
    lookup_sound(log.decisions, id);
    match change {
        ChangeView::AddDecision(d) => {
            insert_row_lookup(log.decisions, d, id);
        },
        ChangeView::Seal { id: other, binding } => {
            seal_in_lookup(log.decisions, seq![other], binding, id);
        },
        _ => {},
    }
}

/// An admitted write keeps each table in order.
pub proof fn admitted_keeps_order(log: Log, change: ChangeView)
    requires
        log.ordered(),
        admits(log, change),
    ensures
        log.after(change).ordered(),
{
    match change {
        ChangeView::AddTask(t) => insert_row_keeps(log.tasks, t),
        ChangeView::AddDecision(d) => insert_row_keeps(log.decisions, d),
        ChangeView::AddInvariant(v) => insert_row_keeps(log.invariants, v),
        ChangeView::Seal { id, binding } => seal_in_lookup(log.decisions, seq![id], binding, id),
        ChangeView::CompleteTask { id, completed_at_ms } => {
            let t = complete_in(log.tasks, id, completed_at_ms);
            assert forall|i: int, j: int| 0 <= i < j < t.len() implies lex_lt(
                #[trigger] t[i].key(),
                #[trigger] t[j].key(),
            ) by {
                assert(lex_lt(log.tasks[i].key(), log.tasks[j].key()));
            }
        },
    }
}

/// The main log is append-only under any list of writes.
pub proof fn sealed_stays(log: Log, changes: Seq<ChangeView>, id: Seq<char>)
    requires
        log.ordered(),
        admits_all(log, changes),
        log.is_sealed(id),
    ensures
        log.after_all(changes).ordered(),
        lookup(log.after_all(changes).decisions, id) == lookup(log.decisions, id),
        log.after_all(changes).is_sealed(id),
    decreases changes.len(),
{
    if changes.len() > 0 {
        let front = changes.drop_last();
        sealed_stays(log, front, id);
        admitted_keeps_order(log.after_all(front), changes.last());
        sealed_is_final(log.after_all(front), changes.last(), id);
    }
}

/// Whatever a store has done since it was last saved, each decision that was sealed then
/// is there as it was.
pub proof fn store_is_append_only(store: &Store, id: Seq<char>)
    requires
        store.wf(),
        store.saved().is_sealed(id),
    ensures
        lookup(store@.decisions, id) == lookup(store.saved().decisions, id),
        store@.is_sealed(id),
{
    sealed_stays(store.saved(), store.pending(), id);
}

/// A pending decision changes only by being sealed: its words stay as recorded.
pub proof fn pending_changes_only_by_seal(log: Log, change: ChangeView, id: Seq<char>)
    requires
        log.ordered(),
        admits(log, change),
        log.is_staged(id),
    ensures
        ({
            let d = lookup(log.decisions, id)->0;
            let after = lookup(log.after(change).decisions, id);
            after == Some(d) || (change matches ChangeView::Seal { id: sealed_id, binding } && sealed_id == id
                && after == Some(crate::log::sealed(d, binding)))
        }),
{
    lookup_sound(log.decisions, id);
    match change {
        ChangeView::AddDecision(d) => {
            insert_row_lookup(log.decisions, d, id);
        },
        ChangeView::Seal { id: other, binding } => {
            seal_in_lookup(log.decisions, seq![other], binding, id);
            assert(seq![other][0] == other);
        },
        _ => {},
    }
}

// ---- Tasks ------------------------------------------------------------------

/// The first completion of a task is the recorded one.
pub proof fn first_completion_stays(s: Seq<TaskRecordView>, id: Seq<char>, first: i64, later: i64)
    ensures
        complete_in(complete_in(s, id, first), id, later) == complete_in(s, id, first),
{
    assert(complete_in(complete_in(s, id, first), id, later) =~= complete_in(s, id, first));
}

// ---- Import -----------------------------------------------------------------

/// Two tables with the same rows are the same table.
pub proof fn same_rows<V: Keyed>(a: Seq<V>, b: Seq<V>)
    requires
        ascending(a),
        ascending(b),
        forall|x: V| #[trigger] a.contains(x) <==> b.contains(x),
    ensures
        a == b,
    decreases a.len(),
{
    if a.len() == 0 {
        if b.len() > 0 {
            assert(b.contains(b[0]));
            assert(a.contains(b[0]));
        }
        assert(a =~= b);
    } else {
        let x = a.last();
        assert(a.contains(x));
        assert(b.len() > 0);
        let y = b.last();
        assert(b.contains(y));
        assert(a.contains(y));
        let k = b.index_of(x);
        let m = a.index_of(y);
        if x != y {
            assert(lex_lt(b[k].key(), b[b.len() - 1].key()));
            assert(lex_lt(a[m].key(), a[a.len() - 1].key()));
            lex_lt_asymmetric(x.key(), y.key());
        }
        let p = a.drop_last();
        let q = b.drop_last();
        assert forall|z: V| #[trigger] p.contains(z) <==> q.contains(z) by {
            if p.contains(z) {
                let i = p.index_of(z);
                assert(a[i] == z);
                assert(a.contains(z));
                let j = b.index_of(z);
                if j == b.len() - 1 {
                    keys_unique(a, i, a.len() - 1);
                }
                assert(q[j] == z);
            }
            if q.contains(z) {
                let i = q.index_of(z);
                assert(b[i] == z);
                assert(b.contains(z));
                assert(a.contains(z));
                let j = a.index_of(z);
                if j == a.len() - 1 {
                    keys_unique(b, i, b.len() - 1);
                }
                assert(p[j] == z);
            }
        }
        assert forall|i: int, j: int| 0 <= i < j < p.len() implies lex_lt(
            #[trigger] p[i].key(),
            #[trigger] p[j].key(),
        ) by {
            assert(lex_lt(a[i].key(), a[j].key()));
        }
        assert forall|i: int, j: int| 0 <= i < j < q.len() implies lex_lt(
            #[trigger] q[i].key(),
            #[trigger] q[j].key(),
        ) by {
            assert(lex_lt(b[i].key(), b[j].key()));
        }
        same_rows(p, q);
        assert(a =~= p.push(x));
        assert(b =~= q.push(y));
    }
}

/// Rows that are all known leave a table as it is.
pub proof fn merge_known<V: Keyed>(s: Seq<V>, add: Seq<V>)
    requires
        forall|i: int| 0 <= i < add.len() ==> holds(s, #[trigger] add[i].key()),
    ensures
        merge(s, add) == s,
        fresh_of(s, add).len() == 0,
    decreases add.len(),
{
    if add.len() > 0 {
        let front = add.drop_last();
        assert forall|i: int| 0 <= i < front.len() implies holds(s, #[trigger] front[i].key()) by {
            assert(holds(s, add[i].key()));
        }
        merge_known(s, front);
        assert(holds(s, add[add.len() - 1].key()));
    }
}

/// Once merged, rows are known.
proof fn merged_are_known<V: Keyed>(s: Seq<V>, add: Seq<V>)
    requires
        ascending(s),
    ensures
        forall|i: int| 0 <= i < add.len() ==> holds(merge(s, add), #[trigger] add[i].key()),
{
    merge_holds(s, add);
    assert forall|i: int| 0 <= i < add.len() implies holds(merge(s, add), #[trigger] add[i].key()) by {
        assert(holds(add, add[i].key()));
    }
}

/// Importing the same records again changes nothing: every one is already known.
pub proof fn import_is_idempotent(
    log: Log,
    tasks: Seq<TaskRecordView>,
    decisions: Seq<StoredDecisionView>,
    invariants: Seq<InvariantRecordView>,
)
    requires
        log.ordered(),
    ensures
        log.imported(tasks, decisions, invariants).imported(tasks, decisions, invariants)
            == log.imported(tasks, decisions, invariants),
        log.imported(tasks, decisions, invariants).import_counts(tasks, decisions, invariants) == (
            0nat,
            0nat,
            0nat,
        ),
        log.imported(tasks, decisions, invariants).import_changes(tasks, decisions, invariants)
            == Seq::<ChangeView>::empty(),
        log.imported(tasks, decisions, invariants).names_bindings(decisions),
{
    let landing = decisions.map_values(|d: StoredDecisionView| landed(d));
    merged_are_known(log.tasks, tasks);
    merged_are_known(log.decisions, landing);
    merged_are_known(log.invariants, invariants);
    merge_known(merge(log.tasks, tasks), tasks);
    merge_known(merge(log.decisions, landing), landing);
    merge_known(merge(log.invariants, invariants), invariants);
    let next = log.imported(tasks, decisions, invariants);
    assert(next.import_changes(tasks, decisions, invariants) =~= Seq::<ChangeView>::empty());
    assert forall|k: int| 0 <= k < decisions.len() implies holds(
        next.decisions,
        (#[trigger] decisions[k]).id,
    ) by {
        assert(holds(next.decisions, landing[k].key()));
    }
}

/// No key occurs twice.
pub open spec fn unique_keys<V: Keyed>(s: Seq<V>) -> bool {
    forall|i: int, j: int| 0 <= i < j < s.len() ==> (#[trigger] s[i]).key() != (#[trigger] s[j]).key()
}

/// What a merge of rows with different keys holds.
pub proof fn merge_contains<V: Keyed>(s: Seq<V>, add: Seq<V>, x: V)
    requires
        ascending(s),
        unique_keys(add),
    ensures
        merge(s, add).contains(x) <==> s.contains(x) || (add.contains(x) && !holds(s, x.key())),
    decreases add.len(),
{
    merge_holds(s, add);
    if add.contains(x) && !holds(s, x.key()) {
        let front = add.drop_last();
        let m = merge(s, front);
        assert(unique_keys(front)) by {
            assert forall|i: int, j: int| 0 <= i < j < front.len() implies (#[trigger] front[i]).key() != (
            #[trigger] front[j]).key() by {
                assert(add[i].key() != add[j].key());
            }
        }
        merge_holds(s, front);
        let k = add.index_of(x);
        if k < front.len() {
            assert(front[k] == x);
            merge_contains(s, front, x);
            if !holds(m, add.last().key()) {
                insert_row_keeps(m, add.last());
                assert(insert_row(m, add.last()).contains(x));
            }
        } else {
            assert(!holds(front, x.key())) by {
                if holds(front, x.key()) {
                    let j = choose|j: int| 0 <= j < front.len() && #[trigger] front[j].key() == x.key();
                    assert(add[j].key() != add[k].key());
                }
            }
            assert(!holds(m, x.key()));
            insert_row_keeps(m, x);
            assert(insert_row(m, x).contains(x));
        }
    }
    if s.contains(x) {
        assert(merge(s, add).contains(x));
    }
    if merge(s, add).contains(x) {
        assert(s.contains(x) || (add.contains(x) && !holds(s, x.key())));
    }
}

/// The order in which rows with different ids are merged does not matter.
pub proof fn merge_in_any_order<V: Keyed>(s: Seq<V>, a: Seq<V>, b: Seq<V>)
    requires
        ascending(s),
        unique_keys(a),
        unique_keys(b),
        forall|x: V| #[trigger] a.contains(x) <==> b.contains(x),
    ensures
        merge(s, a) == merge(s, b),
{
    merge_holds(s, a);
    merge_holds(s, b);
    assert forall|x: V| #[trigger] merge(s, a).contains(x) <==> merge(s, b).contains(x) by {
        merge_contains(s, a, x);
        merge_contains(s, b, x);
        assert(a.contains(x) <==> b.contains(x));
    }
    same_rows(merge(s, a), merge(s, b));
}

/// An import does not depend on the order of its records.
pub proof fn import_in_any_order(
    log: Log,
    tasks: (Seq<TaskRecordView>, Seq<TaskRecordView>),
    decisions: (Seq<StoredDecisionView>, Seq<StoredDecisionView>),
    invariants: (Seq<InvariantRecordView>, Seq<InvariantRecordView>),
)
    requires
        log.ordered(),
        unique_keys(tasks.0) && unique_keys(tasks.1),
        unique_keys(decisions.0) && unique_keys(decisions.1),
        unique_keys(invariants.0) && unique_keys(invariants.1),
        forall|x: TaskRecordView| #[trigger] tasks.0.contains(x) <==> tasks.1.contains(x),
        forall|x: StoredDecisionView| #[trigger] decisions.0.contains(x) <==> decisions.1.contains(x),
        forall|x: InvariantRecordView| #[trigger] invariants.0.contains(x) <==> invariants.1.contains(x),
    ensures
        log.imported(tasks.0, decisions.0, invariants.0) == log.imported(
            tasks.1,
            decisions.1,
            invariants.1,
        ),
{
    let f = |d: StoredDecisionView| landed(d);
    let a = decisions.0.map_values(f);
    let b = decisions.1.map_values(f);
    landed_unique(decisions.0);
    landed_unique(decisions.1);
    assert forall|x: StoredDecisionView| #[trigger] a.contains(x) <==> b.contains(x) by {
        if a.contains(x) {
            let d = decisions.0[a.index_of(x)];
            assert(decisions.0.contains(d));
            assert(decisions.1.contains(d));
            assert(b[decisions.1.index_of(d)] == x);
        }
        if b.contains(x) {
            let d = decisions.1[b.index_of(x)];
            assert(decisions.1.contains(d));
            assert(decisions.0.contains(d));
            assert(a[decisions.0.index_of(d)] == x);
        }
    }
    merge_in_any_order(log.tasks, tasks.0, tasks.1);
    merge_in_any_order(log.decisions, a, b);
    merge_in_any_order(log.invariants, invariants.0, invariants.1);
}

proof fn landed_unique(s: Seq<StoredDecisionView>)
    requires
        unique_keys(s),
    ensures
        unique_keys(s.map_values(|d: StoredDecisionView| landed(d))),
{
    let t = s.map_values(|d: StoredDecisionView| landed(d));
    assert forall|i: int, j: int| 0 <= i < j < t.len() implies (#[trigger] t[i]).key() != (
    #[trigger] t[j]).key() by {
        assert(s[i].key() != s[j].key());
    }
}

/// An import leaves every row that was there as it was.
pub proof fn import_keeps_rows(
    log: Log,
    tasks: Seq<TaskRecordView>,
    decisions: Seq<StoredDecisionView>,
    invariants: Seq<InvariantRecordView>,
    id: Seq<char>,
)
    requires
        log.ordered(),
    ensures
        ({
            let next = log.imported(tasks, decisions, invariants);
            &&& holds(log.tasks, id) ==> lookup(next.tasks, id) == lookup(log.tasks, id)
            &&& holds(log.decisions, id) ==> lookup(next.decisions, id) == lookup(log.decisions, id)
            &&& holds(log.invariants, id) ==> lookup(next.invariants, id) == lookup(log.invariants, id)
        }),
{
    merge_lookup(log.tasks, tasks, id);
    merge_lookup(log.decisions, decisions.map_values(|d: StoredDecisionView| landed(d)), id);
    merge_lookup(log.invariants, invariants, id);
}

proof fn merge_lookup<V: Keyed>(s: Seq<V>, add: Seq<V>, id: Seq<char>)
    requires
        ascending(s),
    ensures
        holds(s, id) ==> lookup(merge(s, add), id) == lookup(s, id),
{
    merge_holds(s, add);
    if holds(s, id) {
        lookup_sound(s, id);
        let v = lookup(s, id)->0;
        assert(merge(s, add).contains(v));
        lookup_at(merge(s, add), merge(s, add).index_of(v));
    }
}

/// An import never stages anything: what is pending afterwards was pending before.
pub proof fn import_stages_nothing(
    log: Log,
    tasks: Seq<TaskRecordView>,
    decisions: Seq<StoredDecisionView>,
    invariants: Seq<InvariantRecordView>,
    id: Seq<char>,
)
    requires
        log.ordered(),
    ensures
        log.imported(tasks, decisions, invariants).is_staged(id) <==> log.is_staged(id),
{
    let landing = decisions.map_values(|d: StoredDecisionView| landed(d));
    let next = log.imported(tasks, decisions, invariants);
    merge_holds(log.decisions, landing);
    merge_lookup(log.decisions, landing, id);
    lookup_sound(next.decisions, id);
    lookup_sound(log.decisions, id);
    if next.is_staged(id) && !holds(log.decisions, id) {
        let d = lookup(next.decisions, id)->0;
        assert(next.decisions.contains(d));
        if log.decisions.contains(d) {
            assert(log.decisions[log.decisions.index_of(d)].key() == id);
        } else {
            assert(landing.contains(d));
            let k = landing.index_of(d);
            assert(landing[k] == landed(decisions[k]));
        }
    }
}

} // verus!
