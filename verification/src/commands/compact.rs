//! Compact result rows, shared by the queries that list decisions: the first stage of
//! two-stage retrieval. Full detail comes from `dlog show`.
//!
//! Output is bounded to an agent's context budget: rows are emitted in order until a
//! character budget is reached (or the count limit), and the width of the rationale
//! summary adapts, so that a tight budget yields more, terser rows rather than a few
//! verbose ones. Results left out are counted as elided.
use crate::log::Log;
use crate::model::{Binding, BindingView, StoredDecision, StoredDecisionView};
use crate::queries::{selecting_keeps_order, superseded_by_name};
use crate::resolve::newest_first;
use crate::store::Store;
use crate::table::{holds, listed, lookup, lookup_sound};
use crate::text::facts::lines_end_at_breaks;
use crate::text::{self, lines_of};
use vstd::prelude::*;

verus! {

/// Default width of a row's rationale summary.
pub const SUMMARY_MAX: usize = 140;

/// Floor that the adaptive width never trims below.
pub const SUMMARY_FLOOR: usize = 48;

/// Approximate fixed cost of a row besides the rationale.
pub const ROW_OVERHEAD: usize = 96;

/// One compact result row.
#[derive(Debug, PartialEq, Eq)]
pub struct CompactRow {
    pub id: String,
    pub rationale_summary: String,
    pub binding: Option<Binding>,
    pub staged: bool,
    pub superseded: bool,
    /// Record time, epoch milliseconds.
    pub ts: i64,
}

/// The value of a `CompactRow`.
pub ghost struct CompactRowView {
    pub id: Seq<char>,
    pub rationale_summary: Seq<char>,
    pub binding: Option<BindingView>,
    pub staged: bool,
    pub superseded: bool,
    pub ts: i64,
}

impl DeepView for CompactRow {
    type V = CompactRowView;

    open spec fn deep_view(&self) -> CompactRowView {
        CompactRowView {
            id: self.id@,
            rationale_summary: self.rationale_summary@,
            binding: self.binding.deep_view(),
            staged: self.staged,
            superseded: self.superseded,
            ts: self.ts,
        }
    }
}

impl View for CompactRow {
    type V = CompactRowView;

    open spec fn view(&self) -> CompactRowView {
        self.deep_view()
    }
}

impl Clone for CompactRow {
    fn clone(&self) -> (r: Self)
        ensures
            r@ == self@,
    {
        CompactRow {
            id: self.id.clone(),
            rationale_summary: self.rationale_summary.clone(),
            binding: self.binding.clone(),
            staged: self.staged,
            superseded: self.superseded,
            ts: self.ts,
        }
    }
}

/// The first line of a rationale, capped at `width` characters.
pub open spec fn summary_of(rationale: Seq<char>, width: nat) -> Seq<char> {
    let first = if lines_of(rationale).len() > 0 {
        lines_of(rationale)[0]
    } else {
        Seq::empty()
    };
    if first.len() <= width {
        first
    } else {
        first.take(width as int).push('\u{2026}')
    }
}

/// Compacts a rationale to its first line, capped at `width` characters.
pub fn summarize(rationale: &str, width: usize) -> (r: String)
    ensures
        r@ == summary_of(rationale@, width as nat),
        r@.len() <= width + 1,
{
    let all = text::lines(rationale);
    if all.len() == 0 {
        assert(all.deep_view().len() == 0);
        return String::new();
    }
    let first = text::chars_of(all[0].as_str());
    assert(all.deep_view()[0] == all[0]@);
    if first.len() <= width {
        all[0].clone()
    } else {
        let mut head = text::string_between(&first, 0, width);
        head.push('\u{2026}');
        assert(head@ =~= first@.take(width as int).push('\u{2026}'));
        head
    }
}

/// The summary width for `count` candidates under `budget` characters: the share of
/// a row without its overhead, kept between the floor and the maximum. No budget
/// means the full width.
pub open spec fn width_for(budget: nat, count: nat) -> nat {
    if budget == 0 {
        SUMMARY_MAX as nat
    } else {
        let share = (if count == 0 {
            budget as int
        } else {
            budget as int / count as int
        }) - ROW_OVERHEAD;
        if share < SUMMARY_FLOOR {
            SUMMARY_FLOOR as nat
        } else if share > SUMMARY_MAX {
            SUMMARY_MAX as nat
        } else {
            share as nat
        }
    }
}

/// Picks the summary width for `count` candidates under `budget` characters.
pub fn adaptive_width(budget: usize, count: usize) -> (r: usize)
    ensures
        r == width_for(budget as nat, count as nat),
        SUMMARY_FLOOR <= r <= SUMMARY_MAX,
{
    if budget == 0 {
        return SUMMARY_MAX;
    }
    let per_row: usize = budget / (if count == 0 {
        1
    } else {
        count
    });
    let share: usize = if per_row < ROW_OVERHEAD {
        0
    } else {
        per_row - ROW_OVERHEAD
    };
    if share < SUMMARY_FLOOR {
        SUMMARY_FLOOR
    } else if share > SUMMARY_MAX {
        SUMMARY_MAX
    } else {
        share
    }
}

/// A decision as a compact row.
pub open spec fn row_of(d: StoredDecisionView, superseded: bool, width: nat) -> CompactRowView {
    CompactRowView {
        id: d.id,
        rationale_summary: summary_of(d.rationale, width),
        binding: d.binding,
        staged: d.staged,
        superseded,
        ts: d.created_at_ms,
    }
}

/// Builds a compact row at the given summary width.
pub fn row_from_at(decision: &StoredDecision, superseded: bool, width: usize) -> (r: CompactRow)
    ensures
        r@ == row_of(decision@, superseded, width as nat),
{
    CompactRow {
        id: decision.id.clone(),
        rationale_summary: summarize(decision.rationale.as_str(), width),
        binding: decision.binding.clone(),
        staged: decision.staged,
        superseded,
        ts: decision.created_at_ms,
    }
}

/// Builds a compact row at full width.
pub fn row_from(decision: &StoredDecision, superseded: bool) -> (r: CompactRow)
    ensures
        r@ == row_of(decision@, superseded, SUMMARY_MAX as nat),
{
    row_from_at(decision, superseded, SUMMARY_MAX)
}

/// What a row costs: its summary and a fixed overhead.
pub open spec fn cost_of(row: CompactRowView) -> nat {
    row.rationale_summary.len() + ROW_OVERHEAD as nat
}

/// What a row costs against the budget.
pub fn row_cost(row: &CompactRow) -> (r: usize)
    requires
        row@.rationale_summary.len() + ROW_OVERHEAD <= usize::MAX,
    ensures
        r == cost_of(row@),
{
    text::char_count(row.rationale_summary.as_str()) + ROW_OVERHEAD
}

// ---- A page of rows ---------------------------------------------------------

/// What each row costs.
pub open spec fn costs_of(rows: Seq<CompactRowView>) -> Seq<nat> {
    rows.map_values(|row: CompactRowView| cost_of(row))
}

/// What the first `n` rows cost together.
pub open spec fn total_cost(costs: Seq<nat>, n: int) -> nat
    decreases n,
{
    if n <= 0 {
        0
    } else {
        total_cost(costs, n - 1) + costs[n - 1]
    }
}

/// The first `n` rows fit: there is no budget, or it is kept, or it is one row at most.
pub open spec fn fits(costs: Seq<nat>, budget: nat, n: int) -> bool {
    budget == 0 || n <= 1 || total_cost(costs, n) <= budget
}

/// `n` rows make the page: as many as the limit and the budget allow.
pub open spec fn is_page(costs: Seq<nat>, limit: nat, budget: nat, n: int) -> bool {
    &&& 0 <= n <= costs.len()
    &&& n <= limit
    &&& fits(costs, budget, n)
    &&& n == costs.len() || n == limit || !fits(costs, budget, n + 1)
}

/// What rows cost together does not shrink with more of them.
pub proof fn total_cost_grows(costs: Seq<nat>, m: int, n: int)
    requires
        m <= n,
    ensures
        total_cost(costs, m) <= total_cost(costs, n),
    decreases n - m,
{
    if m < n {
        total_cost_grows(costs, m, n - 1);
    }
}

/// There is only one page.
pub proof fn page_is_unique(costs: Seq<nat>, limit: nat, budget: nat, m: int, n: int)
    requires
        is_page(costs, limit, budget, m),
        is_page(costs, limit, budget, n),
    ensures
        m == n,
{
    if m < n {
        total_cost_grows(costs, m + 1, n);
    }
    if n < m {
        total_cost_grows(costs, n + 1, m);
    }
}

/// The candidates in scope: superseded ones only where they are asked for.
pub open spec fn live_ids(log: Log, ids: Seq<Seq<char>>, include_superseded: bool) -> Seq<Seq<char>> {
    ids.filter(|id: Seq<char>| include_superseded || !log.is_superseded(id))
}

/// The rows of the candidates that the log has.
pub open spec fn rows_of(log: Log, live: Seq<Seq<char>>, width: nat) -> Seq<CompactRowView>
    decreases live.len(),
{
    if live.len() == 0 {
        Seq::empty()
    } else {
        let rows = rows_of(log, live.drop_last(), width);
        match lookup(log.decisions, live.last()) {
            Some(d) => rows.push(row_of(d, log.is_superseded(live.last()), width)),
            None => rows,
        }
    }
}

/// The rows that a query lists, at the width that its candidates and budget give.
pub open spec fn candidate_rows(
    log: Log,
    ids: Seq<Seq<char>>,
    include_superseded: bool,
    budget: nat,
) -> Seq<CompactRowView> {
    let live = live_ids(log, ids, include_superseded);
    rows_of(log, live, width_for(budget, live.len()))
}

/// The rows of more candidates start with those of fewer.
proof fn rows_of_prefix(log: Log, live: Seq<Seq<char>>, width: nat, k: int)
    requires
        0 <= k <= live.len(),
    ensures
        rows_of(log, live.take(k), width).len() <= k,
        rows_of(log, live.take(k), width).is_prefix_of(rows_of(log, live, width)),
    decreases live.len() + k,
{
    let whole = rows_of(log, live, width);
    if k == live.len() {
        assert(live.take(k) =~= live);
        assert(whole =~= whole.subrange(0, whole.len() as int));
        if k > 0 {
            rows_of_prefix(log, live.drop_last(), width, k - 1);
            assert(live.drop_last().take(k - 1) =~= live.drop_last());
        }
    } else {
        let front = live.drop_last();
        rows_of_prefix(log, front, width, k);
        assert(front.take(k) =~= live.take(k));
        let part = rows_of(log, live.take(k), width);
        let rest = rows_of(log, front, width);
        assert(part =~= whole.subrange(0, part.len() as int)) by {
            assert(part =~= rest.subrange(0, part.len() as int));
            assert forall|i: int| 0 <= i < part.len() implies part[i] == whole[i] by {
                assert(part[i] == rest.subrange(0, part.len() as int)[i]);
                assert(rest[i] == whole[i]);
            }
        }
    }
}

/// Keeps the candidates in scope.
pub fn live_scope(store: &Store, ids: &Vec<String>, include_superseded: bool) -> (r: Vec<String>)
    ensures
        r.deep_view() == live_ids(store@, ids.deep_view(), include_superseded),
{
    let ghost log = store@;
    let ghost all = ids.deep_view();
    let ghost p = |id: Seq<char>| include_superseded || !log.is_superseded(id);
    let superseded = store.superseded_ids();
    let mut out: Vec<String> = Vec::new();
    proof {
        reveal(Seq::filter);
    }
    assert(all.take(0) =~= Seq::empty());
    assert(out.deep_view() =~= Seq::empty());
    for i in 0..ids.len()
        invariant
            all == ids.deep_view(),
            log == store@,
            p == (|id: Seq<char>| include_superseded || !log.is_superseded(id)),
            forall|id: Seq<char>| #[trigger]
                superseded.deep_view().contains(id) <==> log.is_superseded(id),
            out.deep_view() == all.take(i as int).filter(p),
    {
        let ghost id = all[i as int];
        let ghost before = out.deep_view();
        assert(all.take(i + 1) =~= all.take(i as int).push(id));
        proof {
            all.take(i as int).lemma_filter_push(id, p);
        }
        assert(id == ids[i as int]@);
        if include_superseded || !listed(&superseded, ids[i].as_str()) {
            out.push(ids[i].clone());
            assert(out.deep_view() =~= before.push(id));
        }
    }
    assert(all.take(all.len() as int) =~= all);
    out
}

/// Builds compact rows for `ids` (already in priority order), with the live-decisions
/// scope applied (superseded dropped unless `include_superseded`, staged kept and
/// flagged), bounded by a character `budget` (0 means none) and a count `limit`.
/// Returns the rows, whether any were left out, and how many.
pub fn collect(
    store: &Store,
    ids: &Vec<String>,
    include_superseded: bool,
    limit: usize,
    budget: usize,
) -> (r: (Vec<CompactRow>, bool, usize))
    requires
        store.wf(),
    ensures
        ({
            let live = live_ids(store@, ids.deep_view(), include_superseded);
            let rows = candidate_rows(store@, ids.deep_view(), include_superseded, budget as nat);
            &&& is_page(costs_of(rows), limit as nat, budget as nat, r.0@.len() as int)
            &&& r.0.deep_view() == rows.take(r.0@.len() as int)
            &&& r.2 == live.len() - r.0@.len()
            &&& r.1 == (r.2 > 0)
        }),
{
    let ghost log = store@;
    let superseded = store.superseded_ids();
    let live = live_scope(store, ids, include_superseded);
    let ghost all = live.deep_view();
    let width: usize = adaptive_width(budget, live.len());
    let ghost whole = rows_of(log, all, width as nat);
    let ghost costs = costs_of(whole);
    let mut rows: Vec<CompactRow> = Vec::new();
    let mut running: usize = 0;
    let mut i: usize = 0;
    let mut stopped = false;
    assert(all.take(0) =~= Seq::empty());
    assert(rows.deep_view() =~= Seq::empty());
    proof {
        rows_of_prefix(log, all, width as nat, 0);
    }
    while i < live.len() && !stopped
        invariant
            i <= live.len(),
            store.wf(),
            log == store@,
            all == live.deep_view(),
            whole == rows_of(log, all, width as nat),
            costs == costs_of(whole),
            width <= SUMMARY_MAX,
            forall|id: Seq<char>| #[trigger]
                superseded.deep_view().contains(id) <==> log.is_superseded(id),
            rows@.len() <= i,
            rows@.len() <= limit,
            !stopped ==> rows.deep_view() == rows_of(log, all.take(i as int), width as nat),
            rows.deep_view().is_prefix_of(whole),
            fits(costs, budget as nat, rows@.len() as int),
            budget > 0 ==> running == total_cost(costs, rows@.len() as int),
            stopped ==> is_page(costs, limit as nat, budget as nat, rows@.len() as int),
        decreases
            live.len() - i,
            (if stopped {
                0nat
            } else {
                1nat
            }),
    {
        let ghost before = rows.deep_view();
        let ghost n = rows@.len() as int;
        let ghost id = all[i as int];
        if rows.len() >= limit {
            stopped = true;
            assert(whole.len() >= n);
        } else {
            proof {
                assert(all.take(i + 1).drop_last() =~= all.take(i as int));
                assert(all.take(i + 1).last() == live[i as int]@);
                rows_of_prefix(log, all, width as nat, i + 1);
            }
            let ghost next = rows_of(log, all.take(i + 1), width as nat);
            match store.get_decision(live[i].as_str()) {
                None => {
                    i = i + 1;
                },
                Some(d) => {
                    let row = row_from_at(&d, listed(&superseded, live[i].as_str()), width);
                    assert(row@.rationale_summary == summary_of(d@.rationale, width as nat));
                    proof {
                        summary_is_short(d@.rationale, width as nat);
                    }
                    let cost: usize = row_cost(&row);
                    assert(next == before.push(row@));
                    assert(next[n] == row@);
                    assert(whole.len() > n && whole[n] == row@) by {
                        assert(next =~= whole.subrange(0, next.len() as int));
                        assert(next[n] == whole.subrange(0, next.len() as int)[n]);
                    }
                    if budget > 0 && rows.len() > 0 && (running > budget || cost > budget - running) {
                        stopped = true;
                        assert(!fits(costs, budget as nat, n + 1));
                    } else {
                        if budget > 0 {
                            running = if rows.len() == 0 {
                                cost
                            } else {
                                running + cost
                            };
                        }
                        rows.push(row);
                        i = i + 1;
                        assert(rows.deep_view() =~= next);
                    }
                },
            }
        }
    }
    proof {
        if !stopped {
            assert(all.take(all.len() as int) =~= all);
            assert(rows.deep_view().len() == whole.len());
        }
        assert(rows.deep_view() =~= whole.take(rows@.len() as int));
    }
    let elided: usize = live.len() - rows.len();
    (rows, elided > 0, elided)
}

// ---- Laws -------------------------------------------------------------------

/// However tight the budget, a page has a row where there is one to show.
pub proof fn page_has_a_row(costs: Seq<nat>, limit: nat, budget: nat, n: int)
    requires
        is_page(costs, limit, budget, n),
        costs.len() > 0,
        limit > 0,
    ensures
        n >= 1,
{
}

/// Without a budget a page leaves nothing out that the limit allows.
pub proof fn page_without_budget(costs: Seq<nat>, limit: nat, n: int)
    requires
        is_page(costs, limit, 0, n),
        costs.len() <= limit,
    ensures
        n == costs.len(),
{
}

/// A page of more than one row keeps the budget.
pub proof fn page_keeps_budget(costs: Seq<nat>, limit: nat, budget: nat, n: int)
    requires
        is_page(costs, limit, budget, n),
        budget > 0,
        n > 1,
    ensures
        total_cost(costs, n) <= budget,
{
}

/// A tighter budget, or more candidates, makes rows terser and never wider. Where rows are
/// wider than the floor, the budget pays for all of them at their full width. No budget
/// means the full width.
pub proof fn width_adapts(budget: nat, more_budget: nat, count: nat, more_count: nat)
    requires
        0 < budget <= more_budget,
        count <= more_count,
    ensures
        width_for(budget, more_count) <= width_for(more_budget, count),
        SUMMARY_FLOOR <= width_for(budget, count) <= SUMMARY_MAX,
        width_for(budget, count) > SUMMARY_FLOOR ==> (if count == 0 {
            1
        } else {
            count
        }) * (width_for(budget, count) + ROW_OVERHEAD) <= budget,
        width_for(0, count) == SUMMARY_MAX,
{
    let few = if count == 0 {
        1int
    } else {
        count as int
    };
    let many = if more_count == 0 {
        1int
    } else {
        more_count as int
    };
    assert(budget as int / many <= more_budget as int / few) by (nonlinear_arith)
        requires
            0 < budget <= more_budget,
            1 <= few <= many,
    ;
    let width = width_for(budget, count) as int;
    if width > SUMMARY_FLOOR {
        assert(width + ROW_OVERHEAD <= budget as int / few);
        assert(few * (width + ROW_OVERHEAD) <= budget) by (nonlinear_arith)
            requires
                1 <= few,
                0 <= budget,
                width + ROW_OVERHEAD <= budget as int / few,
        ;
    }
}

/// Every candidate that the log has gets a row: then what a page leaves out is
/// exactly what is counted as elided.
pub proof fn every_known_id_has_a_row(log: Log, live: Seq<Seq<char>>, width: nat)
    requires
        forall|i: int| 0 <= i < live.len() ==> holds(log.decisions, #[trigger] live[i]),
    ensures
        rows_of(log, live, width).len() == live.len(),
        forall|i: int| 0 <= i < live.len() ==> (#[trigger] rows_of(log, live, width)[i]).id == live[i],
    decreases live.len(),
{
    if live.len() > 0 {
        let front = live.drop_last();
        assert forall|i: int| 0 <= i < front.len() implies holds(log.decisions, #[trigger] front[i]) by {
            assert(holds(log.decisions, live[i]));
        }
        every_known_id_has_a_row(log, front, width);
        assert(holds(log.decisions, live[live.len() - 1]));
        lookup_sound(log.decisions, live.last());
        let rows = rows_of(log, live, width);
        assert forall|i: int| 0 <= i < live.len() implies (#[trigger] rows[i]).id == live[i] by {
            if i < front.len() {
                assert(rows[i] == rows_of(log, front, width)[i]);
                assert(front[i] == live[i]);
            } else {
                let d = lookup(log.decisions, live.last())->0;
                assert(crate::table::Keyed::key(&d) == live.last());
            }
        }
    }
}

/// By default no row is superseded.
pub proof fn superseded_rows_are_hidden(log: Log, ids: Seq<Seq<char>>, budget: nat, i: int)
    requires
        0 <= i < candidate_rows(log, ids, false, budget).len(),
    ensures
        !candidate_rows(log, ids, false, budget)[i].superseded,
{
    let live = live_ids(log, ids, false);
    let include_superseded = false;
    let p = |id: Seq<char>| include_superseded || !log.is_superseded(id);
    assert(live == ids.filter(p));
    assert forall|k: int| 0 <= k < live.len() implies !log.is_superseded(#[trigger] live[k]) by {
        ids.lemma_filter_pred(p, k);
    }
    no_superseded_rows(log, live, width_for(budget, live.len()));
}

proof fn no_superseded_rows(log: Log, live: Seq<Seq<char>>, width: nat)
    requires
        forall|k: int| 0 <= k < live.len() ==> !log.is_superseded(#[trigger] live[k]),
    ensures
        forall|i: int|
            0 <= i < rows_of(log, live, width).len() ==> !(#[trigger] rows_of(log, live, width)[i]).superseded,
    decreases live.len(),
{
    if live.len() > 0 {
        let front = live.drop_last();
        assert forall|k: int| 0 <= k < front.len() implies !log.is_superseded(#[trigger] front[k]) by {
            assert(!log.is_superseded(live[k]));
        }
        no_superseded_rows(log, front, width);
        assert(!log.is_superseded(live[live.len() - 1]));
        let rows = rows_of(log, live, width);
        let rest = rows_of(log, front, width);
        assert forall|i: int| 0 <= i < rows.len() implies !(#[trigger] rows[i]).superseded by {
            if i < rest.len() {
                assert(rows[i] == rest[i]);
            }
        }
    }
}

/// A summary is never longer than its width and an ellipsis.
pub proof fn summary_is_short(rationale: Seq<char>, width: nat)
    ensures
        summary_of(rationale, width).len() <= width + 1,
{
}

/// A summary is the first line: whole where it is short enough, and otherwise as much of
/// it as the width allows and an ellipsis.
pub proof fn summary_is_first_line(line: Seq<char>, rest: Seq<char>, width: nat)
    requires
        !line.contains('\n'),
        line.len() == 0 || line.last() != '\r',
    ensures
        line.len() <= width ==> summary_of(line.push('\n') + rest, width) == line && summary_of(line, width)
            == line,
        line.len() > width ==> summary_of(line.push('\n') + rest, width) == line.take(width as int).push(
            '\u{2026}',
        ) && summary_of(line, width) == line.take(width as int).push('\u{2026}'),
        summary_of(Seq::empty(), width) == Seq::<char>::empty(),
{
    lines_end_at_breaks(line, rest);
    let s = line.push('\n') + rest;
    assert(lines_of(s)[0] == line);
    if line.len() > 0 {
        assert(lines_of(line)[0] == line);
    } else {
        assert(line =~= Seq::<char>::empty());
    }
}

/// A row tells of a decision what the log has: its id, whether it is pending, its binding
/// and when it was recorded, with the summary of its rationale.
pub open spec fn tells(log: Log, row: CompactRowView, width: nat) -> bool {
    &&& exists|d: StoredDecisionView| #[trigger]
        log.decisions.contains(d) && d.id == row.id && d.staged == row.staged && d.binding == row.binding
            && d.created_at_ms == row.ts && row.rationale_summary == summary_of(d.rationale, width)
    &&& row.superseded <==> exists|e: StoredDecisionView| #[trigger]
        log.decisions.contains(e) && e.supersedes == Some(row.id)
}

/// A row made for a decision of the log tells of it.
pub proof fn row_tells(log: Log, d: StoredDecisionView, width: nat)
    requires
        log.decisions.contains(d),
    ensures
        tells(log, row_of(d, log.is_superseded(d.id), width), width),
        row_of(d, log.is_superseded(d.id), width).id == d.id,
{
    superseded_by_name(log, d.id);
    let row = row_of(d, log.is_superseded(d.id), width);
    assert(log.decisions.contains(d) && d.id == row.id);
}

/// The rows of a list: one for each id that the log has, in the order of the ids, and each
/// tells of its decision.
pub proof fn rows_tell(log: Log, live: Seq<Seq<char>>, width: nat, i: int)
    requires
        log.ordered(),
        0 <= i < rows_of(log, live, width).len(),
    ensures
        tells(log, rows_of(log, live, width)[i], width),
        live.contains(rows_of(log, live, width)[i].id),
    decreases live.len(),
{
    let rows = rows_of(log, live, width);
    if live.len() > 0 {
        let front = live.drop_last();
        let some = rows_of(log, front, width);
        lookup_sound(log.decisions, live.last());
        if i < some.len() {
            rows_tell(log, front, width, i);
            assert(rows[i] == some[i]);
            assert(live[front.index_of(some[i].id)] == some[i].id);
        } else {
            let d = lookup(log.decisions, live.last())->0;
            row_tells(log, d, width);
            assert(live[live.len() - 1] == rows[i].id);
        }
    }
}

/// The rows of ids in two parts are those of the first and then those of the second; one
/// id gives one row where the log has it.
pub proof fn rows_in_order(log: Log, a: Seq<Seq<char>>, b: Seq<Seq<char>>, id: Seq<char>, width: nat)
    requires
        log.ordered(),
    ensures
        rows_of(log, a + b, width) == rows_of(log, a, width) + rows_of(log, b, width),
        !holds(log.decisions, id) ==> rows_of(log, seq![id], width) == Seq::<CompactRowView>::empty(),
        holds(log.decisions, id) ==> rows_of(log, seq![id], width).len() == 1 && rows_of(
            log,
            seq![id],
            width,
        )[0].id == id,
    decreases b.len(),
{
    lookup_sound(log.decisions, id);
    assert(rows_of(log, Seq::empty(), width) =~= Seq::<CompactRowView>::empty());
    assert(seq![id].drop_last() =~= Seq::<Seq<char>>::empty());
    assert(rows_of(log, seq![id], width) =~= (match lookup(log.decisions, id) {
        Some(d) => seq![row_of(d, log.is_superseded(id), width)],
        None => Seq::empty(),
    }));
    if b.len() > 0 {
        rows_in_order(log, a, b.drop_last(), id, width);
        assert((a + b).drop_last() =~= a + b.drop_last());
        assert((a + b).last() == b.last());
        assert(rows_of(log, a + b, width) =~= rows_of(log, a, width) + rows_of(log, b, width));
    } else {
        assert(a + b =~= a);
        assert(rows_of(log, a, width) + rows_of(log, b, width) =~= rows_of(log, a, width));
    }
}

/// In scope is what no decision supersedes, and all of it where superseded ones are asked
/// for. The order stays.
pub proof fn scope_drops_superseded(log: Log, ids: Seq<Seq<char>>, id: Seq<char>)
    ensures
        live_ids(log, ids, false).contains(id) <==> ids.contains(id) && !exists|e: StoredDecisionView| #[trigger]
            log.decisions.contains(e) && e.supersedes == Some(id),
        live_ids(log, ids, true) == ids,
        forall|i: int, j: int|
            #![trigger live_ids(log, ids, false)[i], live_ids(log, ids, false)[j]]
            newest_first(ids) && 0 <= i < j < live_ids(log, ids, false).len() ==> text::lex_lt(
                live_ids(log, ids, false)[j],
                live_ids(log, ids, false)[i],
            ),
{
    superseded_by_name(log, id);
    let include_superseded = false;
    let p = |x: Seq<char>| include_superseded || !log.is_superseded(x);
    selecting_keeps_order(ids, p, |a: Seq<char>, b: Seq<char>| true);
    if newest_first(ids) {
        selecting_keeps_order(ids, p, |a: Seq<char>, b: Seq<char>| text::lex_lt(b, a));
        let live = live_ids(log, ids, false);
        let r = |a: Seq<char>, b: Seq<char>| text::lex_lt(b, a);
        assert forall|i: int, j: int|
            #![trigger live[i], live[j]]
            0 <= i < j < live.len() implies text::lex_lt(live[j], live[i]) by {
            assert(r(live[i], live[j]));
        }
    }
    all_in_scope(log, ids);
}

proof fn all_in_scope(log: Log, ids: Seq<Seq<char>>)
    ensures
        live_ids(log, ids, true) == ids,
    decreases ids.len(),
{
    reveal(Seq::filter);
    if ids.len() > 0 {
        all_in_scope(log, ids.drop_last());
        let include_superseded = true;
        let p = |x: Seq<char>| include_superseded || !log.is_superseded(x);
        assert(live_ids(log, ids, true) == ids.filter(p));
        assert(live_ids(log, ids.drop_last(), true) == ids.drop_last().filter(p));
        assert(ids =~= ids.drop_last().push(ids.last()));
    } else {
        assert(live_ids(log, ids, true) =~= ids);
    }
}

/// A row costs 96 characters besides its summary. With a budget, a summary is as wide as
/// its share of the budget leaves, at least 48 and at most 140.
pub proof fn rows_share_the_budget(row: CompactRowView, budget: nat, count: nat)
    requires
        budget > 0,
        count > 0,
    ensures
        cost_of(row) == row.rationale_summary.len() + 96,
        ({
            let share = budget as int / count as int;
            &&& share <= 144 ==> width_for(budget, count) == 48
            &&& 144 <= share <= 236 ==> width_for(budget, count) == share - 96
            &&& share >= 236 ==> width_for(budget, count) == 140
        }),
{
}

/// A page is cut short only by the limit or by the budget: what it leaves out would be one
/// row too many, or would cost too much together with what it shows.
pub proof fn page_is_full(costs: Seq<nat>, limit: nat, budget: nat, n: int)
    requires
        is_page(costs, limit, budget, n),
        n < costs.len(),
        n < limit,
    ensures
        budget > 0,
        n >= 1,
        total_cost(costs, n) + costs[n] > budget,
{
}

/// A page holds no more rows than the limit, and all that there are where both limit and
/// budget allow it.
pub proof fn page_keeps_limit(costs: Seq<nat>, limit: nat, budget: nat, n: int)
    requires
        is_page(costs, limit, budget, n),
    ensures
        n <= limit,
        n <= costs.len(),
        costs.len() <= limit && (budget == 0 || total_cost(costs, costs.len() as int) <= budget) ==> n
            == costs.len(),
{
    if n < costs.len() {
        total_cost_grows(costs, n + 1, costs.len() as int);
    }
}

/// What rows cost together is the sum of what each costs.
pub proof fn costs_add_up(costs: Seq<nat>, n: int)
    requires
        0 <= n < costs.len(),
    ensures
        total_cost(costs, 0) == 0,
        total_cost(costs, n + 1) == total_cost(costs, n) + costs[n],
{
}

} // verus!
