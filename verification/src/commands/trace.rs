//! `dlog trace <id>`: walks the causal graph around a decision.
//!
//! Decisions form a graph via `caused_by`. Trace returns the decisions reached by
//! following those edges: upstream are the causes (what led here), downstream the
//! decisions that this one prompted.
//!
//! The reply keeps the shape of the graph: each node carries its own edges. Cycles are
//! guarded by visiting each decision once; the depth caps how far the walk goes.
//!
//! The budget bounds the payload, but cuts by branch: nodes are paid for nearest the
//! root first, and once the budget is spent everything after it in that order is
//! dropped, which drops whole subtrees rather than orphaning them. Both directions share
//! it in proportion to what each of them found, and where it pays for one row of each,
//! neither spends the other's.
use crate::cli::TraceArgs;
use crate::commands::compact::{
    adaptive_width, cost_of, row_cost, row_from, row_from_at, row_of, row_tells, summary_is_short, tells,
    width_for,
    CompactRow, CompactRowView, SUMMARY_MAX,
};
use crate::commands::{failure, AppError};
use crate::log::Log;
use crate::model::StoredDecisionView;
use crate::resolve::{newest_first, query_is_exact};
use crate::store::{selection, Store};
use crate::table::{holds, ids_where, listed, lookup, lookup_at, lookup_sound};
use crate::text;
use vstd::prelude::*;

verus! {

/// Describes the interpreted query.
#[derive(Debug, PartialEq, Eq)]
pub struct TraceDesc {
    pub kind: &'static str,
    pub id: String,
    pub depth: usize,
    pub budget: usize,
}

/// A compact row plus its position in the graph: how far it is from the root, and the
/// nodes it leads to in the direction being walked.
#[derive(Debug, PartialEq, Eq)]
pub struct TraceNode {
    pub row: CompactRow,
    pub depth: usize,
    /// Further nodes reached from this one. Empty at a leaf, at the depth cap, or
    /// where the budget cut the branch.
    pub edges: Vec<TraceNode>,
}

/// The value of a `TraceNode`.
pub ghost struct TraceNodeView {
    pub row: CompactRowView,
    pub depth: nat,
    pub edges: Seq<TraceNodeView>,
}

impl TraceNode {
    /// The value of the node and of everything under it.
    pub open spec fn tree(&self) -> TraceNodeView
        decreases self,
    {
        TraceNodeView {
            row: self.row@,
            depth: self.depth as nat,
            edges: Seq::new(
                self.edges@.len(),
                |i: int|
                    if 0 <= i < self.edges@.len() {
                        self.edges@[i].tree()
                    } else {
                        arbitrary()
                    },
            ),
        }
    }
}

/// The values of several nodes.
pub open spec fn forest(nodes: Seq<TraceNode>) -> Seq<TraceNodeView> {
    nodes.map_values(|n: TraceNode| n.tree())
}

/// The reply.
#[derive(Debug, PartialEq, Eq)]
pub struct TraceEnvelope {
    pub query: TraceDesc,
    pub root: CompactRow,
    /// Causes: decisions reachable via `caused_by`.
    pub upstream: Vec<TraceNode>,
    /// Effects: decisions that list this one in their `caused_by`.
    pub downstream: Vec<TraceNode>,
    pub truncated: bool,
    /// Reachable decisions left out by the budget.
    pub elided: usize,
}

/// Which way to walk.
#[derive(Debug, Clone, Copy, PartialEq, Eq, Structural)]
pub enum Direction {
    Up,
    Down,
}

/// The decisions one step from `id`: its causes, or those it prompted.
pub open spec fn neighbors_of(log: Log, direction: Direction, id: Seq<char>) -> Seq<Seq<char>> {
    match direction {
        Direction::Up => match lookup(log.decisions, id) {
            Some(d) => d.caused_by,
            None => Seq::empty(),
        },
        Direction::Down => log.effects_of(id),
    }
}

fn neighbors(store: &Store, id: &str, direction: Direction) -> (r: Vec<String>)
    requires
        store.wf(),
    ensures
        r.deep_view() == neighbors_of(store@, direction, id@),
{
    match direction {
        Direction::Up => match store.get_decision(id) {
            Some(d) => d.caused_by,
            None => {
                let none: Vec<String> = Vec::new();
                assert(none.deep_view() =~= Seq::empty());
                none
            },
        },
        Direction::Down => store.decision_ids_caused_by(id),
    }
}

// ---- The walk ---------------------------------------------------------------

/// One decision met on the walk: how far from the root, and from which earlier one it
/// was first reached (none: from the root).
#[derive(Debug, PartialEq, Eq)]
pub struct Visit {
    pub id: String,
    pub depth: usize,
    pub parent: Option<usize>,
}

/// The value of a `Visit`.
pub ghost struct VisitView {
    pub id: Seq<char>,
    pub depth: nat,
    pub parent: Option<int>,
}

impl DeepView for Visit {
    type V = VisitView;

    open spec fn deep_view(&self) -> VisitView {
        VisitView {
            id: self.id@,
            depth: self.depth as nat,
            parent: match self.parent {
                Some(p) => Some(p as int),
                None => None,
            },
        }
    }
}

/// `id` is the root, or met already.
pub open spec fn met(root: Seq<char>, order: Seq<VisitView>, id: Seq<char>) -> bool {
    id == root || exists|i: int| 0 <= i < order.len() && (#[trigger] order[i]).id == id
}

/// The walk once the decisions `ids` are reached from `parent`: those not met before
/// are added.
pub open spec fn meet(
    root: Seq<char>,
    order: Seq<VisitView>,
    parent: Option<int>,
    depth: nat,
    ids: Seq<Seq<char>>,
) -> Seq<VisitView>
    decreases ids.len(),
{
    if ids.len() == 0 {
        order
    } else {
        let so_far = meet(root, order, parent, depth, ids.drop_last());
        if met(root, so_far, ids.last()) {
            so_far
        } else {
            so_far.push(VisitView { id: ids.last(), depth, parent })
        }
    }
}

/// The walk once each of the decisions `lo..hi` is followed one step.
pub open spec fn level(
    log: Log,
    direction: Direction,
    root: Seq<char>,
    order: Seq<VisitView>,
    lo: int,
    hi: int,
    depth: nat,
) -> Seq<VisitView>
    decreases hi - lo,
{
    if hi <= lo {
        order
    } else {
        meet(
            root,
            level(log, direction, root, order, lo, hi - 1, depth),
            Some(hi - 1),
            depth,
            neighbors_of(log, direction, order[hi - 1].id),
        )
    }
}

/// The walk out to a depth, breadth first, and where its last level starts.
pub open spec fn walk_to(log: Log, direction: Direction, root: Seq<char>, depth: nat) -> (
    Seq<VisitView>,
    int,
)
    decreases depth,
{
    if depth == 0 {
        (Seq::empty(), 0)
    } else if depth == 1 {
        (meet(root, Seq::empty(), None, 1, neighbors_of(log, direction, root)), 0)
    } else {
        let (order, lo) = walk_to(log, direction, root, (depth - 1) as nat);
        (level(log, direction, root, order, lo, order.len() as int, depth), order.len() as int)
    }
}

/// Every decision within `depth` steps of the root, nearest first.
pub open spec fn walk_order(log: Log, direction: Direction, root: Seq<char>, depth: nat) -> Seq<VisitView> {
    walk_to(log, direction, root, depth).0
}

/// A step from `id` leads to a decision that was not met.
pub open spec fn leads_on(
    log: Log,
    direction: Direction,
    root: Seq<char>,
    order: Seq<VisitView>,
    id: Seq<char>,
) -> bool {
    exists|k: int|
        0 <= k < neighbors_of(log, direction, id).len() && !met(
            root,
            order,
            #[trigger] neighbors_of(log, direction, id)[k],
        )
}

/// The walk stopped at `depth` with decisions left to meet: some step from its last
/// level leads to one that was not met.
pub open spec fn walk_cut(log: Log, direction: Direction, root: Seq<char>, depth: nat) -> bool {
    let (order, lo) = walk_to(log, direction, root, depth);
    if depth == 0 {
        leads_on(log, direction, root, order, root)
    } else {
        exists|i: int|
            lo <= i < order.len() && leads_on(log, direction, root, order, (#[trigger] order[i]).id)
    }
}

/// Meeting more keeps what was met.
proof fn meet_extends(
    root: Seq<char>,
    order: Seq<VisitView>,
    parent: Option<int>,
    depth: nat,
    ids: Seq<Seq<char>>,
)
    ensures
        order.len() <= meet(root, order, parent, depth, ids).len(),
        forall|i: int| 0 <= i < order.len() ==> meet(root, order, parent, depth, ids)[i] == order[i],
    decreases ids.len(),
{
    if ids.len() > 0 {
        meet_extends(root, order, parent, depth, ids.drop_last());
    }
}

/// A further level keeps what was met.
proof fn level_extends(
    log: Log,
    direction: Direction,
    root: Seq<char>,
    order: Seq<VisitView>,
    lo: int,
    hi: int,
    depth: nat,
)
    ensures
        order.len() <= level(log, direction, root, order, lo, hi, depth).len(),
        forall|i: int|
            0 <= i < order.len() ==> level(log, direction, root, order, lo, hi, depth)[i] == order[i],
    decreases hi - lo,
{
    if hi > lo {
        level_extends(log, direction, root, order, lo, hi - 1, depth);
        let so_far = level(log, direction, root, order, lo, hi - 1, depth);
        let ids = neighbors_of(log, direction, order[hi - 1].id);
        meet_extends(root, so_far, Some(hi - 1), depth, ids);
    }
}

/// Once a level adds nothing, no further one does.
proof fn walk_settles(log: Log, direction: Direction, root: Seq<char>, depth: nat, further: nat)
    requires
        1 <= depth <= further,
        walk_to(log, direction, root, depth).1 == walk_to(log, direction, root, depth).0.len(),
    ensures
        walk_to(log, direction, root, further).0 == walk_to(log, direction, root, depth).0,
        walk_to(log, direction, root, further).1 == walk_to(log, direction, root, depth).1,
    decreases further,
{
    if further > depth {
        walk_settles(log, direction, root, depth, (further - 1) as nat);
    }
}

/// Whether a decision is the root or met already.
fn is_met(root: &str, order: &Vec<Visit>, id: &str) -> (r: bool)
    ensures
        r == met(root@, order.deep_view(), id@),
{
    if text::same(root, id) {
        return true;
    }
    for i in 0..order.len()
        invariant
            forall|j: int| 0 <= j < i ==> (#[trigger] order.deep_view()[j]).id != id@,
            root@ != id@,
    {
        assert(order.deep_view()[i as int].id == order[i as int].id@);
        if text::same(order[i].id.as_str(), id) {
            return true;
        }
    }
    false
}

/// Adds the decisions reached from `parent` that were not met before.
fn meet_all(root: &str, order: &mut Vec<Visit>, parent: Option<usize>, depth: usize, ids: &Vec<String>)
    ensures
        final(order).deep_view() == meet(
            root@,
            old(order).deep_view(),
            match parent {
                Some(p) => Some(p as int),
                None => None,
            },
            depth as nat,
            ids.deep_view(),
        ),
{
    let ghost start = order.deep_view();
    let ghost from = match parent {
        Some(p) => Some(p as int),
        None => None,
    };
    let ghost all = ids.deep_view();
    assert(all.take(0) =~= Seq::empty());
    for i in 0..ids.len()
        invariant
            all == ids.deep_view(),
            from == (match parent {
                Some(p) => Some(p as int),
                None => None,
            }),
            order.deep_view() == meet(root@, start, from, depth as nat, all.take(i as int)),
    {
        assert(all.take(i + 1).drop_last() =~= all.take(i as int));
        assert(all.take(i + 1).last() == ids[i as int]@);
        if !is_met(root, order, ids[i].as_str()) {
            let ghost before = order.deep_view();
            order.push(Visit { id: ids[i].clone(), depth, parent });
            assert(order.deep_view() =~= before.push(
                VisitView { id: ids[i as int]@, depth: depth as nat, parent: from },
            ));
        }
    }
    assert(all.take(all.len() as int) =~= all);
}

/// Whether a step from `id` leads to a decision that was not met.
fn leads_past(store: &Store, direction: Direction, root: &str, order: &Vec<Visit>, id: &str) -> (r: bool)
    requires
        store.wf(),
    ensures
        r == leads_on(store@, direction, root@, order.deep_view(), id@),
{
    let ids = neighbors(store, id, direction);
    for k in 0..ids.len()
        invariant
            ids.deep_view() == neighbors_of(store@, direction, id@),
            forall|j: int|
                0 <= j < k ==> met(
                    root@,
                    order.deep_view(),
                    #[trigger] neighbors_of(store@, direction, id@)[j],
                ),
    {
        assert(ids.deep_view()[k as int] == ids[k as int]@);
        if !is_met(root, order, ids[k].as_str()) {
            return true;
        }
    }
    false
}

/// Walks breadth first from `root` in one direction, up to `max_depth` steps. Returns
/// what was met, nearest first, and whether the depth stopped the walk.
pub fn reachable(store: &Store, root: &str, max_depth: usize, direction: Direction) -> (r: (
    Vec<Visit>,
    bool,
))
    requires
        store.wf(),
    ensures
        r.0.deep_view() == walk_order(store@, direction, root@, max_depth as nat),
        r.1 == walk_cut(store@, direction, root@, max_depth as nat),
{
    let ghost log = store@;
    let mut order: Vec<Visit> = Vec::new();
    assert(order.deep_view() =~= Seq::empty());
    if max_depth == 0 {
        let cut = leads_past(store, direction, root, &order, root);
        return (order, cut);
    }
    let near = neighbors(store, root, direction);
    meet_all(root, &mut order, None, 1, &near);
    let mut depth: usize = 1;
    let mut lo: usize = 0;
    while depth < max_depth && lo < order.len()
        invariant
            store.wf(),
            log == store@,
            1 <= depth <= max_depth,
            lo <= order.len(),
            walk_to(log, direction, root@, depth as nat) == (order.deep_view(), lo as int),
        decreases max_depth - depth,
    {
        let hi: usize = order.len();
        let ghost start = order.deep_view();
        for i in lo..hi
            invariant
                store.wf(),
                log == store@,
                depth < max_depth,
                lo <= hi,
                hi == start.len(),
                hi <= order.len(),
                forall|j: int| 0 <= j < hi ==> order.deep_view()[j] == start[j],
                order.deep_view() == level(log, direction, root@, start, lo as int, i as int, (depth + 1) as nat),
        {
            assert(order.deep_view()[i as int].id == order[i as int].id@);
            let ids = neighbors(store, order[i].id.as_str(), direction);
            meet_all(root, &mut order, Some(i), depth + 1, &ids);
            proof {
                level_extends(log, direction, root@, start, lo as int, i + 1, (depth + 1) as nat);
            }
        }
        depth = depth + 1;
        lo = hi;
    }
    let ghost reached = order.deep_view();
    proof {
        if depth < max_depth {
            walk_settles(log, direction, root@, depth as nat, max_depth as nat);
        }
    }
    for i in lo..order.len()
        invariant
            store.wf(),
            log == store@,
            reached == order.deep_view(),
            max_depth > 0,
            walk_to(log, direction, root@, max_depth as nat) == (reached, lo as int),
            forall|j: int|
                lo <= j < i ==> !leads_on(log, direction, root@, reached, (#[trigger] reached[j]).id),
    {
        assert(reached[i as int].id == order[i as int].id@);
        if leads_past(store, direction, root, &order, order[i].id.as_str()) {
            return (order, true);
        }
    }
    (order, false)
}

// ---- The budget -------------------------------------------------------------

/// A shared character budget.
#[derive(Debug, PartialEq, Eq)]
pub struct Purse {
    pub remaining: usize,
    pub unbounded: bool,
}

impl Purse {
    /// A purse that holds `budget`; 0 means unbounded.
    pub fn new(budget: usize) -> (r: Self)
        ensures
            r.remaining == budget,
            r.unbounded == (budget == 0),
    {
        Purse { remaining: budget, unbounded: budget == 0 }
    }

    /// Charges `cost`, or reports that the budget is spent.
    pub fn take(&mut self, cost: usize) -> (r: bool)
        ensures
            r == (old(self).unbounded || cost <= old(self).remaining),
            final(self).unbounded == old(self).unbounded,
            final(self).remaining == left_after(old(self).remaining as nat, old(self).unbounded, cost as nat),
    {
        if self.unbounded {
            return true;
        }
        if cost > self.remaining {
            self.remaining = 0;
            return false;
        }
        self.remaining = self.remaining - cost;
        true
    }
}

/// What is left in a purse once `cost` is charged.
pub open spec fn left_after(remaining: nat, unbounded: bool, cost: nat) -> nat {
    if unbounded {
        remaining
    } else if cost > remaining {
        0
    } else {
        (remaining - cost) as nat
    }
}

/// What a purse pays for among the first `n` decisions of a walk, in order: the row of
/// each that is paid for, and what is left. One that the log does not have gets no row.
pub open spec fn paid(
    log: Log,
    order: Seq<VisitView>,
    width: nat,
    purse: nat,
    unbounded: bool,
    n: int,
) -> (Seq<Option<CompactRowView>>, nat)
    decreases n,
{
    if n <= 0 {
        (Seq::empty(), purse)
    } else {
        let (rows, left) = paid(log, order, width, purse, unbounded, n - 1);
        let id = order[n - 1].id;
        match lookup(log.decisions, id) {
            None => (rows.push(None), left),
            Some(d) => {
                let row = row_of(d, log.is_superseded(id), width);
                (
                    rows.push(
                        if unbounded || cost_of(row) <= left {
                            Some(row)
                        } else {
                            None
                        },
                    ),
                    left_after(left, unbounded, cost_of(row)),
                )
            },
        }
    }
}

/// How many of the first `n` rows are missing.
pub open spec fn missing(rows: Seq<Option<CompactRowView>>, n: int) -> nat
    decreases n,
{
    if n <= 0 {
        0
    } else {
        missing(rows, n - 1) + (if rows[n - 1] is None {
            1nat
        } else {
            0nat
        })
    }
}

/// The nodes from position `from` on that hang under `parent` and have a row, each with
/// what hangs under it.
pub open spec fn branches(
    order: Seq<VisitView>,
    rows: Seq<Option<CompactRowView>>,
    parent: Option<int>,
    from: int,
) -> Seq<TraceNodeView>
    decreases order.len() - from,
{
    if from < 0 || from >= order.len() {
        Seq::empty()
    } else if order[from].parent == parent && rows[from] is Some {
        seq![
            TraceNodeView {
                row: rows[from]->0,
                depth: order[from].depth,
                edges: branches(order, rows, Some(from), from + 1),
            },
        ] + branches(order, rows, parent, from + 1)
    } else {
        branches(order, rows, parent, from + 1)
    }
}

/// Attaches the rows beneath `parent`, recursively. A node without a row takes its
/// whole branch with it.
fn assemble(order: &Vec<Visit>, rows: &Vec<Option<CompactRow>>, parent: Option<usize>, from: usize) -> (r:
    Vec<TraceNode>)
    requires
        rows.len() == order.len(),
        from <= order.len(),
    ensures
        forest(r@) == branches(
            order.deep_view(),
            rows.deep_view(),
            match parent {
                Some(p) => Some(p as int),
                None => None,
            },
            from as int,
        ),
    decreases order.len() - from,
{
    let ghost o = order.deep_view();
    let ghost s = rows.deep_view();
    let ghost above = match parent {
        Some(p) => Some(p as int),
        None => None,
    };
    let mut out: Vec<TraceNode> = Vec::new();
    let mut j: usize = from;
    assert(forest(out@) + branches(o, s, above, j as int) =~= branches(o, s, above, from as int));
    while j < order.len()
        invariant
            from <= j <= order.len(),
            rows.len() == order.len(),
            o == order.deep_view(),
            s == rows.deep_view(),
            above == (match parent {
                Some(p) => Some(p as int),
                None => None,
            }),
            forest(out@) + branches(o, s, above, j as int) == branches(o, s, above, from as int),
        decreases order.len() - j,
    {
        let ghost before = forest(out@);
        assert(o[j as int] == order[j as int].deep_view());
        assert(s[j as int] == rows[j as int].deep_view());
        let under = match (order[j].parent, parent) {
            (Some(a), Some(b)) => a == b,
            (None, None) => true,
            _ => false,
        };
        assert(under == (o[j as int].parent == above));
        if under {
            if let Some(row) = &rows[j] {
                let edges = assemble(order, rows, Some(j), j + 1);
                let node = TraceNode { row: row.clone(), depth: order[j].depth, edges };
                assert(node.tree().edges =~= forest(edges@));
                out.push(node);
                assert(forest(out@) =~= before.push(node.tree()));
                assert(before.push(node.tree()) + branches(o, s, above, j + 1) =~= before + branches(
                    o,
                    s,
                    above,
                    j as int,
                ));
            }
        }
        j = j + 1;
    }
    assert(forest(out@) =~= forest(out@) + branches(o, s, above, j as int));
    out
}

/// Turns a walk into nested nodes, spending the purse nearest the root first. Returns
/// the nodes and how many decisions were left out.
pub fn materialize(store: &Store, order: &Vec<Visit>, width: usize, purse: &mut Purse) -> (r: (
    Vec<TraceNode>,
    usize,
))
    requires
        store.wf(),
        width <= SUMMARY_MAX,
    ensures
        ({
            let o = order.deep_view();
            let (rows, left) = paid(
                store@,
                o,
                width as nat,
                old(purse).remaining as nat,
                old(purse).unbounded,
                o.len() as int,
            );
            &&& forest(r.0@) == branches(o, rows, None, 0)
            &&& r.1 == missing(rows, o.len() as int)
            &&& final(purse).remaining == left
            &&& final(purse).unbounded == old(purse).unbounded
        }),
{
    let ghost log = store@;
    let ghost o = order.deep_view();
    let ghost start = purse.remaining as nat;
    let ghost unbounded = purse.unbounded;
    let superseded = store.superseded_ids();
    let mut rows: Vec<Option<CompactRow>> = Vec::new();
    let mut elided: usize = 0;
    assert(rows.deep_view() =~= Seq::empty());
    for i in 0..order.len()
        invariant
            store.wf(),
            log == store@,
            o == order.deep_view(),
            width <= SUMMARY_MAX,
            forall|id: Seq<char>| #[trigger]
                superseded.deep_view().contains(id) <==> log.is_superseded(id),
            purse.unbounded == unbounded,
            rows.len() == i,
            (rows.deep_view(), purse.remaining as nat) == paid(log, o, width as nat, start, unbounded, i as int),
            elided <= i,
            elided == missing(rows.deep_view(), i as int),
    {
        let ghost before = rows.deep_view();
        assert(o[i as int].id == order[i as int].id@);
        let row = match store.get_decision(order[i].id.as_str()) {
            None => None,
            Some(d) => {
                proof {
                    summary_is_short(d@.rationale, width as nat);
                }
                let row = row_from_at(&d, listed(&superseded, order[i].id.as_str()), width);
                if purse.take(row_cost(&row)) {
                    Some(row)
                } else {
                    None
                }
            },
        };
        if row.is_none() {
            elided = elided + 1;
        }
        let ghost v = row.deep_view();
        rows.push(row);
        assert(rows.deep_view() =~= before.push(v));
        proof {
            missing_of_prefix(before, rows.deep_view(), i as int);
        }
    }
    (assemble(order, &rows, None, 0), elided)
}

proof fn missing_of_prefix(a: Seq<Option<CompactRowView>>, b: Seq<Option<CompactRowView>>, n: int)
    requires
        n <= a.len(),
        n <= b.len(),
        forall|i: int| 0 <= i < n ==> a[i] == b[i],
    ensures
        missing(a, n) == missing(b, n),
    decreases n,
{
    if n > 0 {
        missing_of_prefix(a, b, n - 1);
    }
}

/// Two counts together, as far as a machine number reaches.
pub open spec fn capped(n: nat) -> usize {
    if n <= usize::MAX {
        n as usize
    } else {
        usize::MAX
    }
}

fn sum_capped(a: usize, b: usize) -> (r: usize)
    ensures
        r == capped((a + b) as nat),
{
    if a > usize::MAX - b {
        usize::MAX
    } else {
        a + b
    }
}

/// What the row of the nearest decision costs that the log has, from position `from` on;
/// nothing where it has none.
pub open spec fn nearest_cost(log: Log, order: Seq<VisitView>, width: nat, from: int) -> nat
    decreases order.len() - from,
{
    if from < 0 || from >= order.len() {
        0
    } else {
        match lookup(log.decisions, order[from].id) {
            Some(d) => cost_of(row_of(d, log.is_superseded(order[from].id), width)),
            None => nearest_cost(log, order, width, from + 1),
        }
    }
}

/// The part of a budget that goes to the causes, where `up` of them and `down` effects
/// were found, and the nearest of each costs `first_up` and `first_down`: in proportion
/// to their number, but such that the nearest of each can be paid for. A budget too small
/// for that goes to the causes first.
pub open spec fn causes_share(budget: nat, up: nat, down: nat, first_up: nat, first_down: nat) -> nat {
    let fair = if up + down == 0 {
        0
    } else {
        (budget * up) / (up + down)
    };
    if first_up + first_down > budget {
        budget
    } else if fair < first_up {
        first_up
    } else if fair > budget - first_down {
        (budget - first_down) as nat
    } else {
        fair as nat
    }
}

/// Finds what the row of the nearest decision of a walk costs.
fn find_nearest_cost(store: &Store, order: &Vec<Visit>, width: usize) -> (r: usize)
    requires
        store.wf(),
        width <= SUMMARY_MAX,
    ensures
        r == nearest_cost(store@, order.deep_view(), width as nat, 0),
{
    let ghost log = store@;
    let ghost o = order.deep_view();
    for i in 0..order.len()
        invariant
            store.wf(),
            log == store@,
            o == order.deep_view(),
            width <= SUMMARY_MAX,
            nearest_cost(log, o, width as nat, 0) == nearest_cost(log, o, width as nat, i as int),
    {
        assert(o[i as int].id == order[i as int].id@);
        if let Some(d) = store.get_decision(order[i].id.as_str()) {
            proof {
                summary_is_short(d@.rationale, width as nat);
            }
            let superseded = listed(&store.superseded_ids(), order[i].id.as_str());
            return row_cost(&row_from_at(&d, superseded, width));
        }
    }
    0
}

/// Divides a budget between causes and effects: the part of the causes.
fn share_of_causes(budget: usize, up: usize, down: usize, first_up: usize, first_down: usize) -> (r: usize)
    ensures
        r == causes_share(budget as nat, up as nat, down as nat, first_up as nat, first_down as nat),
        r <= budget,
{
    if first_up > budget || first_down > budget - first_up {
        return budget;
    }
    let found: u128 = up as u128 + down as u128;
    let fair: usize = if found == 0 {
        0
    } else {
        proof {
            assert(budget as int * up as int <= 0xffff_ffff_ffff_ffff * 0xffff_ffff_ffff_ffff)
                by (nonlinear_arith)
                requires
                    0 <= budget <= 0xffff_ffff_ffff_ffff,
                    0 <= up <= 0xffff_ffff_ffff_ffff,
            ;
            assert(0 <= budget as int * up as int) by (nonlinear_arith)
                requires
                    0 <= budget,
                    0 <= up,
            ;
            assert((budget as int * up as int) / found as int <= budget) by (nonlinear_arith)
                requires
                    0 <= budget,
                    0 <= up <= found,
                    found > 0,
            ;
        }
        let part: u128 = (budget as u128 * up as u128) / found;
        part as usize
    };
    if fair < first_up {
        first_up
    } else if fair > budget - first_down {
        budget - first_down
    } else {
        fair
    }
}

/// What the budget pays for in both directions: causes from their share, then effects
/// from the rest and what the causes left.
pub open spec fn trace_rows(log: Log, id: Seq<char>, depth: nat, budget: nat) -> (
    Seq<Option<CompactRowView>>,
    Seq<Option<CompactRowView>>,
) {
    let up = walk_order(log, Direction::Up, id, depth);
    let down = walk_order(log, Direction::Down, id, depth);
    let width = width_for(budget, up.len() + down.len());
    let share = causes_share(
        budget,
        up.len(),
        down.len(),
        nearest_cost(log, up, width, 0),
        nearest_cost(log, down, width, 0),
    );
    let (causes, left) = paid(log, up, width, share, budget == 0, up.len() as int);
    let (effects, _) = paid(
        log,
        down,
        width,
        (budget - share + left) as nat,
        budget == 0,
        down.len() as int,
    );
    (causes, effects)
}

/// Walks the causal graph around a decision.
pub fn run(store: &Store, args: &TraceArgs) -> (r: Result<TraceEnvelope, AppError>)
    requires
        store.wf(),
    ensures
        match lookup(store@.decisions, args.id@) {
            None => r matches Err(e) && e@ == failure(
                "decision_not_found"@,
                "no decision with id "@ + args.id@,
            ),
            Some(d) => r matches Ok(reply) && ({
                let depth = args.depth as nat;
                let up = walk_order(store@, Direction::Up, args.id@, depth);
                let down = walk_order(store@, Direction::Down, args.id@, depth);
                let (causes, effects) = trace_rows(store@, args.id@, depth, args.budget as nat);
                &&& reply.query.kind@ == "trace"@
                &&& reply.query.id@ == args.id@
                &&& reply.query.depth == args.depth
                &&& reply.query.budget == args.budget
                &&& reply.root@ == row_of(d, store@.is_superseded(args.id@), SUMMARY_MAX as nat)
                &&& forest(reply.upstream@) == branches(up, causes, None, 0)
                &&& forest(reply.downstream@) == branches(down, effects, None, 0)
                &&& reply.elided == capped(
                    missing(causes, up.len() as int) + missing(effects, down.len() as int),
                )
                &&& reply.truncated == (reply.elided > 0 || walk_cut(
                    store@,
                    Direction::Up,
                    args.id@,
                    depth,
                ) || walk_cut(store@, Direction::Down, args.id@, depth))
            }),
        },
{
    let root = match store.get_decision(args.id.as_str()) {
        Some(d) => d,
        None => {
            let message = text::cat("no decision with id ", args.id.as_str());
            return Err(AppError::new("decision_not_found", message.as_str()));
        },
    };
    let superseded = store.superseded_ids();
    let (up, up_cut) = reachable(store, args.id.as_str(), args.depth, Direction::Up);
    let (down, down_cut) = reachable(store, args.id.as_str(), args.depth, Direction::Down);
    let total: usize = sum_capped(up.len(), down.len());
    let width: usize = adaptive_width(args.budget, total);
    proof {
        let n = (up@.len() + down@.len()) as nat;
        if n > usize::MAX && args.budget > 0 {
            assert(args.budget as int / total as int <= 1) by (nonlinear_arith)
                requires
                    total == usize::MAX,
                    0 <= args.budget <= usize::MAX,
            ;
            assert(args.budget as int / n as int == 0) by (nonlinear_arith)
                requires
                    0 <= args.budget < n,
            ;
        }
        assert(width as nat == width_for(args.budget as nat, n));
        assert(up.deep_view().len() == up@.len());
        assert(down.deep_view().len() == down@.len());
    }
    let share: usize = share_of_causes(
        args.budget,
        up.len(),
        down.len(),
        find_nearest_cost(store, &up, width),
        find_nearest_cost(store, &down, width),
    );
    let mut purse = Purse::new(args.budget);
    purse.remaining = share;
    let (upstream, up_elided) = materialize(store, &up, width, &mut purse);
    proof {
        paid_keeps_purse(
            store@,
            up.deep_view(),
            width as nat,
            share as nat,
            args.budget == 0,
            up.deep_view().len() as int,
        );
    }
    purse.remaining = args.budget - share + purse.remaining;
    let (downstream, down_elided) = materialize(store, &down, width, &mut purse);
    let elided: usize = sum_capped(up_elided, down_elided);
    Ok(
        TraceEnvelope {
            query: TraceDesc {
                kind: "trace",
                id: args.id.clone(),
                depth: args.depth,
                budget: args.budget,
            },
            root: row_from(&root, listed(&superseded, args.id.as_str())),
            upstream,
            downstream,
            truncated: elided > 0 || up_cut || down_cut,
            elided,
        },
    )
}

// ---- Laws -------------------------------------------------------------------

/// What holds of every walk: each decision is met once, and not the root; each was
/// reached from the root or from one met earlier, by one step, and lies one step
/// further.
pub open spec fn well_walked(log: Log, direction: Direction, root: Seq<char>, order: Seq<VisitView>) -> bool {
    &&& forall|i: int| 0 <= i < order.len() ==> (#[trigger] order[i]).id != root
    &&& forall|i: int, j: int|
        0 <= i < j < order.len() ==> (#[trigger] order[i]).id != (#[trigger] order[j]).id
    &&& forall|i: int|
        0 <= i < order.len() ==> match (#[trigger] order[i]).parent {
            Some(p) => 0 <= p < i && order[i].depth == order[p].depth + 1 && neighbors_of(
                log,
                direction,
                order[p].id,
            ).contains(order[i].id),
            None => order[i].depth == 1 && neighbors_of(log, direction, root).contains(order[i].id),
        }
}

/// A step from `parent` at this depth.
spec fn is_step(
    log: Log,
    direction: Direction,
    root: Seq<char>,
    order: Seq<VisitView>,
    parent: Option<int>,
    depth: nat,
    ids: Seq<Seq<char>>,
) -> bool {
    match parent {
        Some(p) => 0 <= p < order.len() && depth == order[p].depth + 1 && ids == neighbors_of(
            log,
            direction,
            order[p].id,
        ),
        None => depth == 1 && ids == neighbors_of(log, direction, root),
    }
}

proof fn meet_well_walked(
    log: Log,
    direction: Direction,
    root: Seq<char>,
    order: Seq<VisitView>,
    parent: Option<int>,
    depth: nat,
    ids: Seq<Seq<char>>,
    n: int,
)
    requires
        well_walked(log, direction, root, order),
        is_step(log, direction, root, order, parent, depth, ids),
        0 <= n <= ids.len(),
    ensures
        well_walked(log, direction, root, meet(root, order, parent, depth, ids.take(n))),
        forall|i: int|
            order.len() <= i < meet(root, order, parent, depth, ids.take(n)).len() ==> (
            #[trigger] meet(root, order, parent, depth, ids.take(n))[i]).depth == depth,
        forall|k: int|
            0 <= k < n ==> met(root, meet(root, order, parent, depth, ids.take(n)), #[trigger] ids[k]),
    decreases n,
{
    let now = meet(root, order, parent, depth, ids.take(n));
    meet_extends(root, order, parent, depth, ids.take(n));
    if n > 0 {
        meet_well_walked(log, direction, root, order, parent, depth, ids, n - 1);
        let before = meet(root, order, parent, depth, ids.take(n - 1));
        meet_extends(root, order, parent, depth, ids.take(n - 1));
        assert(ids.take(n).drop_last() =~= ids.take(n - 1));
        let id = ids[n - 1];
        assert(ids.take(n).last() == id);
        assert(ids.contains(id));
        if !met(root, before, id) {
            assert(now == before.push(VisitView { id, depth, parent }));
            assert forall|i: int, j: int| 0 <= i < j < now.len() implies (#[trigger] now[i]).id != (
            #[trigger] now[j]).id by {
                if j == before.len() {
                    assert(before[i].id != id);
                } else {
                    assert(before[i].id != before[j].id);
                }
            }
            assert forall|i: int| 0 <= i < now.len() implies match (#[trigger] now[i]).parent {
                Some(p) => 0 <= p < i && now[i].depth == now[p].depth + 1 && neighbors_of(
                    log,
                    direction,
                    now[p].id,
                ).contains(now[i].id),
                None => now[i].depth == 1 && neighbors_of(log, direction, root).contains(now[i].id),
            } by {
                if i < before.len() {
                    assert(now[i] == before[i]);
                }
            }
            assert(now[before.len() as int].id == id);
        }
        assert forall|k: int| 0 <= k < n implies met(root, now, #[trigger] ids[k]) by {
            if k < n - 1 {
                assert(met(root, before, ids[k]));
                if ids[k] != root {
                    let i = choose|i: int| 0 <= i < before.len() && (#[trigger] before[i]).id == ids[k];
                    assert(now[i].id == ids[k]);
                }
            }
        }
    } else {
        assert(ids.take(0) =~= Seq::empty());
    }
}

/// What is met stays met.
proof fn met_stays(root: Seq<char>, a: Seq<VisitView>, b: Seq<VisitView>, id: Seq<char>)
    requires
        met(root, a, id),
        a.len() <= b.len(),
        forall|i: int| 0 <= i < a.len() ==> a[i] == b[i],
    ensures
        met(root, b, id),
{
    if id != root {
        let i = choose|i: int| 0 <= i < a.len() && (#[trigger] a[i]).id == id;
        assert(b[i].id == id);
    }
}

/// The walk has followed the decisions before `lo` one step further.
pub open spec fn followed(
    log: Log,
    direction: Direction,
    root: Seq<char>,
    order: Seq<VisitView>,
    lo: int,
) -> bool {
    forall|i: int, k: int|
        0 <= i < lo && 0 <= k < neighbors_of(log, direction, order[i].id).len() ==> met(
            root,
            order,
            #[trigger] neighbors_of(log, direction, (#[trigger] order[i]).id)[k],
        )
}

proof fn level_well_walked(
    log: Log,
    direction: Direction,
    root: Seq<char>,
    order: Seq<VisitView>,
    lo: int,
    hi: int,
    depth: nat,
)
    requires
        well_walked(log, direction, root, order),
        0 <= lo <= hi <= order.len(),
        forall|i: int| lo <= i < order.len() ==> (#[trigger] order[i]).depth + 1 == depth,
        followed(log, direction, root, order, lo),
    ensures
        ({
            let now = level(log, direction, root, order, lo, hi, depth);
            &&& well_walked(log, direction, root, now)
            &&& forall|i: int| order.len() <= i < now.len() ==> (#[trigger] now[i]).depth == depth
            &&& followed(log, direction, root, now, hi)
        }),
    decreases hi - lo,
{
    let now = level(log, direction, root, order, lo, hi, depth);
    if hi > lo {
        level_well_walked(log, direction, root, order, lo, hi - 1, depth);
        level_extends(log, direction, root, order, lo, hi - 1, depth);
        let before = level(log, direction, root, order, lo, hi - 1, depth);
        let ids = neighbors_of(log, direction, order[hi - 1].id);
        assert(before[hi - 1] == order[hi - 1]);
        meet_well_walked(log, direction, root, before, Some(hi - 1), depth, ids, ids.len() as int);
        meet_extends(root, before, Some(hi - 1), depth, ids);
        assert(ids.take(ids.len() as int) =~= ids);
        assert forall|i: int| order.len() <= i < now.len() implies (#[trigger] now[i]).depth == depth by {
            if i < before.len() {
                assert(now[i] == before[i]);
            }
        }
        assert forall|i: int, k: int|
            0 <= i < hi && 0 <= k < neighbors_of(log, direction, now[i].id).len() implies met(
            root,
            now,
            #[trigger] neighbors_of(log, direction, (#[trigger] now[i]).id)[k],
        ) by {
            assert(now[i] == before[i]);
            if i < hi - 1 {
                let id = neighbors_of(log, direction, before[i].id)[k];
                assert(met(root, before, id));
                met_stays(root, before, now, id);
            } else {
                assert(met(root, now, ids[k]));
            }
        }
    }
}

/// A walk meets each decision once, nearest first, and every decision it meets before
/// the last level has been followed: so nothing within the depth is missed, and
/// cycles end.
pub proof fn walk_is_well_walked(log: Log, direction: Direction, root: Seq<char>, depth: nat)
    ensures
        ({
            let (order, lo) = walk_to(log, direction, root, depth);
            &&& well_walked(log, direction, root, order)
            &&& 0 <= lo <= order.len()
            &&& followed(log, direction, root, order, lo)
            &&& forall|i: int| lo <= i < order.len() ==> (#[trigger] order[i]).depth == depth
            &&& forall|i: int| 0 <= i < lo ==> (#[trigger] order[i]).depth < depth
            &&& depth > 0 ==> forall|k: int|
                0 <= k < neighbors_of(log, direction, root).len() ==> met(
                    root,
                    order,
                    #[trigger] neighbors_of(log, direction, root)[k],
                )
        }),
    decreases depth,
{
    if depth == 0 {
    } else if depth == 1 {
        let ids = neighbors_of(log, direction, root);
        meet_well_walked(log, direction, root, Seq::empty(), None, 1, ids, ids.len() as int);
        assert(ids.take(ids.len() as int) =~= ids);
    } else {
        walk_is_well_walked(log, direction, root, (depth - 1) as nat);
        let (order, lo) = walk_to(log, direction, root, (depth - 1) as nat);
        level_well_walked(log, direction, root, order, lo, order.len() as int, depth);
        level_extends(log, direction, root, order, lo, order.len() as int, depth);
        let now = walk_order(log, direction, root, depth);
        assert forall|k: int| 0 <= k < neighbors_of(log, direction, root).len() implies met(
            root,
            now,
            #[trigger] neighbors_of(log, direction, root)[k],
        ) by {
            met_stays(root, order, now, neighbors_of(log, direction, root)[k]);
        }
        assert forall|i: int| 0 <= i < order.len() implies (#[trigger] now[i]).depth < depth by {
            assert(now[i] == order[i]);
        }
    }
}

proof fn meet_grows(
    root: Seq<char>,
    order: Seq<VisitView>,
    parent: Option<int>,
    depth: nat,
    ids: Seq<Seq<char>>,
)
    ensures
        meet(root, order, parent, depth, ids).len() > order.len() <==> exists|k: int|
            0 <= k < ids.len() && !met(root, order, #[trigger] ids[k]),
    decreases ids.len(),
{
    if ids.len() > 0 {
        let front = ids.drop_last();
        meet_grows(root, order, parent, depth, front);
        meet_extends(root, order, parent, depth, front);
        let so_far = meet(root, order, parent, depth, front);
        assert(ids[ids.len() - 1] == ids.last());
        if so_far.len() > order.len() {
            let k = choose|k: int| 0 <= k < front.len() && !met(root, order, #[trigger] front[k]);
            assert(ids[k] == front[k]);
        } else {
            assert(so_far =~= order);
            assert forall|k: int| 0 <= k < front.len() implies met(root, order, #[trigger] ids[k]) by {
                assert(ids[k] == front[k]);
            }
        }
    }
}

proof fn level_grows(
    log: Log,
    direction: Direction,
    root: Seq<char>,
    order: Seq<VisitView>,
    lo: int,
    hi: int,
    depth: nat,
)
    requires
        0 <= lo,
        hi <= order.len(),
    ensures
        level(log, direction, root, order, lo, hi, depth).len() > order.len() <==> exists|i: int|
            lo <= i < hi && leads_on(log, direction, root, order, (#[trigger] order[i]).id),
    decreases hi - lo,
{
    if lo < hi {
        level_grows(log, direction, root, order, lo, hi - 1, depth);
        level_extends(log, direction, root, order, lo, hi - 1, depth);
        let so_far = level(log, direction, root, order, lo, hi - 1, depth);
        let ids = neighbors_of(log, direction, order[hi - 1].id);
        meet_extends(root, so_far, Some(hi - 1), depth, ids);
        if so_far.len() > order.len() {
            let i = choose|i: int|
                lo <= i < hi - 1 && leads_on(log, direction, root, order, (#[trigger] order[i]).id);
            assert(lo <= i < hi);
        } else {
            assert(so_far =~= order);
            meet_grows(root, order, Some(hi - 1), depth, ids);
            assert(leads_on(log, direction, root, order, order[hi - 1].id) <==> meet(
                root,
                order,
                Some(hi - 1),
                depth,
                ids,
            ).len() > order.len());
        }
    }
}

/// A walk is cut where a step more would show something more, and nowhere else.
pub proof fn cut_hides_something(log: Log, direction: Direction, root: Seq<char>, depth: nat)
    ensures
        walk_cut(log, direction, root, depth) <==> walk_order(log, direction, root, depth + 1).len()
            > walk_order(log, direction, root, depth).len(),
{
    let (order, lo) = walk_to(log, direction, root, depth);
    if depth == 0 {
        meet_grows(root, Seq::empty(), None, 1, neighbors_of(log, direction, root));
        assert(order =~= Seq::empty());
    } else {
        walk_is_well_walked(log, direction, root, depth);
        level_grows(log, direction, root, order, lo, order.len() as int, depth + 1);
    }
}

/// A chain of steps from the root: each decision is one step from the one before.
pub open spec fn is_chain(log: Log, direction: Direction, root: Seq<char>, chain: Seq<Seq<char>>) -> bool {
    chain.len() > 0 && chain[0] == root && forall|i: int, j: int|
        #![trigger chain[i], chain[j]]
        0 <= i && j == i + 1 && j < chain.len() ==> neighbors_of(log, direction, chain[i]).contains(chain[j])
}

/// Nothing within the depth is missed: whatever a chain of at most `depth` steps leads
/// to is met, or is the root.
pub proof fn walk_reaches_all(
    log: Log,
    direction: Direction,
    root: Seq<char>,
    depth: nat,
    chain: Seq<Seq<char>>,
)
    requires
        is_chain(log, direction, root, chain),
        chain.len() <= depth + 1,
    ensures
        met(root, walk_order(log, direction, root, depth), chain.last()),
        chain.last() != root ==> exists|i: int|
            0 <= i < walk_order(log, direction, root, depth).len() && (#[trigger] walk_order(
                log,
                direction,
                root,
                depth,
            )[i]).id == chain.last() && walk_order(log, direction, root, depth)[i].depth < chain.len(),
{
    if chain.last() != root {
        walk_reaches_within(log, direction, root, depth, chain);
    }
}

/// What is met within fewer steps is met at that depth too.
proof fn walk_grows(log: Log, direction: Direction, root: Seq<char>, depth: nat, further: nat)
    requires
        depth <= further,
    ensures
        walk_order(log, direction, root, depth).len() <= walk_order(log, direction, root, further).len(),
        forall|i: int|
            0 <= i < walk_order(log, direction, root, depth).len() ==> walk_order(
                log,
                direction,
                root,
                depth,
            )[i] == walk_order(log, direction, root, further)[i],
    decreases further,
{
    if depth < further {
        walk_grows(log, direction, root, depth, (further - 1) as nat);
        let (order, lo) = walk_to(log, direction, root, (further - 1) as nat);
        if further > 1 {
            level_extends(log, direction, root, order, lo, order.len() as int, further);
        }
    }
}

proof fn walk_reaches_within(
    log: Log,
    direction: Direction,
    root: Seq<char>,
    depth: nat,
    chain: Seq<Seq<char>>,
)
    requires
        is_chain(log, direction, root, chain),
        1 < chain.len() <= depth + 1,
        chain.last() != root,
    ensures
        exists|i: int|
            0 <= i < walk_order(log, direction, root, depth).len() && (#[trigger] walk_order(
                log,
                direction,
                root,
                depth,
            )[i]).id == chain.last() && walk_order(log, direction, root, depth)[i].depth < chain.len(),
    decreases chain.len(),
{
    // Within as many steps as the chain has.
    let steps = (chain.len() - 1) as nat;
    let near = walk_order(log, direction, root, steps);
    let order = walk_order(log, direction, root, depth);
    walk_is_well_walked(log, direction, root, steps);
    walk_grows(log, direction, root, steps, depth);
    let front = chain.drop_last();
    let from = front.last();
    let m = chain.len() - 2;
    assert(neighbors_of(log, direction, chain[m]).contains(chain[m + 1]));
    let ids = neighbors_of(log, direction, from);
    let k = ids.index_of(chain.last());
    assert(met(root, near, chain.last())) by {
        if from == root {
            assert(met(root, near, ids[k]));
        } else {
            assert forall|i: int| 0 <= i < front.len() implies #[trigger] front[i] == chain[i] by {}
            walk_reaches_within(log, direction, root, steps, front);
            let i = choose|i: int|
                0 <= i < near.len() && (#[trigger] near[i]).id == from && near[i].depth < front.len();
            let (o, lo) = walk_to(log, direction, root, steps);
            assert(i < lo);
            assert(met(root, near, neighbors_of(log, direction, near[i].id)[k]));
        }
    }
    let i = choose|i: int| 0 <= i < near.len() && (#[trigger] near[i]).id == chain.last();
    assert(order[i] == near[i]);
    assert(near[i].depth <= steps);
}

/// A cut takes whole branches: a decision that is shown hangs under one that is shown.
pub proof fn no_orphans(
    log: Log,
    direction: Direction,
    root: Seq<char>,
    depth: nat,
    width: nat,
    purse: nat,
    unbounded: bool,
    i: int,
)
    requires
        log.wf(),
        0 <= i < walk_order(log, direction, root, depth).len(),
    ensures
        ({
            let order = walk_order(log, direction, root, depth);
            let rows = paid(log, order, width, purse, unbounded, order.len() as int).0;
            rows.len() == order.len() && (rows[i] is Some && order[i].parent is Some ==> rows[order[i].parent->0] is Some)
        }),
{
    let order = walk_order(log, direction, root, depth);
    walk_is_well_walked(log, direction, root, depth);
    let rows = paid(log, order, width, purse, unbounded, order.len() as int).0;
    paid_len(log, order, width, purse, unbounded, order.len() as int);
    if rows[i] is Some && order[i].parent is Some {
        let p = order[i].parent->0;
        let id = order[p].id;
        let ids = neighbors_of(log, direction, id);
        assert(ids.contains(order[i].id));
        assert(holds(log.decisions, id)) by {
            match direction {
                Direction::Up => {
                    lookup_sound(log.decisions, id);
                },
                Direction::Down => {
                    walk_down_is_known(log, root, depth, p);
                },
            }
        }
        lookup_sound(log.decisions, id);
        paid_at(log, order, width, purse, unbounded, p, order.len() as int);
        paid_at(log, order, width, purse, unbounded, i, order.len() as int);
        if rows[p] is None {
            paid_prefix(log, order, width, purse, unbounded, p, i);
        }
    }
}

/// Effects are decisions of the log.
proof fn walk_down_is_known(log: Log, root: Seq<char>, depth: nat, p: int)
    requires
        log.wf(),
        0 <= p < walk_order(log, Direction::Down, root, depth).len(),
    ensures
        holds(log.decisions, walk_order(log, Direction::Down, root, depth)[p].id),
{
    let order = walk_order(log, Direction::Down, root, depth);
    walk_is_well_walked(log, Direction::Down, root, depth);
    let id = order[p].id;
    let from = match order[p].parent {
        Some(q) => order[q].id,
        None => root,
    };
    let effects = log.effects_of(from);
    assert(effects.contains(id));
    let q = |d: StoredDecisionView| d.caused_by.contains(from);
    let ids = ids_where(log.decisions, q);
    selection(log.decisions, q);
    let k = effects.index_of(id);
    assert(ids[ids.len() - 1 - k] == id);
    assert(ids.contains(id));
    lookup_sound(log.decisions, id);
}

/// One entry for each decision.
proof fn paid_len(log: Log, order: Seq<VisitView>, width: nat, purse: nat, unbounded: bool, n: int)
    ensures
        paid(log, order, width, purse, unbounded, n).0.len() == (if n <= 0 {
            0
        } else {
            n
        }),
    decreases n,
{
    if n > 0 {
        paid_len(log, order, width, purse, unbounded, n - 1);
    }
}

/// An entry is settled when it is its turn.
proof fn paid_at(
    log: Log,
    order: Seq<VisitView>,
    width: nat,
    purse: nat,
    unbounded: bool,
    k: int,
    n: int,
)
    requires
        0 <= k < n,
    ensures
        paid(log, order, width, purse, unbounded, n).0[k] == paid(
            log,
            order,
            width,
            purse,
            unbounded,
            k + 1,
        ).0[k],
    decreases n,
{
    paid_len(log, order, width, purse, unbounded, n);
    paid_len(log, order, width, purse, unbounded, n - 1);
    if k < n - 1 {
        paid_at(log, order, width, purse, unbounded, k, n - 1);
    }
}

/// Once a decision of the log could not be paid for, no later one can.
proof fn paid_prefix(
    log: Log,
    order: Seq<VisitView>,
    width: nat,
    purse: nat,
    unbounded: bool,
    p: int,
    i: int,
)
    requires
        0 <= p < i,
        lookup(log.decisions, order[p].id) is Some,
        paid(log, order, width, purse, unbounded, p + 1).0[p] is None,
    ensures
        paid(log, order, width, purse, unbounded, i).1 == 0 && !unbounded,
        paid(log, order, width, purse, unbounded, i + 1).0[i] is None,
    decreases i,
{
    paid_len(log, order, width, purse, unbounded, p);
    paid_len(log, order, width, purse, unbounded, i);
    paid_len(log, order, width, purse, unbounded, i - 1);
    if p < i - 1 {
        paid_prefix(log, order, width, purse, unbounded, p, i - 1);
    }
}

/// Without a budget every decision that the log has is shown.
pub proof fn unbounded_shows_all(log: Log, order: Seq<VisitView>, width: nat, n: int)
    requires
        0 <= n <= order.len(),
        forall|i: int| 0 <= i < order.len() ==> holds(log.decisions, (#[trigger] order[i]).id),
    ensures
        missing(paid(log, order, width, 0, true, n).0, n) == 0,
    decreases n,
{
    if n > 0 {
        unbounded_shows_all(log, order, width, n - 1);
        paid_len(log, order, width, 0, true, n - 1);
        lookup_sound(log.decisions, order[n - 1].id);
        assert(holds(log.decisions, order[n - 1].id));
        missing_of_prefix(
            paid(log, order, width, 0, true, n - 1).0,
            paid(log, order, width, 0, true, n).0,
            n - 1,
        );
    }
}

/// What the first `n` rows cost together.
pub open spec fn spent(rows: Seq<Option<CompactRowView>>, n: int) -> nat
    decreases n,
{
    if n <= 0 {
        0
    } else {
        spent(rows, n - 1) + (match rows[n - 1] {
            Some(row) => cost_of(row),
            None => 0,
        })
    }
}

proof fn spent_of_prefix(a: Seq<Option<CompactRowView>>, b: Seq<Option<CompactRowView>>, n: int)
    requires
        n <= a.len(),
        n <= b.len(),
        forall|i: int| 0 <= i < n ==> a[i] == b[i],
    ensures
        spent(a, n) == spent(b, n),
    decreases n,
{
    if n > 0 {
        spent_of_prefix(a, b, n - 1);
    }
}

/// What was paid and what is left come out of the purse.
proof fn paid_keeps_purse(
    log: Log,
    order: Seq<VisitView>,
    width: nat,
    purse: nat,
    unbounded: bool,
    n: int,
)
    requires
        n >= 0,
    ensures
        ({
            let (rows, left) = paid(log, order, width, purse, unbounded, n);
            &&& left <= purse
            &&& !unbounded ==> spent(rows, n) + left <= purse
        }),
    decreases n,
{
    if n > 0 {
        paid_keeps_purse(log, order, width, purse, unbounded, n - 1);
        paid_len(log, order, width, purse, unbounded, n - 1);
        spent_of_prefix(
            paid(log, order, width, purse, unbounded, n - 1).0,
            paid(log, order, width, purse, unbounded, n).0,
            n - 1,
        );
    }
}

/// The budget is kept: what is shown in both directions costs no more.
pub proof fn budget_is_kept(log: Log, id: Seq<char>, depth: nat, budget: nat)
    requires
        budget > 0,
    ensures
        ({
            let (causes, effects) = trace_rows(log, id, depth, budget);
            spent(causes, causes.len() as int) + spent(effects, effects.len() as int) <= budget
        }),
{
    let up = walk_order(log, Direction::Up, id, depth);
    let down = walk_order(log, Direction::Down, id, depth);
    let width = width_for(budget, up.len() + down.len());
    let first_up = nearest_cost(log, up, width, 0);
    let first_down = nearest_cost(log, down, width, 0);
    let share = causes_share(budget, up.len(), down.len(), first_up, first_down);
    share_is_part(budget, up.len(), down.len(), first_up, first_down);
    let left = paid(log, up, width, share, false, up.len() as int).1;
    let rest = (budget - share + left) as nat;
    paid_len(log, up, width, share, false, up.len() as int);
    paid_keeps_purse(log, up, width, share, false, up.len() as int);
    paid_len(log, down, width, rest, false, down.len() as int);
    paid_keeps_purse(log, down, width, rest, false, down.len() as int);
}

/// The causes get no more than there is, and leave the nearest effect what it costs.
proof fn share_is_part(budget: nat, up: nat, down: nat, first_up: nat, first_down: nat)
    ensures
        causes_share(budget, up, down, first_up, first_down) <= budget,
        first_up + first_down <= budget ==> first_up <= causes_share(
            budget,
            up,
            down,
            first_up,
            first_down,
        ) <= budget - first_down,
{
    if up + down > 0 {
        assert(0 <= (budget * up) / (up + down) <= budget) by (nonlinear_arith)
            requires
                up + down > 0,
                0 <= up,
                0 <= down,
                0 <= budget,
        ;
    }
}

/// The log has a decision that the walk met.
pub open spec fn finds_any(log: Log, order: Seq<VisitView>) -> bool {
    exists|i: int| 0 <= i < order.len() && holds(log.decisions, (#[trigger] order[i]).id)
}

/// A purse that pays for the nearest decision shows it.
proof fn nearest_is_paid(
    log: Log,
    order: Seq<VisitView>,
    width: nat,
    purse: nat,
    unbounded: bool,
    from: int,
)
    requires
        0 <= from <= order.len(),
        paid(log, order, width, purse, unbounded, from).1 == purse,
        unbounded || nearest_cost(log, order, width, from) <= purse,
        exists|i: int| from <= i < order.len() && holds(log.decisions, (#[trigger] order[i]).id),
    ensures
        ({
            let rows = paid(log, order, width, purse, unbounded, order.len() as int).0;
            exists|i: int| 0 <= i < order.len() && (#[trigger] rows[i]) is Some
        }),
    decreases order.len() - from,
{
    let n = order.len() as int;
    lookup_sound(log.decisions, order[from].id);
    paid_len(log, order, width, purse, unbounded, from);
    paid_len(log, order, width, purse, unbounded, n);
    if holds(log.decisions, order[from].id) {
        paid_at(log, order, width, purse, unbounded, from, n);
        assert(paid(log, order, width, purse, unbounded, n).0[from] is Some);
    } else {
        assert(paid(log, order, width, purse, unbounded, from + 1).1 == purse);
        nearest_is_paid(log, order, width, purse, unbounded, from + 1);
    }
}

/// A budget that pays for the nearest decision of each direction leaves something of
/// each, however many more there are of the other.
pub proof fn both_directions_are_shown(log: Log, id: Seq<char>, depth: nat, budget: nat)
    requires
        log.wf(),
        ({
            let up = walk_order(log, Direction::Up, id, depth);
            let down = walk_order(log, Direction::Down, id, depth);
            let width = width_for(budget, up.len() + down.len());
            budget == 0 || nearest_cost(log, up, width, 0) + nearest_cost(log, down, width, 0) <= budget
        }),
    ensures
        ({
            let up = walk_order(log, Direction::Up, id, depth);
            let down = walk_order(log, Direction::Down, id, depth);
            let (causes, effects) = trace_rows(log, id, depth, budget);
            &&& finds_any(log, up) ==> branches(up, causes, None, 0).len() > 0
            &&& finds_any(log, down) ==> branches(down, effects, None, 0).len() > 0
        }),
{
    let up = walk_order(log, Direction::Up, id, depth);
    let down = walk_order(log, Direction::Down, id, depth);
    let width = width_for(budget, up.len() + down.len());
    let first_up = nearest_cost(log, up, width, 0);
    let first_down = nearest_cost(log, down, width, 0);
    let share = causes_share(budget, up.len(), down.len(), first_up, first_down);
    share_is_part(budget, up.len(), down.len(), first_up, first_down);
    let left = paid(log, up, width, share, budget == 0, up.len() as int).1;
    let rest = (budget - share + left) as nat;
    if finds_any(log, up) {
        nearest_is_paid(log, up, width, share, budget == 0, 0);
        shows_what_is_paid(log, Direction::Up, id, depth, width, share, budget == 0);
    }
    if finds_any(log, down) {
        nearest_is_paid(log, down, width, rest, budget == 0, 0);
        shows_what_is_paid(log, Direction::Down, id, depth, width, rest, budget == 0);
    }
}

/// A row that was paid for is shown.
proof fn shows_what_is_paid(
    log: Log,
    direction: Direction,
    root: Seq<char>,
    depth: nat,
    width: nat,
    purse: nat,
    unbounded: bool,
)
    requires
        log.wf(),
        ({
            let order = walk_order(log, direction, root, depth);
            let rows = paid(log, order, width, purse, unbounded, order.len() as int).0;
            exists|i: int| 0 <= i < order.len() && (#[trigger] rows[i]) is Some
        }),
    ensures
        ({
            let order = walk_order(log, direction, root, depth);
            let rows = paid(log, order, width, purse, unbounded, order.len() as int).0;
            branches(order, rows, None, 0).len() > 0
        }),
{
    let order = walk_order(log, direction, root, depth);
    let rows = paid(log, order, width, purse, unbounded, order.len() as int).0;
    shown_and_elided_are_all(log, direction, root, depth, width, purse, unbounded);
    let i = choose|i: int| 0 <= i < order.len() && (#[trigger] rows[i]) is Some;
    missing_at_most(rows, i, order.len() as int);
}

proof fn missing_at_most(rows: Seq<Option<CompactRowView>>, i: int, n: int)
    requires
        0 <= n,
    ensures
        missing(rows, n) <= n,
        0 <= i < n && rows[i] is Some ==> missing(rows, n) < n,
    decreases n,
{
    if n > 0 {
        missing_at_most(rows, i, n - 1);
    }
}

/// How many decisions a node shows: itself and those under it.
pub open spec fn node_size(node: TraceNodeView) -> nat
    decreases node, node.edges.len() + 1,
{
    1 + edges_size(node, node.edges.len() as int)
}

/// How many decisions the first `k` edges of a node show.
pub open spec fn edges_size(node: TraceNodeView, k: int) -> nat
    decreases node, k,
{
    if k <= 0 || k > node.edges.len() {
        0
    } else {
        edges_size(node, k - 1) + node_size(node.edges[k - 1])
    }
}

/// How many decisions the first `k` nodes of a list show.
pub open spec fn forest_size(nodes: Seq<TraceNodeView>, k: int) -> nat
    decreases k,
{
    if k <= 0 || k > nodes.len() {
        0
    } else {
        forest_size(nodes, k - 1) + node_size(nodes[k - 1])
    }
}

/// How many decisions a list of nodes shows.
pub open spec fn shown_in(nodes: Seq<TraceNodeView>) -> nat {
    forest_size(nodes, nodes.len() as int)
}

proof fn edges_are_a_forest(node: TraceNodeView, k: int)
    requires
        0 <= k <= node.edges.len(),
    ensures
        edges_size(node, k) == forest_size(node.edges, k),
    decreases k,
{
    if k > 0 {
        edges_are_a_forest(node, k - 1);
    }
}

proof fn forest_size_prepend(node: TraceNodeView, rest: Seq<TraceNodeView>, k: int)
    requires
        0 <= k <= rest.len(),
    ensures
        forest_size(seq![node] + rest, k + 1) == node_size(node) + forest_size(rest, k),
    decreases k,
{
    let all = seq![node] + rest;
    if k > 0 {
        forest_size_prepend(node, rest, k - 1);
        assert(all[k] == rest[k - 1]);
    } else {
        reveal_with_fuel(forest_size, 2);
        assert(all[0] == node);
    }
}

/// What the branches of the first `k` decisions that are shown hold from `from` on.
spec fn held(order: Seq<VisitView>, rows: Seq<Option<CompactRowView>>, k: int, from: int) -> nat
    decreases k,
{
    if k <= 0 {
        0
    } else {
        held(order, rows, k - 1, from) + (if rows[k - 1] is Some {
            shown_in(branches(order, rows, Some(k - 1), from))
        } else {
            0nat
        })
    }
}

/// The node at `from` belongs to one branch, and takes its own branch with it.
proof fn held_steps(order: Seq<VisitView>, rows: Seq<Option<CompactRowView>>, k: int, from: int)
    requires
        0 <= k <= from < order.len(),
        rows.len() == order.len(),
    ensures
        held(order, rows, k, from) == held(order, rows, k, from + 1) + (if rows[from] is Some && (
        order[from].parent matches Some(p) && 0 <= p < k && rows[p] is Some) {
            1 + shown_in(branches(order, rows, Some(from), from + 1))
        } else {
            0nat
        }),
    decreases k,
{
    if k > 0 {
        held_steps(order, rows, k - 1, from);
        branch_steps(order, rows, Some(k - 1), from);
    }
}

proof fn branch_steps(
    order: Seq<VisitView>,
    rows: Seq<Option<CompactRowView>>,
    parent: Option<int>,
    from: int,
)
    requires
        0 <= from < order.len(),
        rows.len() == order.len(),
    ensures
        shown_in(branches(order, rows, parent, from)) == shown_in(
            branches(order, rows, parent, from + 1),
        ) + (if order[from].parent == parent && rows[from] is Some {
            1 + shown_in(branches(order, rows, Some(from), from + 1))
        } else {
            0nat
        }),
{
    if order[from].parent == parent && rows[from] is Some {
        let node = TraceNodeView {
            row: rows[from]->0,
            depth: order[from].depth,
            edges: branches(order, rows, Some(from), from + 1),
        };
        let rest = branches(order, rows, parent, from + 1);
        forest_size_prepend(node, rest, rest.len() as int);
        edges_are_a_forest(node, node.edges.len() as int);
    }
}

/// How many rows from `from` on are there.
spec fn present(rows: Seq<Option<CompactRowView>>, from: int) -> nat
    decreases rows.len() - from,
{
    if from >= rows.len() {
        0
    } else {
        present(rows, from + 1) + (if rows[from] is Some {
            1nat
        } else {
            0nat
        })
    }
}

proof fn branches_hold_all(order: Seq<VisitView>, rows: Seq<Option<CompactRowView>>, from: int)
    requires
        0 <= from <= order.len(),
        rows.len() == order.len(),
        forall|i: int|
            0 <= i < order.len() && (#[trigger] rows[i]) is Some ==> (order[i].parent matches Some(p) ==> 0
                <= p < i && rows[p] is Some),
    ensures
        shown_in(branches(order, rows, None, from)) + held(order, rows, from, from) == present(rows, from),
    decreases order.len() - from,
{
    if from < order.len() {
        branches_hold_all(order, rows, from + 1);
        branch_steps(order, rows, None, from);
        held_steps(order, rows, from, from);
    } else {
        nothing_held(order, rows, from);
    }
}

proof fn nothing_held(order: Seq<VisitView>, rows: Seq<Option<CompactRowView>>, k: int)
    requires
        k <= order.len(),
    ensures
        held(order, rows, k, order.len() as int) == 0,
    decreases k,
{
    if k > 0 {
        nothing_held(order, rows, k - 1);
    }
}

proof fn present_and_missing(rows: Seq<Option<CompactRowView>>, n: int)
    requires
        0 <= n <= rows.len(),
    ensures
        missing(rows, n) + present(rows, 0) == n + present(rows, n),
    decreases n,
{
    if n > 0 {
        present_and_missing(rows, n - 1);
    }
}

/// What is shown and what is left out are together what was reached: each decision of a walk
/// is shown once or counted once.
pub proof fn shown_and_elided_are_all(
    log: Log,
    direction: Direction,
    root: Seq<char>,
    depth: nat,
    width: nat,
    purse: nat,
    unbounded: bool,
)
    requires
        log.wf(),
    ensures
        ({
            let order = walk_order(log, direction, root, depth);
            let rows = paid(log, order, width, purse, unbounded, order.len() as int).0;
            shown_in(branches(order, rows, None, 0)) + missing(rows, order.len() as int) == order.len()
        }),
{
    let order = walk_order(log, direction, root, depth);
    let n = order.len() as int;
    let rows = paid(log, order, width, purse, unbounded, n).0;
    paid_len(log, order, width, purse, unbounded, n);
    walk_is_well_walked(log, direction, root, depth);
    assert forall|i: int| 0 <= i < order.len() && (#[trigger] rows[i]) is Some implies (
    order[i].parent matches Some(p) ==> 0 <= p < i && rows[p] is Some) by {
        no_orphans(log, direction, root, depth, width, purse, unbounded, i);
    }
    branches_hold_all(order, rows, 0);
    present_and_missing(rows, n);
}

/// The log has a decision `x` that names `y` among its causes.
pub open spec fn names_cause(log: Log, x: Seq<char>, y: Seq<char>) -> bool {
    exists|d: StoredDecisionView| #[trigger] log.decisions.contains(d) && d.id == x && d.caused_by.contains(y)
}

/// A step up leads from a decision to what it names among its causes, and a step down to
/// the decisions that name it, pending or sealed. Of two decisions of the log the second
/// is one step up from the first exactly where the first is one step down from the second.
/// Causes come in the order they were named, effects newest first.
pub proof fn steps_follow_causes(log: Log, x: Seq<char>, y: Seq<char>)
    requires
        log.ordered(),
    ensures
        neighbors_of(log, Direction::Up, x).contains(y) <==> names_cause(log, x, y),
        neighbors_of(log, Direction::Down, x).contains(y) <==> names_cause(log, y, x),
        neighbors_of(log, Direction::Up, x).contains(y) <==> neighbors_of(log, Direction::Down, y).contains(x),
        forall|d: StoredDecisionView| #[trigger]
            log.decisions.contains(d) && d.id == x ==> neighbors_of(log, Direction::Up, x) == d.caused_by,
        newest_first(neighbors_of(log, Direction::Down, x)),
{
    let q = |d: StoredDecisionView| d.caused_by.contains(x);
    query_is_exact(log, q, y);
    let p = |d: StoredDecisionView| d.caused_by.contains(y);
    query_is_exact(log, p, x);
    lookup_sound(log.decisions, x);
    assert forall|d: StoredDecisionView| #[trigger]
        log.decisions.contains(d) && d.id == x implies neighbors_of(log, Direction::Up, x) == d.caused_by by {
        lookup_at(log.decisions, log.decisions.index_of(d));
    }
    if neighbors_of(log, Direction::Up, x).contains(y) {
        let d = lookup(log.decisions, x)->0;
        assert(log.decisions.contains(d) && d.id == x && d.caused_by.contains(y));
    }
    if neighbors_of(log, Direction::Down, x).contains(y) {
        let d = choose|d: StoredDecisionView| #[trigger] log.decisions.contains(d) && d.id == y && q(d);
        assert(d.caused_by.contains(x));
    }
    if names_cause(log, y, x) {
        let d = choose|d: StoredDecisionView| #[trigger]
            log.decisions.contains(d) && d.id == y && d.caused_by.contains(x);
        assert(q(d));
    }
    if names_cause(log, x, y) {
        let d = choose|d: StoredDecisionView| #[trigger]
            log.decisions.contains(d) && d.id == x && d.caused_by.contains(y);
        assert(p(d));
    }
}

/// A node stands for a decision that hangs under the parent and was paid for: it has that
/// row and that depth, and under it hang the nodes of what was reached from there.
pub open spec fn node_stands_for(
    order: Seq<VisitView>,
    rows: Seq<Option<CompactRowView>>,
    parent: Option<int>,
    from: int,
    node: TraceNodeView,
    k: int,
) -> bool {
    &&& from <= k < order.len()
    &&& order[k].parent == parent
    &&& rows[k] == Some(node.row)
    &&& node.depth == order[k].depth
    &&& node.edges == branches(order, rows, Some(k), k + 1)
}

/// The nodes under a parent are those of the decisions that were reached from it and paid
/// for, in the order of the walk, and no others.
pub proof fn nodes_hang_where_reached(
    order: Seq<VisitView>,
    rows: Seq<Option<CompactRowView>>,
    parent: Option<int>,
    from: int,
) -> (at: Seq<int>)
    requires
        0 <= from <= order.len(),
        rows.len() == order.len(),
    ensures
        at.len() == branches(order, rows, parent, from).len(),
        forall|i: int|
            0 <= i < at.len() ==> node_stands_for(
                order,
                rows,
                parent,
                from,
                branches(order, rows, parent, from)[i],
                #[trigger] at[i],
            ),
        forall|i: int, j: int| 0 <= i < j < at.len() ==> #[trigger] at[i] < #[trigger] at[j],
        forall|k: int|
            from <= k < order.len() && (#[trigger] order[k]).parent == parent && rows[k] is Some ==> at.contains(k),
    decreases order.len() - from,
{
    let all = branches(order, rows, parent, from);
    if from >= order.len() {
        Seq::empty()
    } else {
        let rest = nodes_hang_where_reached(order, rows, parent, from + 1);
        let tail = branches(order, rows, parent, from + 1);
        assert forall|i: int| 0 <= i < rest.len() implies node_stands_for(
            order,
            rows,
            parent,
            from,
            tail[i],
            #[trigger] rest[i],
        ) by {}
        if order[from].parent == parent && rows[from] is Some {
            let at = seq![from] + rest;
            assert forall|i: int| 0 <= i < at.len() implies node_stands_for(
                order,
                rows,
                parent,
                from,
                all[i],
                #[trigger] at[i],
            ) by {
                if i > 0 {
                    assert(all[i] == tail[i - 1] && at[i] == rest[i - 1]);
                }
            }
            assert forall|i: int, j: int| 0 <= i < j < at.len() implies #[trigger] at[i] < #[trigger] at[j] by {
                assert(at[j] == rest[j - 1]);
                assert(node_stands_for(order, rows, parent, from + 1, tail[j - 1], rest[j - 1]));
                if i > 0 {
                    assert(at[i] == rest[i - 1]);
                }
            }
            assert forall|k: int|
                from <= k < order.len() && (#[trigger] order[k]).parent == parent && rows[k] is Some implies at.contains(
                k,
            ) by {
                if k == from {
                    assert(at[0] == k);
                } else {
                    assert(at[rest.index_of(k) + 1] == k);
                }
            }
            at
        } else {
            rest
        }
    }
}

/// A row that was paid for tells of the decision that was met there.
pub proof fn paid_rows_tell(
    log: Log,
    order: Seq<VisitView>,
    width: nat,
    purse: nat,
    unbounded: bool,
    i: int,
    n: int,
)
    requires
        log.ordered(),
        0 <= i < n <= order.len(),
    ensures
        paid(log, order, width, purse, unbounded, n).0.len() == n,
        paid(log, order, width, purse, unbounded, n).0[i] matches Some(row) ==> row.id == order[i].id && tells(
            log,
            row,
            width,
        ),
    decreases n,
{
    paid_len(log, order, width, purse, unbounded, n);
    paid_len(log, order, width, purse, unbounded, n - 1);
    if i < n - 1 {
        paid_rows_tell(log, order, width, purse, unbounded, i, n - 1);
    } else {
        lookup_sound(log.decisions, order[i].id);
        if let Some(d) = lookup(log.decisions, order[i].id) {
            row_tells(log, d, width);
        }
    }
}

/// The first decision of the log that is left out costs more than is left: what was shown
/// before it and its own row are over the purse together.
pub proof fn cut_is_forced(log: Log, order: Seq<VisitView>, width: nat, purse: nat, i: int)
    requires
        0 <= i < order.len(),
        paid(log, order, width, purse, false, order.len() as int).0[i] is None,
        lookup(log.decisions, order[i].id) is Some,
        forall|k: int|
            0 <= k < i && lookup(log.decisions, (#[trigger] order[k]).id) is Some ==> paid(
                log,
                order,
                width,
                purse,
                false,
                order.len() as int,
            ).0[k] is Some,
    ensures
        ({
            let rows = paid(log, order, width, purse, false, order.len() as int).0;
            let d = lookup(log.decisions, order[i].id)->0;
            spent(rows, i) + cost_of(row_of(d, log.is_superseded(order[i].id), width)) > purse
        }),
{
    let n = order.len() as int;
    let rows = paid(log, order, width, purse, false, n).0;
    paid_len(log, order, width, purse, false, n);
    let some = paid(log, order, width, purse, false, i);
    paid_len(log, order, width, purse, false, i);
    paid_at(log, order, width, purse, false, i, n);
    assert forall|k: int| 0 <= k < i implies rows[k] == some.0[k] by {
        paid_at(log, order, width, purse, false, k, n);
        paid_at(log, order, width, purse, false, k, i);
    }
    assert forall|k: int| 0 <= k < i && lookup(log.decisions, (#[trigger] order[k]).id) is Some implies some.0[k] is Some by {
        assert(rows[k] == some.0[k]);
    }
    left_is_exact(log, order, width, purse, i);
    spent_of_prefix(rows, some.0, i);
}

proof fn left_is_exact(log: Log, order: Seq<VisitView>, width: nat, purse: nat, n: int)
    requires
        0 <= n <= order.len(),
        forall|k: int|
            0 <= k < n && lookup(log.decisions, (#[trigger] order[k]).id) is Some ==> paid(
                log,
                order,
                width,
                purse,
                false,
                n,
            ).0[k] is Some,
    ensures
        ({
            let (rows, left) = paid(log, order, width, purse, false, n);
            left + spent(rows, n) == purse
        }),
    decreases n,
{
    if n > 0 {
        let (rows, left) = paid(log, order, width, purse, false, n);
        let before = paid(log, order, width, purse, false, n - 1).0;
        paid_len(log, order, width, purse, false, n - 1);
        assert forall|k: int| 0 <= k < n - 1 implies rows[k] == before[k] by {}
        assert forall|k: int| 0 <= k < n - 1 && lookup(log.decisions, (#[trigger] order[k]).id) is Some implies before[k] is Some by {
            assert(rows[k] == before[k]);
        }
        left_is_exact(log, order, width, purse, n - 1);
        spent_of_prefix(rows, before, n - 1);
        assert(lookup(log.decisions, order[n - 1].id) is Some ==> rows[n - 1] is Some);
    }
}

/// The causes get the part of the budget that their number is of all that was found, as
/// long as that leaves each direction its nearest row.
pub proof fn shares_are_fair(budget: nat, up: nat, down: nat, first_up: nat, first_down: nat)
    requires
        up + down > 0,
        first_up + first_down <= budget,
    ensures
        ({
            let share = causes_share(budget, up, down, first_up, first_down);
            &&& first_up <= share <= budget - first_down
            &&& first_up < share ==> share * (up + down) <= budget * up
            &&& share < budget - first_down ==> budget * up < (share + 1) * (up + down)
        }),
{
    let all = (up + down) as int;
    let whole = (budget * up) as int;
    let fair = whole / all;
    share_is_part(budget, up, down, first_up, first_down);
    assert(fair * all <= whole < (fair + 1) * all) by (nonlinear_arith)
        requires
            fair == whole / all,
            all > 0,
            whole >= 0,
    ;
    assert(0 <= whole) by (nonlinear_arith)
        requires
            whole == budget * up,
            0 <= budget,
            0 <= up,
    ;
    let share = causes_share(budget, up, down, first_up, first_down) as int;
    if first_up < share && share <= fair {
        assert(share * all <= fair * all) by (nonlinear_arith)
            requires
                share <= fair,
                all > 0,
        ;
    }
    if share < budget - first_down && fair <= share {
        assert((fair + 1) * all <= (share + 1) * all) by (nonlinear_arith)
            requires
                fair <= share,
                all > 0,
        ;
    }
}

/// A node of a list shows the decision `id`.
pub open spec fn shows(nodes: Seq<TraceNodeView>, id: Seq<char>) -> bool {
    exists|i: int| 0 <= i < nodes.len() && (#[trigger] nodes[i]).row.id == id && nodes[i].depth == 1
}

/// Without a budget, a trace shows every decision of the log that the root names among its
/// causes, and every one that names the root, one step away; pending or sealed.
pub proof fn causes_and_effects_are_shown(log: Log, x: Seq<char>, y: Seq<char>, depth: nat)
    requires
        log.wf(),
        names_cause(log, x, y),
        holds(log.decisions, y),
        x != y,
        depth >= 1,
    ensures
        ({
            let (causes, effects) = trace_rows(log, x, depth, 0);
            shows(branches(walk_order(log, Direction::Up, x, depth), causes, None, 0), y)
        }),
        ({
            let (causes, effects) = trace_rows(log, y, depth, 0);
            shows(branches(walk_order(log, Direction::Down, y, depth), effects, None, 0), x)
        }),
{
    steps_follow_causes(log, x, y);
    steps_follow_causes(log, y, x);
    let d = choose|d: StoredDecisionView| #[trigger]
        log.decisions.contains(d) && d.id == x && d.caused_by.contains(y);
    lookup_at(log.decisions, log.decisions.index_of(d));
    lookup_sound(log.decisions, x);
    one_step_is_shown(log, Direction::Up, x, y, depth, trace_purse(log, x, depth).0, trace_width(log, x, depth));
    one_step_is_shown(log, Direction::Down, y, x, depth, trace_purse(log, y, depth).1, trace_width(log, y, depth));
}

spec fn trace_width(log: Log, id: Seq<char>, depth: nat) -> nat {
    let up = walk_order(log, Direction::Up, id, depth);
    let down = walk_order(log, Direction::Down, id, depth);
    width_for(0, up.len() + down.len())
}

/// What each direction has to spend, without a budget.
spec fn trace_purse(log: Log, id: Seq<char>, depth: nat) -> (nat, nat) {
    let up = walk_order(log, Direction::Up, id, depth);
    let down = walk_order(log, Direction::Down, id, depth);
    let width = trace_width(log, id, depth);
    let share = causes_share(
        0,
        up.len(),
        down.len(),
        nearest_cost(log, up, width, 0),
        nearest_cost(log, down, width, 0),
    );
    let left = paid(log, up, width, share, true, up.len() as int).1;
    (share, (0 - share + left) as nat)
}

proof fn one_step_is_shown(
    log: Log,
    direction: Direction,
    root: Seq<char>,
    id: Seq<char>,
    depth: nat,
    purse: nat,
    width: nat,
)
    requires
        log.wf(),
        neighbors_of(log, direction, root).contains(id),
        lookup(log.decisions, id) is Some,
        root != id,
        depth >= 1,
    ensures
        ({
            let order = walk_order(log, direction, root, depth);
            shows(
                branches(order, paid(log, order, width, purse, true, order.len() as int).0, None, 0),
                id,
            )
        }),
{
    let order = walk_order(log, direction, root, depth);
    let n = order.len() as int;
    let rows = paid(log, order, width, purse, true, n).0;
    let chain = seq![root, id];
    assert(is_chain(log, direction, root, chain)) by {
        assert(chain[0] == root && chain[1] == id);
    }
    assert(chain.last() == id);
    walk_reaches_all(log, direction, root, depth, chain);
    walk_is_well_walked(log, direction, root, depth);
    let i = choose|i: int| 0 <= i < order.len() && (#[trigger] order[i]).id == id && order[i].depth < 2;
    assert(order[i].parent is None && order[i].depth == 1) by {
        if let Some(p) = order[i].parent {
            assert(order[p].depth >= 1);
        }
    }
    paid_len(log, order, width, purse, true, n);
    paid_len(log, order, width, purse, true, i);
    paid_at(log, order, width, purse, true, i, n);
    assert(rows[i] is Some);
    paid_rows_tell(log, order, width, purse, true, i, n);
    let at = nodes_hang_where_reached(order, rows, None, 0);
    let nodes = branches(order, rows, None, 0);
    let k = at.index_of(i);
    assert(node_stands_for(order, rows, None, 0, nodes[k], at[k]));
    assert(nodes[k].row.id == id);
}

} // verus!
